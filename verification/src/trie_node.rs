//! The unit of the tree: one character transition, its children, its kind,
//! and its two scores.

use vstd::prelude::*;

verus! {

/// Whether a complete word ends at a node.
#[derive(Clone, Copy, Debug, PartialEq, Eq, Structural)]
pub enum TrieNodeType {
    Final,
    Intermediate,
}

/// One trie node, living in an arena: `children` maps a character to the
/// arena index of the child node.
///
/// `word_score` is the score of the word ending at this exact node and is
/// present iff the node is `Final`.  `node_score` is an aggregate upper
/// bound: the maximum score of any word whose insertion path passes
/// through this node.
pub struct TrieNode {
    pub value: Option<char>,
    pub children: Vec<(char, usize)>,
    pub node_type: TrieNodeType,
    pub word_score: Option<i64>,
    pub node_score: i64,
}

/// The child index that a character selects in a children list: the first
/// pair carrying that character, if any.
pub open spec fn child_in(cs: Seq<(char, usize)>, c: char) -> Option<usize>
    decreases cs.len(),
{
    if cs.len() == 0 {
        None
    } else if cs[0].0 == c {
        Some(cs[0].1)
    } else {
        child_in(cs.drop_first(), c)
    }
}

/// A found child stands somewhere in the list.
pub proof fn lemma_child_in_position(cs: Seq<(char, usize)>, c: char)
    requires
        child_in(cs, c) is Some,
    ensures
        exists|k: int| 0 <= k < cs.len() && cs[k] == (c, child_in(cs, c)->Some_0),
    decreases cs.len(),
{
    if cs.len() > 0 && cs[0].0 != c {
        lemma_child_in_position(cs.drop_first(), c);
        let k0 = choose|k: int|
            0 <= k < cs.drop_first().len() && cs.drop_first()[k] == (
            c,
            child_in(cs.drop_first(), c)->Some_0,
            );
        assert(cs[k0 + 1] == (c, child_in(cs, c)->Some_0));
    }
}

/// When no pair in the list carries the character, nothing is found.
pub proof fn lemma_child_in_absent(cs: Seq<(char, usize)>, c: char)
    requires
        forall|k: int| 0 <= k < cs.len() ==> (#[trigger] cs[k]).0 != c,
    ensures
        child_in(cs, c) is None,
    decreases cs.len(),
{
    if cs.len() > 0 {
        lemma_child_in_absent(cs.drop_first(), c);
    }
}

/// With pairwise-distinct characters, any pair in the list is the one found.
pub proof fn lemma_child_in_distinct(cs: Seq<(char, usize)>, k: int)
    requires
        forall|k1: int, k2: int|
            0 <= k1 < k2 < cs.len() ==> (#[trigger] cs[k1]).0 != (#[trigger] cs[k2]).0,
        0 <= k < cs.len(),
    ensures
        child_in(cs, cs[k].0) == Some(cs[k].1),
    decreases cs.len(),
{
    if k > 0 {
        assert(cs[0].0 != cs[k].0);
        lemma_child_in_distinct(cs.drop_first(), k - 1);
        assert(cs.drop_first()[k - 1] == cs[k]);
    }
}

/// Appending a pair with a fresh character only extends the lookup.
pub proof fn lemma_child_in_push(cs: Seq<(char, usize)>, c: char, j: usize, q: char)
    ensures
        child_in(cs.push((c, j)), q) == if child_in(cs, q) is Some {
            child_in(cs, q)
        } else if q == c {
            Some(j)
        } else {
            None
        },
    decreases cs.len(),
{
    let s = cs.push((c, j));
    if cs.len() == 0 {
        assert(s.len() == 1);
        assert(s[0] == (c, j));
        assert(s.drop_first().len() == 0);
        assert(child_in(s.drop_first(), q) is None);
        if q == c {
            assert(child_in(s, q) == Some(j));
        } else {
            assert(child_in(s, q) is None);
        }
    } else {
        lemma_child_in_push(cs.drop_first(), c, j, q);
        assert(s[0] == cs[0]);
        assert(s.drop_first() =~= cs.drop_first().push((c, j)));
        assert(child_in(s.drop_first(), q) == child_in(cs.drop_first().push((c, j)), q));
        if cs[0].0 == q {
            assert(child_in(s, q) == Some(cs[0].1));
            assert(child_in(cs, q) == Some(cs[0].1));
        } else {
            assert(child_in(s, q) == child_in(s.drop_first(), q));
            assert(child_in(cs, q) == child_in(cs.drop_first(), q));
        }
    }
}

impl TrieNode {
    /// A fresh node: no children, not the end of any word, zero aggregate.
    pub fn new(value: Option<char>) -> (n: TrieNode)
        ensures
            n.value == value,
            n.children@ =~= Seq::<(char, usize)>::empty(),
            n.node_type == TrieNodeType::Intermediate,
            n.word_score is None,
            n.node_score == 0,
    {
        TrieNode {
            value,
            children: Vec::new(),
            node_type: TrieNodeType::Intermediate,
            word_score: None,
            node_score: 0,
        }
    }

    /// Linear scan for the child that a character selects.
    pub fn find_child(&self, c: char) -> (r: Option<usize>)
        ensures
            r == child_in(self.children@, c),
    {
        let mut k: usize = 0;
        assert(self.children@.skip(0) =~= self.children@);
        while k < self.children.len()
            invariant
                0 <= k <= self.children@.len(),
                child_in(self.children@, c) == child_in(self.children@.skip(k as int), c),
            decreases self.children@.len() - k,
        {
            let (cc, j) = self.children[k];
            assert(self.children@.skip(k as int)[0] == self.children@[k as int]);
            if cc == c {
                return Some(j);
            }
            assert(self.children@.skip(k as int).drop_first() =~= self.children@.skip(k + 1));
            k = k + 1;
        }
        assert(self.children@.skip(k as int).len() == 0);
        None
    }
}

} // verus!
