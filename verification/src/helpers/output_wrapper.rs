//! The result cursor of a ranked query: the same path data as the frontier
//! cursor, ordered by the word score at its tip, and able to spell the word
//! it reached.

use vstd::prelude::*;

use crate::helpers::queue_wrapper::QueueWrapper;
use crate::helpers::queue_wrapper::copy_indices;
use crate::paths::str_of;
use crate::text::chars_to_string;
use crate::trie_node::TrieNode;

verus! {

pub struct OutputWrapper {
    pub nodes: Vec<usize>,
}

impl OutputWrapper {
    /// The score a result cursor is ordered by: the word score at its tip,
    /// zero when the tip ends no word or the cursor is empty.
    pub open spec fn spec_output_score(&self, ns: Seq<TrieNode>) -> i64 {
        if self.nodes@.len() == 0 {
            0
        } else {
            match ns[self.nodes@.last() as int].word_score {
                Some(score) => score,
                None => 0,
            }
        }
    }

    /// The characters of the nodes on the path, in order.
    pub fn chars(&self, arena: &Vec<TrieNode>) -> (r: Vec<char>)
        requires
            forall|m: int|
                0 <= m < self.nodes@.len() ==> (#[trigger] self.nodes@[m] as int) < arena@.len()
                    && arena@[self.nodes@[m] as int].value is Some,
        ensures
            r@ == str_of(arena@, self.nodes@),
    {
        let mut r: Vec<char> = Vec::new();
        let mut i: usize = 0;
        while i < self.nodes.len()
            invariant
                i <= self.nodes@.len(),
                r@ == str_of(arena@, self.nodes@.take(i as int)),
            decreases self.nodes@.len() - i,
        {
            match arena[self.nodes[i]].value {
                Some(c) => r.push(c),
                None => {
                    proof {
                        assert(false);
                    }
                },
            }
            proof {
                assert(str_of(arena@, self.nodes@.take((i + 1) as int)) =~= str_of(
                    arena@,
                    self.nodes@.take(i as int),
                ).push(arena@[self.nodes@[i as int] as int].value->Some_0));
            }
            i = i + 1;
        }
        proof {
            assert(self.nodes@.take(self.nodes@.len() as int) =~= self.nodes@);
        }
        r
    }

    /// The word this path spells, as text.
    pub fn join(&self, arena: &Vec<TrieNode>) -> (r: String)
        requires
            forall|m: int|
                0 <= m < self.nodes@.len() ==> (#[trigger] self.nodes@[m] as int) < arena@.len()
                    && arena@[self.nodes@[m] as int].value is Some,
        ensures
            r@ == str_of(arena@, self.nodes@),
    {
        let cs = self.chars(arena);
        chars_to_string(&cs)
    }

    /// The tip of the cursor, if any.
    pub fn last(&self) -> (r: Option<usize>)
        ensures
            r == if self.nodes@.len() == 0 {
                None::<usize>
            } else {
                Some(self.nodes@.last())
            },
    {
        if self.nodes.len() == 0 {
            None
        } else {
            Some(self.nodes[self.nodes.len() - 1])
        }
    }

    /// The word score at the cursor's tip.
    pub fn output_score(&self, arena: &Vec<TrieNode>) -> (r: i64)
        requires
            self.nodes@.len() > 0 ==> (self.nodes@.last() as int) < arena@.len(),
        ensures
            r == self.spec_output_score(arena@),
    {
        match self.last() {
            Some(node) => match arena[node].word_score {
                Some(score) => score,
                _ => 0,
            },
            _ => 0,
        }
    }

    /// The same path, reordered as a frontier cursor.
    pub fn to_queue_wrapper(&self) -> (r: QueueWrapper)
        ensures
            r.nodes@ == self.nodes@,
    {
        QueueWrapper { nodes: copy_indices(&self.nodes) }
    }
}

} // verus!
