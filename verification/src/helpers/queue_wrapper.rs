//! The frontier cursor of a ranked query: the arena indices of the nodes
//! visited from the root down to the current frontier node, ordered during
//! traversal by the aggregate bound at its tip.

use vstd::prelude::*;

use crate::helpers::output_wrapper::OutputWrapper;
use crate::trie_node::TrieNode;
use crate::trie_node::TrieNodeType;

verus! {

pub struct QueueWrapper {
    pub nodes: Vec<usize>,
}

/// An exact copy of a vector of indices.
pub(crate) fn copy_indices(p: &Vec<usize>) -> (r: Vec<usize>)
    ensures
        r@ == p@,
{
    let mut r: Vec<usize> = Vec::new();
    let mut i: usize = 0;
    while i < p.len()
        invariant
            i <= p@.len(),
            r@ == p@.take(i as int),
        decreases p@.len() - i,
    {
        r.push(p[i]);
        proof {
            assert(p@.take((i + 1) as int) =~= p@.take(i as int).push(p@[i as int]));
        }
        i = i + 1;
    }
    proof {
        assert(p@.take(p@.len() as int) =~= p@);
    }
    r
}

impl QueueWrapper {
    /// The score a frontier cursor is ordered by: the aggregate bound of
    /// its tip, zero for the empty cursor.
    pub open spec fn spec_output_score(&self, ns: Seq<TrieNode>) -> i64 {
        if self.nodes@.len() == 0 {
            0
        } else {
            ns[self.nodes@.last() as int].node_score
        }
    }

    /// The tip of the cursor, if any.
    pub fn last(&self) -> (r: Option<usize>)
        ensures
            r == if self.nodes@.len() == 0 {
                None::<usize>
            } else {
                Some(self.nodes@.last())
            },
    {
        if self.nodes.len() == 0 {
            None
        } else {
            Some(self.nodes[self.nodes.len() - 1])
        }
    }

    /// The aggregate bound at the cursor's tip: an upper bound on the score
    /// of every word reachable below it.
    pub fn output_score(&self, arena: &Vec<TrieNode>) -> (r: i64)
        requires
            self.nodes@.len() > 0 ==> (self.nodes@.last() as int) < arena@.len(),
        ensures
            r == self.spec_output_score(arena@),
    {
        match self.last() {
            Some(node) => arena[node].node_score,
            _ => 0,
        }
    }

    /// The same path, reordered as a result cursor.
    pub fn to_output_wrapper(&self) -> (r: OutputWrapper)
        ensures
            r.nodes@ == self.nodes@,
    {
        OutputWrapper { nodes: copy_indices(&self.nodes) }
    }

    /// The cursor extended one level deeper, to the given child node.
    pub fn new_with_node(&self, node: usize) -> (r: Self)
        ensures
            r.nodes@ == self.nodes@.push(node),
    {
        let mut nodes = copy_indices(&self.nodes);
        nodes.push(node);
        Self { nodes }
    }

    /// The child entries of the cursor's tip, absent for the empty cursor.
    pub fn children(&self, arena: &Vec<TrieNode>) -> (r: Option<Vec<(char, usize)>>)
        requires
            self.nodes@.len() > 0 ==> (self.nodes@.last() as int) < arena@.len(),
        ensures
            r matches Some(cs) <==> self.nodes@.len() > 0,
            r matches Some(cs) ==> cs@ == arena@[self.nodes@.last() as int].children@,
    {
        match self.last() {
            Some(node) => {
                let src = &arena[node].children;
                let mut cs: Vec<(char, usize)> = Vec::new();
                let mut i: usize = 0;
                while i < src.len()
                    invariant
                        i <= src@.len(),
                        cs@ == src@.take(i as int),
                    decreases src@.len() - i,
                {
                    cs.push(src[i]);
                    proof {
                        assert(src@.take((i + 1) as int) =~= src@.take(i as int).push(
                            src@[i as int],
                        ));
                    }
                    i = i + 1;
                }
                proof {
                    assert(src@.take(src@.len() as int) =~= src@);
                }
                Some(cs)
            },
            _ => None,
        }
    }

    /// The kind of the node at the cursor's tip, absent for the empty
    /// cursor.
    pub fn leaf_type(&self, arena: &Vec<TrieNode>) -> (r: Option<TrieNodeType>)
        requires
            self.nodes@.len() > 0 ==> (self.nodes@.last() as int) < arena@.len(),
        ensures
            r == if self.nodes@.len() == 0 {
                None::<TrieNodeType>
            } else {
                Some(arena@[self.nodes@.last() as int].node_type)
            },
    {
        match self.last() {
            Some(node) => Some(arena[node].node_type),
            _ => None,
        }
    }
}

} // verus!
