//! The arena's well-formedness and the walk that a string makes through it.
//!
//! A trie is a `Vec<TrieNode>` whose root sits at index 0.  Every fact the
//! public contracts state is phrased over `walk`: the node (if any) that a
//! sequence of characters reaches from a given start node.

use vstd::prelude::*;

use crate::trie_node::TrieNode;
use crate::trie_node::TrieNodeType;
use crate::trie_node::child_in;
use crate::trie_node::lemma_child_in_position;
use crate::trie_node::lemma_child_in_push;

verus! {

/// Local well-formedness of the node at index `i`:
/// children point strictly forward into the arena, carry the character they
/// are keyed by, never exceed their parent's aggregate bound (the root keeps
/// no bound), and are keyed by pairwise-distinct characters; a node is
/// `Final` exactly when it carries a word score, and that score never
/// exceeds the node's own aggregate bound.
pub open spec fn node_wf(ns: Seq<TrieNode>, i: int) -> bool {
    let cs = ns[i].children@;
    &&& forall|k: int| 0 <= k < cs.len() ==> i < (#[trigger] cs[k]).1 < ns.len()
    &&& forall|k: int|
        0 <= k < cs.len() ==> ns[(#[trigger] cs[k]).1 as int].value == Some(cs[k].0)
    &&& forall|k: int|
        0 <= k < cs.len() && i != 0 ==> ns[(#[trigger] cs[k]).1 as int].node_score
            <= ns[i].node_score
    &&& forall|k1: int, k2: int|
        0 <= k1 < k2 < cs.len() ==> (#[trigger] cs[k1]).0 != (#[trigger] cs[k2]).0
    &&& (ns[i].node_type == TrieNodeType::Final <==> ns[i].word_score is Some)
    &&& ns[i].node_score >= 0
    &&& (i != 0 && ns[i].word_score is Some ==> ns[i].word_score->Some_0 <= ns[i].node_score)
}

/// Every node is the child of at most one (parent, position) pair.
pub open spec fn parents_unique(ns: Seq<TrieNode>) -> bool {
    forall|i1: int, k1: int, i2: int, k2: int|
        0 <= i1 < ns.len() && 0 <= k1 < ns[i1].children@.len() && 0 <= i2 < ns.len() && 0 <= k2
            < ns[i2].children@.len() && (#[trigger] ns[i1].children@[k1]).1 == (
        #[trigger] ns[i2].children@[k2]).1 ==> i1 == i2 && k1 == k2
}

/// Well-formedness of the whole arena.
pub open spec fn arena_wf(ns: Seq<TrieNode>) -> bool {
    &&& ns.len() >= 1
    &&& ns[0].value is None
    &&& forall|i: int| 0 <= i < ns.len() ==> #[trigger] node_wf(ns, i)
    &&& parents_unique(ns)
}

/// The node that a string reaches from node `i`, following one child edge
/// per character.
pub open spec fn walk(ns: Seq<TrieNode>, i: int, w: Seq<char>) -> Option<int>
    decreases w.len(),
{
    if !(0 <= i < ns.len()) {
        None
    } else if w.len() == 0 {
        Some(i)
    } else {
        match child_in(ns[i].children@, w[0]) {
            None => None,
            Some(j) => walk(ns, j as int, w.drop_first()),
        }
    }
}

/// A walk lands in bounds, and strictly deeper in the arena for a nonempty
/// string.
pub proof fn lemma_walk_bounds(ns: Seq<TrieNode>, i: int, w: Seq<char>)
    requires
        arena_wf(ns),
        walk(ns, i, w) is Some,
    ensures
        0 <= walk(ns, i, w)->Some_0 < ns.len(),
        w.len() > 0 ==> walk(ns, i, w)->Some_0 > i,
    decreases w.len(),
{
    if w.len() > 0 {
        let j = child_in(ns[i].children@, w[0])->Some_0;
        lemma_child_in_position(ns[i].children@, w[0]);
        assert(node_wf(ns, i));
        lemma_walk_bounds(ns, j as int, w.drop_first());
    }
}

/// A walk splits over concatenation.
pub proof fn lemma_walk_append(ns: Seq<TrieNode>, i: int, a: Seq<char>, b: Seq<char>)
    requires
        0 <= i < ns.len(),
    ensures
        walk(ns, i, a + b) == match walk(ns, i, a) {
            None => None::<int>,
            Some(m) => walk(ns, m, b),
        },
    decreases a.len(),
{
    if a.len() == 0 {
        assert(a + b =~= b);
    } else {
        assert((a + b)[0] == a[0]);
        match child_in(ns[i].children@, a[0]) {
            None => {
                assert(walk(ns, i, a + b) is None);
            },
            Some(j) => {
                assert((a + b).drop_first() =~= a.drop_first() + b);
                if 0 <= (j as int) && (j as int) < ns.len() {
                    lemma_walk_append(ns, j as int, a.drop_first(), b);
                } else {
                    assert(walk(ns, j as int, a.drop_first() + b) is None);
                    assert(walk(ns, j as int, a.drop_first()) is None);
                }
            },
        }
    }
}

/// A walk over a string extended by one character takes one more child edge.
pub proof fn lemma_walk_push(ns: Seq<TrieNode>, i: int, w: Seq<char>, c: char)
    requires
        0 <= i < ns.len(),
    ensures
        walk(ns, i, w.push(c)) == match walk(ns, i, w) {
            None => None::<int>,
            Some(m) => if 0 <= m < ns.len() {
                match child_in(ns[m].children@, c) {
                    None => None::<int>,
                    Some(j) => if 0 <= (j as int) && (j as int) < ns.len() {
                        Some(j as int)
                    } else {
                        None::<int>
                    },
                }
            } else {
                None::<int>
            },
        },
{
    assert(w.push(c) =~= w + seq![c]);
    lemma_walk_append(ns, i, w, seq![c]);
    if walk(ns, i, w) is Some {
        let m = walk(ns, i, w)->Some_0;
        if 0 <= m < ns.len() {
            assert(seq![c].len() == 1);
            assert(seq![c][0] == c);
            match child_in(ns[m].children@, c) {
                None => {},
                Some(j) => {
                    assert(seq![c].drop_first().len() == 0);
                    if 0 <= (j as int) && (j as int) < ns.len() {
                        assert(walk(ns, j as int, seq![c].drop_first()) == Some(j as int));
                    }
                },
            }
        }
    }
}

/// From the root, a node determines the string that reaches it: walks from
/// the root are injective.
pub proof fn lemma_walk_unique(ns: Seq<TrieNode>, v1: Seq<char>, v2: Seq<char>)
    requires
        arena_wf(ns),
        walk(ns, 0, v1) is Some,
        walk(ns, 0, v1) == walk(ns, 0, v2),
    ensures
        v1 == v2,
    decreases v1.len() + v2.len(),
{
    let j = walk(ns, 0, v1)->Some_0;
    lemma_walk_bounds(ns, 0, v1);
    lemma_walk_bounds(ns, 0, v2);
    if v1.len() == 0 {
        if v2.len() > 0 {
            lemma_last_step(ns, v2);
        }
    } else if v2.len() == 0 {
        lemma_last_step(ns, v1);
    } else {
        lemma_last_step(ns, v1);
        lemma_last_step(ns, v2);
        let p1 = walk(ns, 0, v1.drop_last())->Some_0;
        let p2 = walk(ns, 0, v2.drop_last())->Some_0;
        let k1 = choose|k: int|
            0 <= k < ns[p1].children@.len() && ns[p1].children@[k] == (v1.last(), j as usize);
        let k2 = choose|k: int|
            0 <= k < ns[p2].children@.len() && ns[p2].children@[k] == (v2.last(), j as usize);
        assert(p1 == p2 && k1 == k2);
        lemma_walk_unique(ns, v1.drop_last(), v2.drop_last());
        assert(v1 =~= v1.drop_last().push(v1.last()));
        assert(v2 =~= v2.drop_last().push(v2.last()));
    }
}

/// The last edge of a successful walk from the root: its parent node, and
/// the child entry that takes the final step.
pub proof fn lemma_last_step(ns: Seq<TrieNode>, v: Seq<char>)
    requires
        arena_wf(ns),
        v.len() > 0,
        walk(ns, 0, v) is Some,
    ensures
        walk(ns, 0, v.drop_last()) is Some,
        ({
            let p = walk(ns, 0, v.drop_last())->Some_0;
            let j = walk(ns, 0, v)->Some_0;
            &&& 0 <= p < ns.len()
            &&& j >= 1
            &&& exists|k: int|
                0 <= k < ns[p].children@.len() && ns[p].children@[k] == (v.last(), j as usize)
        }),
{
    assert(v =~= v.drop_last() + seq![v.last()]);
    lemma_walk_append(ns, 0, v.drop_last(), seq![v.last()]);
    let p = walk(ns, 0, v.drop_last())->Some_0;
    lemma_walk_bounds(ns, 0, v.drop_last());
    assert(seq![v.last()].len() == 1);
    assert(seq![v.last()][0] == v.last());
    let cj = child_in(ns[p].children@, v.last());
    assert(cj is Some);
    let j = cj->Some_0;
    assert(seq![v.last()].drop_first().len() == 0);
    lemma_child_in_position(ns[p].children@, v.last());
    assert(node_wf(ns, p));
    let k = choose|k: int| 0 <= k < ns[p].children@.len() && ns[p].children@[k] == (v.last(), j);
    assert(0 <= (j as int) && (j as int) < ns.len());
    assert(walk(ns, j as int, seq![v.last()].drop_first()) == Some(j as int));
    assert(walk(ns, p, seq![v.last()]) == Some(j as int));
    assert(walk(ns, 0, v) == Some(j as int));
    assert(j as int >= 1);
}

/// Two arenas of equal shape (same length, same children lists everywhere)
/// walk identically.
pub proof fn lemma_walk_same_structure(
    ns1: Seq<TrieNode>,
    ns2: Seq<TrieNode>,
    i: int,
    w: Seq<char>,
)
    requires
        ns1.len() == ns2.len(),
        forall|m: int| 0 <= m < ns1.len() ==> #[trigger] ns2[m].children@ == ns1[m].children@,
    ensures
        walk(ns2, i, w) == walk(ns1, i, w),
    decreases w.len(),
{
    if 0 <= i < ns1.len() && w.len() > 0 {
        match child_in(ns1[i].children@, w[0]) {
            None => {},
            Some(j) => {
                lemma_walk_same_structure(ns1, ns2, j as int, w.drop_first());
            },
        }
    }
}

/// A prefix of a string that walks somewhere walks somewhere itself.
pub proof fn lemma_walk_prefix(ns: Seq<TrieNode>, w: Seq<char>, v: Seq<char>)
    requires
        ns.len() >= 1,
        walk(ns, 0, w) is Some,
        v.is_prefix_of(w),
    ensures
        walk(ns, 0, v) is Some,
{
    assert(w =~= v + w.skip(v.len() as int));
    lemma_walk_append(ns, 0, v, w.skip(v.len() as int));
}

/// Raising the aggregate bound of one non-root node keeps the arena well
/// formed and walks unchanged, provided the node's one parent still
/// dominates the new bound.
pub proof fn lemma_update_score_wf(ns1: Seq<TrieNode>, ns2: Seq<TrieNode>, j: int, parent: int)
    requires
        arena_wf(ns1),
        1 <= j < ns1.len(),
        ns2.len() == ns1.len(),
        forall|m: int| 0 <= m < ns1.len() && m != j ==> ns2[m] == ns1[m],
        ns2[j].children@ == ns1[j].children@,
        ns2[j].value == ns1[j].value,
        ns2[j].node_type == ns1[j].node_type,
        ns2[j].word_score == ns1[j].word_score,
        ns2[j].node_score >= ns1[j].node_score,
        0 <= parent < ns1.len(),
        exists|k: int|
            0 <= k < ns1[parent].children@.len() && (#[trigger] ns1[parent].children@[k]).1 == j,
        parent != 0 ==> ns2[j].node_score <= ns1[parent].node_score,
    ensures
        arena_wf(ns2),
        forall|i: int, w: Seq<char>| #[trigger] walk(ns2, i, w) == walk(ns1, i, w),
{
    assert(forall|m: int|
        0 <= m < ns1.len() ==> #[trigger] ns2[m].children@ == ns1[m].children@);
    assert forall|m: int| 0 <= m < ns2.len() implies #[trigger] node_wf(ns2, m) by {
        assert(node_wf(ns1, m));
        let cs = ns1[m].children@;
        assert forall|k: int| 0 <= k < cs.len() && m != 0 implies ns2[(#[trigger] cs[k]).1 as int].node_score
            <= ns2[m].node_score by {
            if cs[k].1 == j {
                assert(m == parent);
            }
        };
        assert forall|k: int| 0 <= k < cs.len() implies ns2[(#[trigger] cs[k]).1 as int].value
            == Some(cs[k].0) by {};
    };
    assert forall|i: int, w: Seq<char>| #[trigger] walk(ns2, i, w) == walk(ns1, i, w) by {
        lemma_walk_same_structure(ns1, ns2, i, w);
    };
}

/// Marking one node `Final` with a word score that its own bound dominates
/// keeps the arena well formed and walks unchanged.
pub proof fn lemma_set_final_wf(ns1: Seq<TrieNode>, ns2: Seq<TrieNode>, t: int, s: i64)
    requires
        arena_wf(ns1),
        0 <= t < ns1.len(),
        ns2.len() == ns1.len(),
        forall|m: int| 0 <= m < ns1.len() && m != t ==> ns2[m] == ns1[m],
        ns2[t].children@ == ns1[t].children@,
        ns2[t].value == ns1[t].value,
        ns2[t].node_score == ns1[t].node_score,
        ns2[t].node_type == TrieNodeType::Final,
        ns2[t].word_score == Some(s),
        t != 0 ==> s <= ns1[t].node_score,
    ensures
        arena_wf(ns2),
        forall|i: int, w: Seq<char>| #[trigger] walk(ns2, i, w) == walk(ns1, i, w),
{
    assert(forall|m: int|
        0 <= m < ns1.len() ==> #[trigger] ns2[m].children@ == ns1[m].children@);
    assert forall|m: int| 0 <= m < ns2.len() implies #[trigger] node_wf(ns2, m) by {
        assert(node_wf(ns1, m));
        let cs = ns1[m].children@;
        assert forall|k: int| 0 <= k < cs.len() implies ns2[(#[trigger] cs[k]).1 as int].value
            == Some(cs[k].0) && (m != 0 ==> ns2[cs[k].1 as int].node_score <= ns2[m].node_score)
            by {};
    };
    assert forall|i: int, w: Seq<char>| #[trigger] walk(ns2, i, w) == walk(ns1, i, w) by {
        lemma_walk_same_structure(ns1, ns2, i, w);
    };
}

/// The structural relation between an arena and its extension by one fresh
/// node hung by a fresh character under the node `cur`.
pub open spec fn extends_by(
    ns1: Seq<TrieNode>,
    ns2: Seq<TrieNode>,
    cur: int,
    c: char,
    fresh: usize,
) -> bool {
    &&& ns1.len() == fresh as int
    &&& 0 <= cur < ns1.len()
    &&& child_in(ns1[cur].children@, c) is None
    &&& ns2.len() == ns1.len() + 1
    &&& forall|m: int| 0 <= m < ns1.len() && m != cur ==> ns2[m] == ns1[m]
    &&& ns2[cur].children@ == ns1[cur].children@.push((c, fresh))
    &&& ns2[cur].value == ns1[cur].value
    &&& ns2[cur].node_type == ns1[cur].node_type
    &&& ns2[cur].word_score == ns1[cur].word_score
    &&& ns2[cur].node_score == ns1[cur].node_score
    &&& ns2[fresh as int].value == Some(c)
    &&& ns2[fresh as int].children@.len() == 0
    &&& ns2[fresh as int].node_type == TrieNodeType::Intermediate
    &&& ns2[fresh as int].word_score is None
    &&& ns2[fresh as int].node_score >= 0
}

/// Walks that succeed keep succeeding, unchanged, when the arena is
/// extended by a fresh node.
proof fn lemma_extend_walk_preserve(
    ns1: Seq<TrieNode>,
    ns2: Seq<TrieNode>,
    cur: int,
    c: char,
    fresh: usize,
    i: int,
    w: Seq<char>,
)
    requires
        arena_wf(ns1),
        extends_by(ns1, ns2, cur, c, fresh),
        walk(ns1, i, w) is Some,
    ensures
        walk(ns2, i, w) == walk(ns1, i, w),
    decreases w.len(),
{
    if w.len() > 0 {
        let cj = child_in(ns1[i].children@, w[0]);
        assert(cj is Some);
        if i == cur {
            lemma_child_in_push(ns1[cur].children@, c, fresh, w[0]);
            assert(child_in(ns2[i].children@, w[0]) == cj);
        } else {
            assert(ns2[i].children@ == ns1[i].children@);
        }
        lemma_extend_walk_preserve(ns1, ns2, cur, c, fresh, cj->Some_0 as int, w.drop_first());
    }
}

/// Walks in the extended arena that land on an old node were already there.
proof fn lemma_extend_walk_reflect(
    ns1: Seq<TrieNode>,
    ns2: Seq<TrieNode>,
    cur: int,
    c: char,
    fresh: usize,
    i: int,
    w: Seq<char>,
)
    requires
        arena_wf(ns1),
        extends_by(ns1, ns2, cur, c, fresh),
        0 <= i < ns1.len(),
        walk(ns2, i, w) is Some,
        walk(ns2, i, w)->Some_0 != ns1.len(),
    ensures
        walk(ns1, i, w) == walk(ns2, i, w),
    decreases w.len(),
{
    if w.len() > 0 {
        let cj2 = child_in(ns2[i].children@, w[0]);
        assert(cj2 is Some);
        let j2 = cj2->Some_0;
        if j2 == fresh {
            assert(ns2[fresh as int].children@.len() == 0);
            if w.drop_first().len() == 0 {
                assert(walk(ns2, i, w)->Some_0 == fresh);
            } else {
                crate::trie_node::lemma_child_in_absent(
                    ns2[fresh as int].children@,
                    w.drop_first()[0],
                );
                assert(walk(ns2, fresh as int, w.drop_first()) is None);
            }
            assert(false);
        } else {
            if i == cur {
                lemma_child_in_push(ns1[cur].children@, c, fresh, w[0]);
                assert(child_in(ns1[i].children@, w[0]) == cj2);
            } else {
                assert(ns2[i].children@ == ns1[i].children@);
            }
            lemma_child_in_position(ns1[i].children@, w[0]);
            assert(node_wf(ns1, i));
            lemma_extend_walk_reflect(ns1, ns2, cur, c, fresh, j2 as int, w.drop_first());
        }
    }
}

/// Hanging a fresh node under `cur` by a fresh character keeps the arena
/// well formed; the only string whose walk changes is the one that reaches
/// the fresh node.
pub proof fn lemma_extend_wf(
    ns1: Seq<TrieNode>,
    ns2: Seq<TrieNode>,
    cur: int,
    c: char,
    fresh: usize,
    pc: Seq<char>,
)
    requires
        arena_wf(ns1),
        extends_by(ns1, ns2, cur, c, fresh),
        cur != 0 ==> ns2[fresh as int].node_score <= ns1[cur].node_score,
        walk(ns1, 0, pc) == Some(cur),
    ensures
        arena_wf(ns2),
        walk(ns2, 0, pc.push(c)) == Some(fresh as int),
        forall|v: Seq<char>| v != pc.push(c) ==> #[trigger] walk(ns2, 0, v) == walk(ns1, 0, v),
{
    let csc = ns1[cur].children@;
    let cs2 = ns2[cur].children@;
    assert forall|k: int| 0 <= k < csc.len() implies (#[trigger] csc[k]).0 != c by {
        if csc[k].0 == c {
            assert(node_wf(ns1, cur));
            crate::trie_node::lemma_child_in_distinct(csc, k);
        }
    };
    // well-formedness of every node
    assert forall|m: int| 0 <= m < ns2.len() implies #[trigger] node_wf(ns2, m) by {
        if m == fresh as int {
        } else if m == cur {
            assert(node_wf(ns1, cur));
            assert(cs2 == csc.push((c, fresh)));
            assert forall|k: int| 0 <= k < cs2.len() implies m < (#[trigger] cs2[k]).1 < ns2.len()
                && ns2[cs2[k].1 as int].value == Some(cs2[k].0) && (m != 0 ==> ns2[cs2[k].1 as int].node_score
                <= ns2[m].node_score) by {
                if k < csc.len() {
                    assert(cs2[k] == csc[k]);
                    assert((csc[k].1 as int) != fresh as int);
                } else {
                    assert(cs2[k] == (c, fresh));
                }
            };
            assert forall|k1: int, k2: int| 0 <= k1 < k2 < cs2.len() implies (
            #[trigger] cs2[k1]).0 != (#[trigger] cs2[k2]).0 by {
                if k2 == csc.len() {
                    assert(cs2[k1] == csc[k1]);
                    assert(cs2[k2] == (c, fresh));
                } else {
                    assert(cs2[k1] == csc[k1]);
                    assert(cs2[k2] == csc[k2]);
                }
            };
        } else {
            assert(node_wf(ns1, m));
            let cs = ns1[m].children@;
            assert(ns2[m].children@ == cs);
            assert forall|k: int| 0 <= k < cs.len() implies m < (#[trigger] cs[k]).1 < ns2.len()
                && ns2[cs[k].1 as int].value == Some(cs[k].0) && (m != 0 ==> ns2[cs[k].1 as int].node_score
                <= ns2[m].node_score) by {
                assert((cs[k].1 as int) != fresh as int);
                if cs[k].1 as int == cur {
                    assert(ns2[cur].value == ns1[cur].value);
                }
            };
        }
    };
    // parent uniqueness
    assert forall|i1: int, k1: int, i2: int, k2: int|
        0 <= i1 < ns2.len() && 0 <= k1 < ns2[i1].children@.len() && 0 <= i2 < ns2.len() && 0 <= k2
            < ns2[i2].children@.len() && (#[trigger] ns2[i1].children@[k1]).1 == (
    #[trigger] ns2[i2].children@[k2]).1 implies i1 == i2 && k1 == k2 by {
        let old_edge_1 = i1 != fresh as int && !(i1 == cur && k1 == csc.len());
        let old_edge_2 = i2 != fresh as int && !(i2 == cur && k2 == csc.len());
        if old_edge_1 && old_edge_2 {
            assert(ns2[i1].children@[k1] == ns1[i1].children@[k1]);
            assert(ns2[i2].children@[k2] == ns1[i2].children@[k2]);
            assert(node_wf(ns1, i1));
            assert(node_wf(ns1, i2));
        } else if old_edge_1 {
            assert(ns2[i2].children@[k2].1 as int == fresh as int);
            assert(ns2[i1].children@[k1] == ns1[i1].children@[k1]);
            assert(node_wf(ns1, i1));
            assert((ns1[i1].children@[k1].1 as int) < fresh as int);
        } else if old_edge_2 {
            assert(ns2[i1].children@[k1].1 as int == fresh as int);
            assert(ns2[i2].children@[k2] == ns1[i2].children@[k2]);
            assert(node_wf(ns1, i2));
            assert((ns1[i2].children@[k2].1 as int) < fresh as int);
        }
    };
    assert(arena_wf(ns2));
    // the fresh string now walks to the fresh node
    lemma_extend_walk_preserve(ns1, ns2, cur, c, fresh, 0, pc);
    lemma_walk_push(ns2, 0, pc, c);
    lemma_child_in_push(csc, c, fresh, c);
    assert(child_in(cs2, c) == Some(fresh));
    assert(walk(ns2, 0, pc.push(c)) == Some(fresh as int));
    // every other string walks as before
    assert forall|v: Seq<char>| v != pc.push(c) implies #[trigger] walk(ns2, 0, v) == walk(
        ns1,
        0,
        v,
    ) by {
        if walk(ns1, 0, v) is Some {
            lemma_extend_walk_preserve(ns1, ns2, cur, c, fresh, 0, v);
        } else if walk(ns2, 0, v) is Some {
            if walk(ns2, 0, v)->Some_0 == fresh as int {
                lemma_walk_unique(ns2, pc.push(c), v);
                assert(false);
            } else {
                lemma_extend_walk_reflect(ns1, ns2, cur, c, fresh, 0, v);
                assert(false);
            }
        }
    };
}

/// A root-anchored path of node indices: each entry is the child that its
/// own character selects under the previous entry (the first under the
/// root).
pub open spec fn path_ok(ns: Seq<TrieNode>, p: Seq<usize>) -> bool {
    &&& forall|m: int|
        0 <= m < p.len() ==> 0 <= #[trigger] p[m] < ns.len() && ns[p[m] as int].value is Some
    &&& (p.len() > 0 ==> child_in(ns[0].children@, ns[p[0] as int].value->Some_0) == Some(p[0]))
    &&& forall|m1: int, m2: int|
        #![trigger p[m1], p[m2]]
        0 <= m1 && m1 + 1 == m2 && m2 < p.len() ==> child_in(
            ns[p[m1] as int].children@,
            ns[p[m2] as int].value->Some_0,
        ) == Some(p[m2])
}

/// The string that a path spells: the character of each node on it.
pub open spec fn str_of(ns: Seq<TrieNode>, p: Seq<usize>) -> Seq<char> {
    p.map(|m: int, idx: usize| ns[idx as int].value->Some_0)
}

/// The node index at the tip of a path, the root for the empty path.
pub open spec fn path_last(p: Seq<usize>) -> int {
    if p.len() == 0 {
        0
    } else {
        p.last() as int
    }
}

/// A path's string walks from the root exactly to the path's tip.
pub proof fn lemma_path_walk(ns: Seq<TrieNode>, p: Seq<usize>)
    requires
        ns.len() >= 1,
        path_ok(ns, p),
    ensures
        walk(ns, 0, str_of(ns, p)) == Some(path_last(p)),
    decreases p.len(),
{
    if p.len() > 0 {
        let q = p.drop_last();
        assert forall|m: int| 0 <= m < q.len() implies #[trigger] q[m] == p[m] by {}
        assert(path_ok(ns, q));
        lemma_path_walk(ns, q);
        let c = ns[p.last() as int].value->Some_0;
        assert(str_of(ns, p) =~= str_of(ns, q).push(c));
        lemma_walk_push(ns, 0, str_of(ns, q), c);
        if p.len() == 1 {
            assert(child_in(ns[path_last(q)].children@, c) == Some(p.last()));
        } else {
            assert(p[p.len() - 2] == q.last());
            assert(p[p.len() - 1] == p.last());
            assert(child_in(ns[path_last(q)].children@, c) == Some(p.last()));
        }
    }
}

/// A path extended by one more child node is still a path.
pub proof fn lemma_path_ok_push(ns: Seq<TrieNode>, p: Seq<usize>, j: usize, c: char)
    requires
        path_ok(ns, p),
        0 <= (j as int) < ns.len(),
        ns[j as int].value == Some(c),
        child_in(ns[path_last(p)].children@, c) == Some(j),
    ensures
        path_ok(ns, p.push(j)),
{
    let p2 = p.push(j);
    assert forall|m: int| 0 <= m < p2.len() implies 0 <= #[trigger] p2[m] < ns.len()
        && ns[p2[m] as int].value is Some by {
        if m < p.len() {
            assert(p2[m] == p[m]);
        } else {
            assert(p2[m] == j);
        }
    };
    if p.len() > 0 {
        assert(p2[0] == p[0]);
    }
    assert forall|m1: int, m2: int|
        #![trigger p2[m1], p2[m2]]
        0 <= m1 && m1 + 1 == m2 && m2 < p2.len() implies child_in(
        ns[p2[m1] as int].children@,
        ns[p2[m2] as int].value->Some_0,
    ) == Some(p2[m2]) by {
        if m2 < p.len() {
            assert(p2[m1] == p[m1]);
            assert(p2[m2] == p[m2]);
        } else {
            assert(p2[m2] == j);
            assert(p2[m1] == p[m1]);
            assert(p[m1] == p.last());
        }
    };
}

/// The string of a path extended by one node is the string of the path
/// extended by that node's character.
pub proof fn lemma_str_of_push(ns: Seq<TrieNode>, p: Seq<usize>, j: usize)
    ensures
        str_of(ns, p.push(j)) == str_of(ns, p).push(ns[j as int].value->Some_0),
{
    let p2 = p.push(j);
    let c = ns[j as int].value->Some_0;
    let s2 = str_of(ns, p2);
    let s1 = str_of(ns, p);
    assert forall|m: int| 0 <= m < s2.len() implies s2[m] == s1.push(c)[m] by {
        if m < p.len() {
            assert(p2[m] == p[m]);
        } else {
            assert(p2[m] == j);
        }
    };
    assert(s2 =~= s1.push(c));
}

/// Extending a path by the child at position `k` of its tip keeps it a
/// path and extends its string by that child's character.
pub proof fn lemma_path_push(ns: Seq<TrieNode>, p: Seq<usize>, k: int)
    requires
        arena_wf(ns),
        path_ok(ns, p),
        0 <= k < ns[path_last(p)].children@.len(),
    ensures
        path_ok(ns, p.push(ns[path_last(p)].children@[k].1)),
        str_of(ns, p.push(ns[path_last(p)].children@[k].1)) == str_of(ns, p).push(
            ns[path_last(p)].children@[k].0,
        ),
{
    let last = path_last(p);
    let c = ns[last].children@[k].0;
    let j = ns[last].children@[k].1;
    assert(node_wf(ns, last));
    crate::trie_node::lemma_child_in_distinct(ns[last].children@, k);
    assert(child_in(ns[last].children@, c) == Some(j));
    assert(ns[j as int].value == Some(c));
    lemma_path_ok_push(ns, p, j, c);
    lemma_str_of_push(ns, p, j);
    assert(ns[j as int].value->Some_0 == c);
}

/// Whether node `j` lies in the subtree at node `a`: some string walks from
/// `a` to `j`.
pub open spec fn desc(ns: Seq<TrieNode>, a: int, j: int) -> bool {
    exists|s: Seq<char>| walk(ns, a, s) == Some(j)
}

/// A word's score never exceeds the aggregate bound of any non-root node on
/// its path.
pub proof fn lemma_bound_dominates(ns: Seq<TrieNode>, j: int, suf: Seq<char>)
    requires
        arena_wf(ns),
        1 <= j < ns.len(),
        walk(ns, j, suf) is Some,
        ns[walk(ns, j, suf)->Some_0].word_score is Some,
    ensures
        ns[walk(ns, j, suf)->Some_0].word_score->Some_0 <= ns[j].node_score,
    decreases suf.len(),
{
    assert(node_wf(ns, j));
    if suf.len() == 0 {
    } else {
        let m = child_in(ns[j].children@, suf[0])->Some_0;
        lemma_child_in_position(ns[j].children@, suf[0]);
        lemma_bound_dominates(ns, m as int, suf.drop_first());
    }
}

} // verus!
