//! The trie itself: a root-owned arena of nodes, insertion with score
//! aggregation, membership and prefix tests, and ranked prefix queries.

use vstd::prelude::*;

use crate::helpers::output_wrapper::OutputWrapper;
use crate::helpers::queue_wrapper::QueueWrapper;
use crate::paths::arena_wf;
use crate::paths::lemma_path_ok_push;
use crate::paths::lemma_path_walk;
use crate::paths::lemma_str_of_push;
use crate::paths::lemma_walk_append;
use crate::paths::lemma_walk_push;
use crate::paths::path_last;
use crate::paths::path_ok;
use crate::paths::str_of;
use crate::paths::walk;
use crate::ranking::lemma_rank_total;
use crate::ranking::lemma_rank_trans;
use crate::ranking::rank_geq;
use crate::ranking::rank_geq_exec;
use crate::text::chars_of_str;
use crate::text::chars_to_string;
use crate::trie_node::TrieNode;
use crate::trie_node::TrieNodeType;
use crate::trie_node::child_in;
use crate::trie_node::lemma_child_in_position;

verus! {

/// A prefix of a shorter take is a prefix of a longer one.
proof fn lemma_prefix_take(w: Seq<char>, v: Seq<char>, m: int, n: int)
    requires
        0 <= m <= n <= w.len(),
        v.is_prefix_of(w.take(m)),
    ensures
        v.is_prefix_of(w.take(n)),
{
    assert forall|q: int| 0 <= q < v.len() implies v[q] == w.take(n).subrange(
        0,
        v.len() as int,
    )[q] by {
        assert(v[q] == w.take(m).subrange(0, v.len() as int)[q]);
    };
    assert(v =~= w.take(n).subrange(0, v.len() as int));
}

/// The larger of two scores.
pub open spec fn max_score(a: i64, b: i64) -> i64 {
    if a >= b {
        a
    } else {
        b
    }
}

/// What one insertion of `w` at score `s` does to a trie: `w` is a word of
/// `t1` at score `s`, the paths of `w`'s prefixes exist, every aggregate
/// bound on `w`'s nonempty prefixes is raised to at least `s` (a fresh node
/// starts from zero), and every other path, word, score and bound is
/// untouched.
pub open spec fn insert_effect(t0: Trie, t1: Trie, w: Seq<char>, s: i64) -> bool {
    &&& forall|v: Seq<char>|
        #![trigger t1.has_path(v)]
        #![trigger t0.has_path(v)]
        t1.has_path(v) <==> t0.has_path(v) || v.is_prefix_of(w)
    &&& forall|v: Seq<char>|
        #![trigger t1.is_word(v)]
        #![trigger t0.is_word(v)]
        t1.is_word(v) <==> t0.is_word(v) || v == w
    &&& t1.score_of(w) == s
    &&& forall|v: Seq<char>|
        #![trigger t1.score_of(v)]
        #![trigger t0.score_of(v)]
        v != w && t0.is_word(v) ==> t1.score_of(v) == t0.score_of(v)
    &&& forall|v: Seq<char>|
        #![trigger t1.bound_of(v)]
        v.is_prefix_of(w) && v.len() >= 1 ==> t1.bound_of(v) == max_score(
            if t0.has_path(v) {
                t0.bound_of(v)
            } else {
                0
            },
            s,
        )
    &&& forall|v: Seq<char>|
        #![trigger t0.bound_of(v)]
        t0.has_path(v) && !(v.is_prefix_of(w) && v.len() >= 1) ==> t1.bound_of(v)
            == t0.bound_of(v)
}

/// A ranked prefix-search index over scored words.
pub struct Trie {
    nodes: Vec<TrieNode>,
}

impl View for Trie {
    type V = Map<Seq<char>, i64>;

    /// The scored dictionary the trie represents: each word it holds,
    /// mapped to that word's score.
    closed spec fn view(&self) -> Map<Seq<char>, i64> {
        Map::new(|v: Seq<char>| self.is_word(v), |v: Seq<char>| self.score_of(v))
    }
}

impl Trie {
    /// The structural invariant of the arena.
    pub closed spec fn wf(self) -> bool {
        arena_wf(self.nodes@)
    }

    /// Whether the characters of `v` name a chain of nodes from the root.
    pub closed spec fn has_path(self, v: Seq<char>) -> bool {
        walk(self.nodes@, 0, v) is Some
    }

    /// Whether `v` is a word of the trie: its path exists and ends at a
    /// `Final` node.
    pub closed spec fn is_word(self, v: Seq<char>) -> bool {
        &&& walk(self.nodes@, 0, v) is Some
        &&& self.nodes@[walk(self.nodes@, 0, v)->Some_0].node_type == TrieNodeType::Final
    }

    /// The score of the word `v` (meaningful when `is_word(v)`).
    pub closed spec fn score_of(self, v: Seq<char>) -> i64 {
        self.nodes@[walk(self.nodes@, 0, v)->Some_0].word_score->Some_0
    }

    /// The aggregate bound at the end of path `v` (meaningful when
    /// `has_path(v)`): no word through that node scores higher.
    pub closed spec fn bound_of(self, v: Seq<char>) -> i64 {
        self.nodes@[walk(self.nodes@, 0, v)->Some_0].node_score
    }

    /// Whether `w` is a completion of prefix `p` in this trie: a word that
    /// strictly extends it.
    pub open spec fn completion(self, p: Seq<char>, w: Seq<char>) -> bool {
        self.is_word(w) && p.is_prefix_of(w) && w.len() > p.len()
    }

    /// What a ranked query for prefix `p`, bounded to `k` results (`k == 0`
    /// meaning unbounded), must return: completions of `p` only, pairwise
    /// distinct, best rank first; all of them when unbounded; and when
    /// bounded, at most `k` of them, all of them if fewer than `k` exist,
    /// and only ones ranking no lower than every completion left out.
    pub open spec fn ranked_output_ok(self, p: Seq<char>, k: int, ws: Seq<Seq<char>>) -> bool {
        &&& forall|i: int| 0 <= i < ws.len() ==> self.completion(p, #[trigger] ws[i])
        &&& forall|i: int, j: int|
            #![trigger ws[i], ws[j]]
            0 <= i < j < ws.len() ==> ws[i] != ws[j] && rank_geq(
                ws[i],
                self.score_of(ws[i]),
                ws[j],
                self.score_of(ws[j]),
            )
        &&& (k == 0 ==> forall|w: Seq<char>| #[trigger] self.completion(p, w) ==> ws.contains(w))
        &&& (k > 0 ==> ws.len() <= k)
        &&& (k > 0 ==> ws.len() == k || (forall|w: Seq<char>|
            #[trigger] self.completion(p, w) ==> ws.contains(w)))
        &&& (k > 0 ==> forall|w: Seq<char>, i: int|
            #![trigger ws[i], self.completion(p, w)]
            self.completion(p, w) && !ws.contains(w) && 0 <= i < ws.len() ==> rank_geq(
                ws[i],
                self.score_of(ws[i]),
                w,
                self.score_of(w),
            ))
    }

    /// Every nonempty path extends to at least one word: the trie grows
    /// only along insertions, so it holds no dead branches.
    pub open spec fn no_dead_branches(self) -> bool {
        forall|v: Seq<char>|
            #[trigger] self.has_path(v) && v.len() > 0 ==> exists|u: Seq<char>|
                self.is_word(u) && v.is_prefix_of(u)
    }

    /// An empty trie: one root node, no words, no paths but the empty one.
    pub fn new() -> (t: Trie)
        ensures
            t.wf(),
            t.no_dead_branches(),
            t@ == Map::<Seq<char>, i64>::empty(),
            forall|v: Seq<char>| !(#[trigger] t.is_word(v)),
            forall|v: Seq<char>| #[trigger] t.has_path(v) <==> v.len() == 0,
    {
        let mut nodes: Vec<TrieNode> = Vec::new();
        nodes.push(TrieNode::new(None));
        let t = Trie { nodes };
        proof {
            let ns = t.nodes@;
            assert(ns.len() == 1);
            assert forall|i: int| 0 <= i < ns.len() implies #[trigger]
            crate::paths::node_wf(ns, i) by {
                assert(ns[i].children@.len() == 0);
            };
            assert(arena_wf(ns));
            assert forall|v: Seq<char>| #[trigger] walk(ns, 0, v) is Some implies v.len() == 0 by {
                if v.len() > 0 {
                    crate::trie_node::lemma_child_in_absent(ns[0].children@, v[0]);
                }
            };
            assert forall|v: Seq<char>| !(#[trigger] t.is_word(v)) by {
                if v.len() == 0 {
                    assert(walk(ns, 0, v) == Some(0int));
                }
            };
            assert(t@ =~= Map::<Seq<char>, i64>::empty());
        }
        t
    }

    /// Walk the characters of `w` from the root, collecting the arena
    /// indices visited, or report that the path breaks off.
    fn walk_path(&self, w: &Vec<char>) -> (r: Option<Vec<usize>>)
        requires
            self.wf(),
        ensures
            match r {
                Some(p) => {
                    &&& path_ok(self.nodes@, p@)
                    &&& str_of(self.nodes@, p@) == w@
                    &&& p@.len() == w@.len()
                    &&& walk(self.nodes@, 0, w@) == Some(path_last(p@))
                },
                None => walk(self.nodes@, 0, w@) is None,
            },
    {
        let ghost ns = self.nodes@;
        let mut p: Vec<usize> = Vec::new();
        let mut cur: usize = 0;
        let mut i: usize = 0;
        proof {
            assert(str_of(ns, p@) =~= w@.take(0));
        }
        while i < w.len()
            invariant
                i <= w@.len(),
                p@.len() == i,
                path_ok(ns, p@),
                str_of(ns, p@) == w@.take(i as int),
                (cur as int) == path_last(p@),
                (cur as int) < ns.len(),
                walk(ns, 0, w@.take(i as int)) == Some(cur as int),
            decreases w@.len() - i,
        {
            let c = w[i];
            match self.nodes[cur].find_child(c) {
                Some(j) => {
                    proof {
                        lemma_child_in_position(ns[cur as int].children@, c);
                        assert(crate::paths::node_wf(ns, cur as int));
                        assert((j as int) < ns.len());
                        assert(ns[j as int].value == Some(c));
                        lemma_path_ok_push(ns, p@, j, c);
                        lemma_str_of_push(ns, p@, j);
                        assert(w@.take((i + 1) as int) =~= w@.take(i as int).push(c));
                        lemma_walk_push(ns, 0, w@.take(i as int), c);
                        assert(walk(ns, 0, w@.take((i + 1) as int)) == Some(j as int));
                    }
                    p.push(j);
                    cur = j;
                },
                None => {
                    proof {
                        lemma_walk_append(ns, 0, w@.take(i as int), w@.skip(i as int));
                        assert(w@.take(i as int) + w@.skip(i as int) =~= w@);
                        assert(w@.skip(i as int)[0] == w@[i as int]);
                        assert(walk(ns, 0, w@) is None);
                    }
                    return None;
                },
            }
            i = i + 1;
        }
        proof {
            assert(w@.take(w@.len() as int) =~= w@);
        }
        Some(p)
    }

    /// Descend along `w`'s characters, creating missing nodes, raising the
    /// aggregate bound of every node on the path to at least `score`, and
    /// finally marking the word's node `Final` with `word_score = score`.
    #[verifier::rlimit(100)]
    #[verifier::spinoff_prover]
    fn insert_core(&mut self, w: &Vec<char>, score: i64)
        requires
            old(self).wf(),
        ensures
            final(self).wf(),
            insert_effect(*old(self), *final(self), w@, score),
    {
        let ghost t0 = *old(self);
        let ghost ns0 = old(self).nodes@;
        let mut cur: usize = 0;
        let mut i: usize = 0;
        proof {
            assert(w@.take(0) =~= Seq::<char>::empty());
        }
        while i < w.len()
            invariant
                i <= w@.len(),
                arena_wf(self.nodes@),
                self.nodes@.len() >= ns0.len(),
                (cur as int) < self.nodes@.len(),
                walk(self.nodes@, 0, w@.take(i as int)) == Some(cur as int),
                i == 0 ==> cur == 0,
                i >= 1 ==> cur != 0 && self.nodes@[cur as int].node_score >= score,
                // how walks relate to the arena as it stood before this insertion
                forall|v: Seq<char>|
                    #![trigger walk(self.nodes@, 0, v)]
                    #![trigger walk(ns0, 0, v)]
                    walk(self.nodes@, 0, v) == walk(ns0, 0, v) || (walk(ns0, 0, v) is None
                        && v.is_prefix_of(w@.take(i as int)) && walk(self.nodes@, 0, v) is Some),
                forall|v: Seq<char>|
                    #![trigger walk(self.nodes@, 0, v)]
                    walk(self.nodes@, 0, v) is Some && walk(ns0, 0, v) is None ==> walk(
                        self.nodes@,
                        0,
                        v,
                    )->Some_0 >= ns0.len(),
                // nodes that already existed: everything but the bound kept
                forall|idx: int|
                    #![trigger self.nodes@[idx]]
                    0 <= idx < ns0.len() ==> self.nodes@[idx].value == ns0[idx].value
                        && self.nodes@[idx].node_type == ns0[idx].node_type
                        && self.nodes@[idx].word_score == ns0[idx].word_score,
                // nodes created by this insertion
                forall|idx: int|
                    #![trigger self.nodes@[idx]]
                    ns0.len() <= idx < self.nodes@.len() ==> self.nodes@[idx].node_type
                        == TrieNodeType::Intermediate && self.nodes@[idx].word_score is None
                        && self.nodes@[idx].node_score == max_score(0, score),
                // bounds raised along the walked path
                forall|m: int|
                    #![trigger w@.take(m)]
                    1 <= m <= i ==> walk(self.nodes@, 0, w@.take(m)) is Some && self.nodes@[walk(
                        self.nodes@,
                        0,
                        w@.take(m),
                    )->Some_0].node_score == max_score(
                        if walk(ns0, 0, w@.take(m)) is Some {
                            ns0[walk(ns0, 0, w@.take(m))->Some_0].node_score
                        } else {
                            0
                        },
                        score,
                    ),
                // bounds elsewhere untouched
                forall|v: Seq<char>|
                    #![trigger walk(ns0, 0, v)]
                    walk(ns0, 0, v) is Some && !(v.is_prefix_of(w@.take(i as int)) && v.len() >= 1)
                        ==> self.nodes@[walk(ns0, 0, v)->Some_0].node_score == ns0[walk(
                        ns0,
                        0,
                        v,
                    )->Some_0].node_score,
            decreases w@.len() - i,
        {
            let ghost ns_pre = self.nodes@;
            let c = w[i];
            proof {
                assert(w@.take((i + 1) as int) =~= w@.take(i as int).push(c));
            }
            match self.nodes[cur].find_child(c) {
                Some(j) => {
                    proof {
                        lemma_child_in_position(ns_pre[cur as int].children@, c);
                        assert(crate::paths::node_wf(ns_pre, cur as int));
                        assert((j as int) < ns_pre.len());
                        assert((cur as int) < j as int);
                        lemma_walk_push(ns_pre, 0, w@.take(i as int), c);
                        assert(walk(ns_pre, 0, w@.take((i + 1) as int)) == Some(j as int));
                    }
                    let old_bound = self.nodes[j].node_score;
                    let new_bound = if old_bound >= score {
                        old_bound
                    } else {
                        score
                    };
                    self.nodes[j].node_score = new_bound;
                    proof {
                        let ns_new = self.nodes@;
                        let k0 = choose|k: int|
                            0 <= k < ns_pre[cur as int].children@.len()
                                && ns_pre[cur as int].children@[k] == (c, j);
                        assert((ns_pre[cur as int].children@[k0]).1 == j);
                        crate::paths::lemma_update_score_wf(
                            ns_pre,
                            ns_new,
                            j as int,
                            cur as int,
                        );
                        assert(walk(ns_new, 0, w@.take((i + 1) as int)) == Some(j as int));
                        // walk relation: unchanged this step
                        assert forall|v: Seq<char>|
                            walk(ns_new, 0, v) == walk(ns_pre, 0, v) by {};
                        // prefixes of the longer walked path
                        assert forall|v: Seq<char>|
                            v.is_prefix_of(w@.take(i as int)) implies v.is_prefix_of(
                            w@.take((i + 1) as int),
                        ) by {
                            lemma_prefix_take(w@, v, i as int, i + 1);
                        };
                        // raised bounds, one string at a time
                        assert forall|m: int| #![trigger w@.take(m)] 1 <= m <= i + 1 implies walk(
                            ns_new,
                            0,
                            w@.take(m),
                        ) is Some && ns_new[walk(ns_new, 0, w@.take(m))->Some_0].node_score
                            == max_score(
                            if walk(ns0, 0, w@.take(m)) is Some {
                                ns0[walk(ns0, 0, w@.take(m))->Some_0].node_score
                            } else {
                                0
                            },
                            score,
                        ) by {
                            if m <= i {
                                let idx = walk(ns_pre, 0, w@.take(m))->Some_0;
                                crate::paths::lemma_walk_bounds(ns_pre, 0, w@.take(m));
                                if idx == j as int {
                                    crate::paths::lemma_walk_unique(
                                        ns_pre,
                                        w@.take(m),
                                        w@.take((i + 1) as int),
                                    );
                                    assert(false);
                                }
                            } else {
                                // m == i + 1: the node just raised
                                if walk(ns0, 0, w@.take(m)) is Some {
                                    assert(walk(ns_pre, 0, w@.take(m)) == walk(
                                        ns0,
                                        0,
                                        w@.take(m),
                                    ));
                                    assert(!(w@.take(m).is_prefix_of(w@.take(i as int))));
                                    assert(ns_pre[j as int].node_score == ns0[j as int].node_score);
                                } else {
                                    assert((j as int) >= ns0.len());
                                    assert(ns_pre[j as int].node_score == max_score(0, score));
                                }
                            }
                        };
                        // bounds elsewhere untouched
                        assert forall|v: Seq<char>|
                            walk(ns0, 0, v) is Some && !(v.is_prefix_of(w@.take((i + 1) as int))
                                && v.len() >= 1) implies ns_new[walk(ns0, 0, v)->Some_0].node_score
                            == ns0[walk(ns0, 0, v)->Some_0].node_score by {
                            assert(!(v.is_prefix_of(w@.take(i as int)) && v.len() >= 1)) by {
                                if v.is_prefix_of(w@.take(i as int)) && v.len() >= 1 {
                                    lemma_prefix_take(w@, v, i as int, i + 1);
                                }
                            };
                            let idx = walk(ns0, 0, v)->Some_0;
                            assert(walk(ns_pre, 0, v) == walk(ns0, 0, v));
                            crate::paths::lemma_walk_bounds(ns_pre, 0, v);
                            if idx == j as int {
                                crate::paths::lemma_walk_unique(
                                    ns_pre,
                                    v,
                                    w@.take((i + 1) as int),
                                );
                                assert(v.is_prefix_of(w@.take((i + 1) as int)));
                                assert(false);
                            }
                        };
                    }
                    cur = j;
                },
                None => {
                    let fresh = self.nodes.len();
                    let mut node = TrieNode::new(Some(c));
                    node.node_score = if score >= 0 {
                        score
                    } else {
                        0
                    };
                    self.nodes.push(node);
                    self.nodes[cur].children.push((c, fresh));
                    proof {
                        let ns_new = self.nodes@;
                        assert(crate::paths::extends_by(ns_pre, ns_new, cur as int, c, fresh));
                        assert(crate::paths::node_wf(ns_pre, cur as int));
                        assert(ns_pre[cur as int].node_score >= 0);
                        crate::paths::lemma_extend_wf(
                            ns_pre,
                            ns_new,
                            cur as int,
                            c,
                            fresh,
                            w@.take(i as int),
                        );
                        assert(walk(ns_new, 0, w@.take((i + 1) as int)) == Some(fresh as int));
                        lemma_walk_push(ns_pre, 0, w@.take(i as int), c);
                        assert(walk(ns_pre, 0, w@.take((i + 1) as int)) is None);
                        assert(walk(ns0, 0, w@.take((i + 1) as int)) is None);
                        assert forall|v: Seq<char>|
                            v.is_prefix_of(w@.take(i as int)) implies v.is_prefix_of(
                            w@.take((i + 1) as int),
                        ) by {
                            lemma_prefix_take(w@, v, i as int, i + 1);
                        };
                        assert(w@.take((i + 1) as int).is_prefix_of(w@.take((i + 1) as int)));
                        // raised bounds
                        assert forall|m: int| #![trigger w@.take(m)] 1 <= m <= i + 1 implies walk(
                            ns_new,
                            0,
                            w@.take(m),
                        ) is Some && ns_new[walk(ns_new, 0, w@.take(m))->Some_0].node_score
                            == max_score(
                            if walk(ns0, 0, w@.take(m)) is Some {
                                ns0[walk(ns0, 0, w@.take(m))->Some_0].node_score
                            } else {
                                0
                            },
                            score,
                        ) by {
                            if m <= i {
                                assert(w@.take(m) != w@.take((i + 1) as int));
                                assert(walk(ns_new, 0, w@.take(m)) == walk(ns_pre, 0, w@.take(m)));
                                let idx = walk(ns_pre, 0, w@.take(m))->Some_0;
                                crate::paths::lemma_walk_bounds(ns_pre, 0, w@.take(m));
                                assert(idx < ns_new.len() - 1);
                                assert(ns_new[idx].node_score == ns_pre[idx].node_score);
                            } else {
                                assert(walk(ns_new, 0, w@.take(m)) == Some(fresh as int));
                                assert(ns_new[fresh as int].node_score == max_score(0, score));
                            }
                        };
                        // bounds elsewhere untouched
                        assert forall|v: Seq<char>|
                            walk(ns0, 0, v) is Some && !(v.is_prefix_of(w@.take((i + 1) as int))
                                && v.len() >= 1) implies ns_new[walk(ns0, 0, v)->Some_0].node_score
                            == ns0[walk(ns0, 0, v)->Some_0].node_score by {
                            assert(!(v.is_prefix_of(w@.take(i as int)) && v.len() >= 1)) by {
                                if v.is_prefix_of(w@.take(i as int)) && v.len() >= 1 {
                                    lemma_prefix_take(w@, v, i as int, i + 1);
                                }
                            };
                            let idx = walk(ns0, 0, v)->Some_0;
                            assert(walk(ns_pre, 0, v) == walk(ns0, 0, v));
                            crate::paths::lemma_walk_bounds(ns_pre, 0, v);
                            assert(idx < ns_pre.len());
                            assert(ns_new[idx].node_score == ns_pre[idx].node_score);
                        };
                        // walk relation composes
                        assert forall|v: Seq<char>|
                            #![trigger walk(ns_new, 0, v)]
                            #![trigger walk(ns0, 0, v)]
                            walk(ns_new, 0, v) == walk(ns0, 0, v) || (walk(ns0, 0, v) is None
                                && v.is_prefix_of(w@.take((i + 1) as int)) && walk(ns_new, 0, v)
                                is Some) by {
                            if v == w@.take((i + 1) as int) {
                            } else {
                                assert(walk(ns_new, 0, v) == walk(ns_pre, 0, v));
                            }
                        };
                        assert forall|v: Seq<char>|
                            #![trigger walk(ns_new, 0, v)]
                            walk(ns_new, 0, v) is Some && walk(ns0, 0, v) is None implies walk(
                            ns_new,
                            0,
                            v,
                        )->Some_0 >= ns0.len() by {
                            if v == w@.take((i + 1) as int) {
                                assert(walk(ns_new, 0, v)->Some_0 == fresh as int);
                            } else {
                                assert(walk(ns_new, 0, v) == walk(ns_pre, 0, v));
                            }
                        };
                    }
                    cur = fresh;
                },
            }
            i = i + 1;
        }
        // mark the end of the word
        proof {
            assert(w@.take(w@.len() as int) =~= w@);
        }
        let ghost ns_loop = self.nodes@;
        let t: usize = cur;
        self.nodes[t].node_type = TrieNodeType::Final;
        self.nodes[t].word_score = Some(score);
        proof {
            let ns_fin = self.nodes@;
            crate::paths::lemma_set_final_wf(ns_loop, ns_fin, t as int, score);
            let t1 = *self;
            assert(t1.wf());
            // paths
            assert forall|v: Seq<char>|
                #![trigger t1.has_path(v)]
                #![trigger t0.has_path(v)]
                t1.has_path(v) <==> t0.has_path(v) || v.is_prefix_of(w@) by {
                assert(walk(ns_fin, 0, v) == walk(ns_loop, 0, v));
                if v.is_prefix_of(w@) {
                    crate::paths::lemma_walk_prefix(ns_loop, w@, v);
                }
            };
            // words
            assert forall|v: Seq<char>|
                #![trigger t1.is_word(v)]
                #![trigger t0.is_word(v)]
                t1.is_word(v) <==> t0.is_word(v) || v == w@ by {
                assert(walk(ns_fin, 0, v) == walk(ns_loop, 0, v));
                if v == w@ {
                    assert(walk(ns_fin, 0, v) == Some(t as int));
                    assert(t1.is_word(v));
                } else if walk(ns_loop, 0, v) is Some {
                    let jv = walk(ns_loop, 0, v)->Some_0;
                    crate::paths::lemma_walk_bounds(ns_loop, 0, v);
                    if jv == t as int {
                        crate::paths::lemma_walk_unique(ns_loop, v, w@);
                        assert(false);
                    }
                    assert(ns_fin[jv] == ns_loop[jv]);
                    if walk(ns0, 0, v) is Some {
                        assert(walk(ns0, 0, v) == Some(jv));
                        crate::paths::lemma_walk_bounds(ns0, 0, v);
                        assert(ns_loop[jv].node_type == ns0[jv].node_type);
                    } else {
                        assert(jv >= ns0.len());
                        assert(ns_loop[jv].node_type == TrieNodeType::Intermediate);
                    }
                }
            };
            // the word's own score
            assert(t1.score_of(w@) == score) by {
                assert(walk(ns_fin, 0, w@) == Some(t as int));
            };
            // other words' scores
            assert forall|v: Seq<char>|
                #![trigger t1.score_of(v)]
                #![trigger t0.score_of(v)]
                v != w@ && t0.is_word(v) implies t1.score_of(v) == t0.score_of(v) by {
                let jv = walk(ns0, 0, v)->Some_0;
                crate::paths::lemma_walk_bounds(ns0, 0, v);
                assert(walk(ns_loop, 0, v) == walk(ns0, 0, v));
                assert(walk(ns_fin, 0, v) == Some(jv));
                if jv == t as int {
                    crate::paths::lemma_walk_unique(ns_loop, v, w@);
                    assert(false);
                }
                assert(ns_fin[jv] == ns_loop[jv]);
                assert(ns_loop[jv].word_score == ns0[jv].word_score);
            };
            // bounds along the inserted word
            assert forall|v: Seq<char>|
                #![trigger t1.bound_of(v)]
                v.is_prefix_of(w@) && v.len() >= 1 implies t1.bound_of(v) == max_score(
                if t0.has_path(v) {
                    t0.bound_of(v)
                } else {
                    0
                },
                score,
            ) by {
                let m = v.len() as int;
                assert(v =~= w@.take(m));
                assert(walk(ns_fin, 0, v) == walk(ns_loop, 0, v));
                let jv = walk(ns_loop, 0, w@.take(m))->Some_0;
                crate::paths::lemma_walk_bounds(ns_loop, 0, w@.take(m));
                assert(ns_fin[jv].node_score == ns_loop[jv].node_score);
            };
            // bounds elsewhere
            assert forall|v: Seq<char>|
                #![trigger t0.bound_of(v)]
                t0.has_path(v) && !(v.is_prefix_of(w@) && v.len() >= 1) implies t1.bound_of(v)
                == t0.bound_of(v) by {
                let jv = walk(ns0, 0, v)->Some_0;
                crate::paths::lemma_walk_bounds(ns0, 0, v);
                assert(walk(ns_loop, 0, v) == walk(ns0, 0, v));
                assert(walk(ns_fin, 0, v) == Some(jv));
                assert(ns_fin[jv].node_score == ns_loop[jv].node_score);
            };
            assert(insert_effect(t0, t1, w@, score));
        }
    }

    /// All completions of `prefix` — the words that strictly extend it —
    /// ordered best rank first (higher score first, ties by lexicographic
    /// order); absent when the prefix itself names no path of the trie, and
    /// present but empty when it does and no word extends it.
    pub fn get_ranked_results(&self, prefix: String) -> (r: Option<Vec<String>>)
        requires
            self.wf(),
        ensures
            r is Some <==> self.has_path(prefix@),
            r matches Some(rs) ==> self.ranked_output_ok(prefix@, 0, rs.deep_view()),
    {
        self.get_k_ranked_results(prefix, 0)
    }

    /// The best `k` completions of `prefix`, ordered best rank first, with
    /// `k == 0` meaning all of them; absent when the prefix itself names no
    /// path of the trie.
    pub fn get_k_ranked_results(&self, prefix: String, k: usize) -> (r: Option<Vec<String>>)
        requires
            self.wf(),
        ensures
            r is Some <==> self.has_path(prefix@),
            r matches Some(rs) ==> self.ranked_output_ok(prefix@, k as int, rs.deep_view()),
    {
        let w = chars_of_str(prefix.as_str());
        match self.ranked_core(&w, k) {
            Some(found) => {
                let mut out: Vec<String> = Vec::new();
                let mut i: usize = 0;
                while i < found.len()
                    invariant
                        i <= found@.len(),
                        out@.len() == i,
                        forall|m: int| 0 <= m < i ==> (#[trigger] out@[m])@ == found@[m].0@,
                    decreases found@.len() - i,
                {
                    let s = chars_to_string(&found[i].0);
                    out.push(s);
                    i = i + 1;
                }
                proof {
                    assert(out.deep_view() =~= found_words(found@));
                }
                Some(out)
            },
            None => None,
        }
    }

    /// Insert `word` with the given score: its path is created where
    /// missing, every aggregate bound along it is raised to at least
    /// `score`, and the word's node ends `Final` carrying `score` (a
    /// reinsertion overwrites the word's score, so the latest wins).
    pub fn insert_with_score(&mut self, word: String, score: i64)
        requires
            old(self).wf(),
        ensures
            final(self).wf(),
            insert_effect(*old(self), *final(self), word@, score),
            final(self)@ == old(self)@.insert(word@, score),
            old(self).no_dead_branches() ==> final(self).no_dead_branches(),
    {
        let w = chars_of_str(word.as_str());
        self.insert_core(&w, score);
        proof {
            lemma_insert_view(*old(self), *self, word@, score);
            if old(self).no_dead_branches() {
                lemma_insert_keeps_no_dead(*old(self), *self, word@, score);
            }
        }
    }

    /// Insert `word` without a score: exactly `insert_with_score` at score
    /// zero.
    pub fn insert(&mut self, word: String)
        requires
            old(self).wf(),
        ensures
            final(self).wf(),
            insert_effect(*old(self), *final(self), word@, 0),
            final(self)@ == old(self)@.insert(word@, 0),
            old(self).no_dead_branches() ==> final(self).no_dead_branches(),
    {
        self.insert_with_score(word, 0);
    }

    /// Best-first bounded retrieval: pop the frontier cursor with the
    /// highest aggregate bound, emit its word when one ends there, expand
    /// its children, and stop early once at least `k` results are in hand
    /// and no remaining bound can displace the best `k` of them.
    #[verifier::rlimit(100)]
    #[verifier::spinoff_prover]
    #[verifier::loop_isolation(true)]
    fn ranked_core(&self, w: &Vec<char>, k: usize) -> (r: Option<Vec<(Vec<char>, i64)>>)
        requires
            self.wf(),
        ensures
            match r {
                Some(found) => self.has_path(w@) && self.ranked_output_ok(
                    w@,
                    k as int,
                    found_words(found@),
                ),
                None => !self.has_path(w@),
            },
    {
        let ghost ns = self.nodes@;
        let ghost p = w@;
        let path = match self.walk_path(w) {
            Some(path) => path,
            None => {
                return None;
            },
        };
        let anchor: usize = if path.len() == 0 {
            0
        } else {
            path[path.len() - 1]
        };
        proof {
            assert((anchor as int) == path_last(path@));
        }
        let base = QueueWrapper { nodes: path };
        let mut frontier: Vec<QueueWrapper> = Vec::new();
        let nk = self.nodes[anchor].children.len();
        let mut ci: usize = 0;
        while ci < nk
            invariant
                arena_wf(ns),
                ns == self.nodes@,
                path_ok(ns, base.nodes@),
                str_of(ns, base.nodes@) == p,
                (anchor as int) == path_last(base.nodes@),
                0 <= (anchor as int) < ns.len(),
                ci <= nk,
                nk == ns[anchor as int].children@.len(),
                frontier@.len() == ci,
                forall|fi: int|
                    0 <= fi < ci ==> (#[trigger] frontier@[fi]).nodes@ == base.nodes@.push(
                        ns[anchor as int].children@[fi].1,
                    ),
            decreases nk - ci,
        {
            let child = self.nodes[anchor].children[ci].1;
            frontier.push(base.new_with_node(child));
            ci = ci + 1;
        }
        let mut found: Vec<(Vec<char>, i64)> = Vec::new();
        let ghost mut popped: Set<int> = Set::empty();
        proof {
            // the seeded frontier satisfies the traversal invariants
            assert forall|fi: int| 0 <= fi < frontier@.len() implies path_ok(
                ns,
                (#[trigger] frontier@[fi]).nodes@,
            ) && str_of(ns, frontier@[fi].nodes@) == p.push(ns[anchor as int].children@[fi].0)
                && frontier@[fi].nodes@.len() > p.len() && p.is_prefix_of(
                str_of(ns, frontier@[fi].nodes@),
            ) by {
                crate::paths::lemma_path_push(ns, path@, fi);
                lemma_prefix_refl(p);
                lemma_prefix_extend(p, p, ns[anchor as int].children@[fi].0);
            };
            assert forall|fi: int, fj: int|
                #![trigger frontier@[fi], frontier@[fj]]
                0 <= fi < frontier@.len() && 0 <= fj < frontier@.len() && fi != fj implies !str_of(
                ns,
                frontier@[fi].nodes@,
            ).is_prefix_of(str_of(ns, frontier@[fj].nodes@)) by {
                let si = str_of(ns, frontier@[fi].nodes@);
                let sj = str_of(ns, frontier@[fj].nodes@);
                assert(crate::paths::node_wf(ns, anchor as int));
                assert(ns[anchor as int].children@[fi].0 != ns[anchor as int].children@[fj].0);
                if si.is_prefix_of(sj) {
                    assert(si =~= sj);
                    assert(si.last() == sj.last());
                    assert(false);
                }
            };
            assert forall|wd: Seq<char>|
                #[trigger] self.completion(p, wd) implies in_found(found@, wd) || exists|fj: int|
                0 <= fj < frontier@.len() && (#[trigger] str_of(
                    ns,
                    frontier@[fj].nodes@,
                )).is_prefix_of(wd) by {
                lemma_step_under(ns, path@, wd);
                let kk = choose|kk: int|
                    0 <= kk < ns[anchor as int].children@.len() && (p.push(
                        (#[trigger] ns[anchor as int].children@[kk]).0,
                    )).is_prefix_of(wd);
                assert(str_of(ns, frontier@[kk].nodes@).is_prefix_of(wd));
            };
        }
        while frontier.len() > 0
            invariant_except_break
                forall|fi: int|
                    0 <= fi < frontier@.len() ==> path_ok(ns, (#[trigger] frontier@[fi]).nodes@),
                forall|fi: int|
                    0 <= fi < frontier@.len() ==> (#[trigger] frontier@[fi]).nodes@.len() > p.len()
                        && p.is_prefix_of(str_of(ns, frontier@[fi].nodes@)),
                forall|fi: int, fj: int|
                    #![trigger frontier@[fi], frontier@[fj]]
                    0 <= fi < frontier@.len() && 0 <= fj < frontier@.len() && fi != fj
                        ==> !str_of(ns, frontier@[fi].nodes@).is_prefix_of(
                        str_of(ns, frontier@[fj].nodes@),
                    ),
                forall|i: int, fj: int|
                    #![trigger found@[i], frontier@[fj]]
                    0 <= i < found@.len() && 0 <= fj < frontier@.len() ==> !str_of(
                        ns,
                        frontier@[fj].nodes@,
                    ).is_prefix_of(found@[i].0@),
                forall|wd: Seq<char>|
                    #[trigger] self.completion(p, wd) ==> in_found(found@, wd) || exists|fj: int|
                        0 <= fj < frontier@.len() && (#[trigger] str_of(
                            ns,
                            frontier@[fj].nodes@,
                        )).is_prefix_of(wd),
                forall|fj: int, nd: int|
                    0 <= fj < frontier@.len() && #[trigger] crate::paths::desc(
                        ns,
                        path_last(frontier@[fj].nodes@),
                        nd,
                    ) ==> !popped.contains(nd),
                popped.finite(),
                popped.subset_of(vstd::set_lib::set_int_range(0, ns.len() as int)),
                popped.len() <= ns.len(),
            invariant
                arena_wf(ns),
                ns == self.nodes@,
                forall|i: int|
                    0 <= i < found@.len() ==> self.completion(p, (#[trigger] found@[i]).0@)
                        && found@[i].1 == self.score_of(found@[i].0@),
                forall|i: int, j: int|
                    #![trigger found@[i], found@[j]]
                    0 <= i < j < found@.len() ==> found@[i].0@ != found@[j].0@,
                found_sorted(found@),
            ensures
                forall|i: int|
                    0 <= i < found@.len() ==> self.completion(p, (#[trigger] found@[i]).0@)
                        && found@[i].1 == self.score_of(found@[i].0@),
                forall|i: int, j: int|
                    #![trigger found@[i], found@[j]]
                    0 <= i < j < found@.len() ==> found@[i].0@ != found@[j].0@,
                found_sorted(found@),
                forall|wd: Seq<char>|
                    #[trigger] self.completion(p, wd) && !in_found(found@, wd) ==> k != 0
                        && found@.len() >= k as int && self.score_of(wd) < found@[k - 1].1,
            decreases ns.len() - popped.len(),
        {
            let ghost fr0 = frontier@;
            proof {
                assert forall|fi: int|
                    0 <= fi < fr0.len() implies (#[trigger] fr0[fi].nodes@).len() > 0 && (
                fr0[fi].nodes@.last() as int) < ns.len() by {
                    assert(path_ok(ns, fr0[fi].nodes@));
                    assert(fr0[fi].nodes@.len() > p.len());
                };
            }
            let e = pop_max(&mut frontier, &self.nodes);
            let ghost idx = choose|idx: int|
                0 <= idx < fr0.len() && e == fr0[idx] && frontier@ == fr0.remove(idx);
            let ghost tip = path_last(e.nodes@);
            let ghost se = str_of(ns, e.nodes@);
            proof {
                assert(path_ok(ns, e.nodes@));
                lemma_path_walk(ns, e.nodes@);
                assert(se.len() == e.nodes@.len());
                crate::paths::lemma_walk_bounds(ns, 0, se);
                assert(1 <= tip < ns.len());
                assert(crate::paths::desc(ns, tip, tip)) by {
                    assert(walk(ns, tip, Seq::<char>::empty()) == Some(tip));
                };
                assert(!popped.contains(tip));
                popped = popped.insert(tip);
                vstd::set_lib::lemma_int_range(0, ns.len() as int);
                vstd::set_lib::lemma_len_subset(
                    popped,
                    vstd::set_lib::set_int_range(0, ns.len() as int),
                );
            }
            let bound = e.output_score(&self.nodes);
            if k != 0 && found.len() >= k && bound < found[k - 1].1 {
                proof {
                    assert forall|wd: Seq<char>|
                        #[trigger] self.completion(p, wd) && !in_found(found@, wd) implies k != 0
                        && found@.len() >= k as int && self.score_of(wd) < found@[k - 1].1 by {
                        let fj = choose|fj: int|
                            0 <= fj < fr0.len() && (#[trigger] str_of(
                                ns,
                                fr0[fj].nodes@,
                            )).is_prefix_of(wd);
                        let twd = walk(ns, 0, wd)->Some_0;
                        crate::paths::lemma_walk_bounds(ns, 0, wd);
                        assert(crate::paths::node_wf(ns, twd));
                        assert(ns[twd].word_score is Some);
                        lemma_under_entry_bound(ns, fr0[fj].nodes@, wd);
                        assert(fr0[fj].spec_output_score(ns) == ns[path_last(
                            fr0[fj].nodes@,
                        )].node_score);
                        assert(fr0[fj].spec_output_score(ns) <= e.spec_output_score(ns));
                        assert(self.score_of(wd) <= bound);
                    };
                }
                break;
            }
            let is_final = match e.leaf_type(&self.nodes) {
                Some(TrieNodeType::Final) => true,
                _ => false,
            };
            let ghost fs0 = found@;
            if is_final {
                let ow = e.to_output_wrapper();
                let word = ow.chars(&self.nodes);
                let sc = ow.output_score(&self.nodes);
                proof {
                    assert(crate::paths::node_wf(ns, tip));
                    assert(self.is_word(se));
                    assert(se.len() > p.len());
                    assert(self.completion(p, se));
                    assert(sc == self.score_of(se));
                    assert(!in_found(found@, se)) by {
                        if in_found(found@, se) {
                            let i0 = choose|i0: int|
                                0 <= i0 < found@.len() && (#[trigger] found@[i0]).0@ == se;
                            lemma_prefix_refl(se);
                            assert(!str_of(ns, fr0[idx].nodes@).is_prefix_of(found@[i0].0@));
                            assert(false);
                        }
                    };
                }
                insert_sorted(&mut found, word, sc);
                proof {
                    let fs1 = found@;
                    let pos = choose|pos: int|
                        #![trigger fs0.insert(pos, (word, sc))]
                        0 <= pos <= fs0.len() && fs1 == fs0.insert(pos, (word, sc));
                    assert forall|i: int|
                        0 <= i < fs1.len() implies self.completion(p, (#[trigger] fs1[i]).0@)
                        && fs1[i].1 == self.score_of(fs1[i].0@) by {
                        if i < pos {
                            assert(fs1[i] == fs0[i]);
                        } else if i == pos {
                            assert(fs1[i].0@ == se && fs1[i].1 == sc);
                        } else {
                            assert(fs1[i] == fs0[i - 1]);
                        }
                    };
                    assert forall|i: int, j: int|
                        #![trigger fs1[i], fs1[j]]
                        0 <= i < j < fs1.len() implies fs1[i].0@ != fs1[j].0@ by {
                        if i == pos {
                            assert(fs1[i].0@ == se);
                            assert(fs1[j] == fs0[j - 1]);
                            if fs1[j].0@ == se {
                                assert(in_found(fs0, se));
                            }
                        } else if j == pos {
                            assert(fs1[j].0@ == se);
                            assert(fs1[i] == fs0[i]);
                            if fs1[i].0@ == se {
                                assert(in_found(fs0, se));
                            }
                        } else {
                            let i0: int = if i < pos { i } else { i - 1 };
                            let j0: int = if j < pos { j } else { j - 1 };
                            assert(fs1[i] == fs0[i0]);
                            assert(fs1[j] == fs0[j0]);
                        }
                    };
                    assert forall|wd: Seq<char>|
                        in_found(fs1, wd) implies in_found(fs0, wd) || wd == se by {
                        let i0 = choose|i0: int|
                            0 <= i0 < fs1.len() && (#[trigger] fs1[i0]).0@ == wd;
                        if i0 < pos {
                            assert(fs1[i0] == fs0[i0]);
                        } else if i0 > pos {
                            assert(fs1[i0] == fs0[i0 - 1]);
                        }
                    };
                    assert forall|wd: Seq<char>|
                        in_found(fs0, wd) || wd == se implies in_found(fs1, wd) by {
                        if in_found(fs0, wd) {
                            let i0 = choose|i0: int|
                                0 <= i0 < fs0.len() && (#[trigger] fs0[i0]).0@ == wd;
                            if i0 < pos {
                                assert(fs1[i0] == fs0[i0]);
                                assert(fs1[i0].0@ == wd);
                            } else {
                                assert(fs1[i0 + 1] == fs0[i0]);
                                assert(fs1[i0 + 1].0@ == wd);
                            }
                        } else {
                            assert(fs1[pos].0@ == se);
                        }
                    };
                }
            }
            let last_idx = match e.last() {
                Some(li) => li,
                None => {
                    proof {
                        assert(false);
                    }
                    0
                },
            };
            let ghost fr1 = frontier@;
            let ghost fs1 = found@;
            let nk2 = self.nodes[last_idx].children.len();
            let mut ci2: usize = 0;
            while ci2 < nk2
                invariant
                    ns == self.nodes@,
                    ci2 <= nk2,
                    (last_idx as int) == tip,
                    0 <= tip < ns.len(),
                    nk2 == ns[tip].children@.len(),
                    found@ == fs1,
                    frontier@.len() == fr1.len() + ci2,
                    forall|fi: int| 0 <= fi < fr1.len() ==> #[trigger] frontier@[fi] == fr1[fi],
                    forall|fi: int|
                        fr1.len() <= fi < frontier@.len() ==> (#[trigger] frontier@[fi]).nodes@
                            == e.nodes@.push(ns[tip].children@[fi - fr1.len()].1),
                decreases nk2 - ci2,
            {
                let child = self.nodes[last_idx].children[ci2].1;
                frontier.push(e.new_with_node(child));
                ci2 = ci2 + 1;
            }
            proof {
                let fr2 = frontier@;
                let fs2 = found@;
                // strings and paths of the fresh entries
                assert forall|fi: int|
                    fr1.len() <= fi < fr2.len() implies path_ok(ns, (#[trigger] fr2[fi]).nodes@)
                    && str_of(ns, fr2[fi].nodes@) == se.push(ns[tip].children@[fi - fr1.len()].0)
                    && fr2[fi].nodes@.len() > p.len() && p.is_prefix_of(
                    str_of(ns, fr2[fi].nodes@),
                ) by {
                    crate::paths::lemma_path_push(ns, e.nodes@, fi - fr1.len());
                    lemma_prefix_extend(p, se, ns[tip].children@[fi - fr1.len()].0);
                };
                // old entries keep their facts
                assert forall|fi: int|
                    0 <= fi < fr1.len() implies path_ok(ns, (#[trigger] fr2[fi]).nodes@)
                    && fr2[fi].nodes@.len() > p.len() && p.is_prefix_of(str_of(ns, fr2[fi].nodes@))
                    && !str_of(ns, fr2[fi].nodes@).is_prefix_of(se) && !se.is_prefix_of(
                    str_of(ns, fr2[fi].nodes@),
                ) by {
                    if fi < idx {
                        assert(fr1[fi] == fr0[fi]);
                    } else {
                        assert(fr1[fi] == fr0[fi + 1]);
                    }
                };
                // the traversal invariants, one by one
                assert forall|fi: int, fj: int|
                    #![trigger fr2[fi], fr2[fj]]
                    0 <= fi < fr2.len() && 0 <= fj < fr2.len() && fi != fj implies !str_of(
                    ns,
                    fr2[fi].nodes@,
                ).is_prefix_of(str_of(ns, fr2[fj].nodes@)) by {
                    let si = str_of(ns, fr2[fi].nodes@);
                    let sj = str_of(ns, fr2[fj].nodes@);
                    if fi < fr1.len() && fj < fr1.len() {
                        let gi: int = if fi < idx { fi } else { fi + 1 };
                        let gj: int = if fj < idx { fj } else { fj + 1 };
                        assert(fr1[fi] == fr0[gi]);
                        assert(fr1[fj] == fr0[gj]);
                    } else if fi < fr1.len() {
                        let cj = ns[tip].children@[fj - fr1.len()].0;
                        assert(sj == se.push(cj));
                        if si.is_prefix_of(sj) {
                            if si.len() <= se.len() {
                                assert forall|q: int| 0 <= q < si.len() implies si[q]
                                    == se.subrange(0, si.len() as int)[q] by {
                                    assert(si[q] == sj.subrange(0, si.len() as int)[q]);
                                };
                                assert(si =~= se.subrange(0, si.len() as int));
                                assert(si.is_prefix_of(se));
                                assert(false);
                            } else {
                                assert(si =~= sj);
                                lemma_prefix_refl(se);
                                lemma_prefix_extend(se, se, cj);
                                assert(se.is_prefix_of(si));
                                assert(false);
                            }
                        }
                    } else if fj < fr1.len() {
                        let ci_ = ns[tip].children@[fi - fr1.len()].0;
                        assert(si == se.push(ci_));
                        if si.is_prefix_of(sj) {
                            lemma_prefix_unextend(se, sj, ci_);
                            assert(se.is_prefix_of(sj));
                            assert(false);
                        }
                    } else {
                        let ci_ = ns[tip].children@[fi - fr1.len()].0;
                        let cj = ns[tip].children@[fj - fr1.len()].0;
                        assert(crate::paths::node_wf(ns, tip));
                        assert(ci_ != cj);
                        if si.is_prefix_of(sj) {
                            assert(si =~= sj);
                            assert(si.last() == sj.last());
                            assert(false);
                        }
                    }
                };
                // found words are not below any frontier entry
                assert forall|i: int, fj: int|
                    #![trigger fs2[i], fr2[fj]]
                    0 <= i < fs2.len() && 0 <= fj < fr2.len() implies !str_of(
                    ns,
                    fr2[fj].nodes@,
                ).is_prefix_of(fs2[i].0@) by {
                    let sj = str_of(ns, fr2[fj].nodes@);
                    let fw = fs2[i].0@;
                    if in_found(fs0, fw) {
                        let i0 = choose|i0: int|
                            0 <= i0 < fs0.len() && (#[trigger] fs0[i0]).0@ == fw;
                        if fj < fr1.len() {
                            let gj: int = if fj < idx { fj } else { fj + 1 };
                            assert(fr1[fj] == fr0[gj]);
                            assert(!str_of(ns, fr0[gj].nodes@).is_prefix_of(fs0[i0].0@));
                        } else {
                            let cj = ns[tip].children@[fj - fr1.len()].0;
                            assert(sj == se.push(cj));
                            if sj.is_prefix_of(fw) {
                                lemma_prefix_unextend(se, fw, cj);
                                assert(!str_of(ns, fr0[idx].nodes@).is_prefix_of(fs0[i0].0@));
                                assert(false);
                            }
                        }
                    } else {
                        assert(is_final && fw == se);
                        if fj < fr1.len() {
                            if sj.is_prefix_of(se) {
                                assert(false);
                            }
                        } else {
                            let cj = ns[tip].children@[fj - fr1.len()].0;
                            assert(sj == se.push(cj));
                            if sj.is_prefix_of(se) {
                                assert(sj.len() <= se.len());
                                assert(false);
                            }
                        }
                    }
                };
                // coverage
                assert forall|wd: Seq<char>|
                    #[trigger] self.completion(p, wd) implies in_found(fs2, wd) || exists|fj: int|
                    0 <= fj < fr2.len() && (#[trigger] str_of(ns, fr2[fj].nodes@)).is_prefix_of(
                        wd,
                    ) by {
                    if !in_found(fs2, wd) {
                        if in_found(fs0, wd) {
                            assert(in_found(fs2, wd));
                            assert(false);
                        }
                        let fj = choose|fj: int|
                            0 <= fj < fr0.len() && (#[trigger] str_of(
                                ns,
                                fr0[fj].nodes@,
                            )).is_prefix_of(wd);
                        if fj != idx {
                            let hj: int = if fj < idx { fj } else { fj - 1 };
                            assert(fr2[hj] == fr0[fj]);
                            assert(str_of(ns, fr2[hj].nodes@).is_prefix_of(wd));
                        } else {
                            // below the popped cursor
                            if wd == se {
                                assert(self.is_word(se));
                                assert(ns[tip].node_type == TrieNodeType::Final);
                                assert(crate::paths::node_wf(ns, tip));
                                assert(is_final);
                                assert(in_found(fs2, se));
                                assert(false);
                            } else {
                                assert(se.is_prefix_of(wd));
                                if wd.len() == se.len() {
                                    assert(se =~= wd.subrange(0, se.len() as int));
                                    assert(se =~= wd);
                                    assert(false);
                                }
                                lemma_step_under(ns, e.nodes@, wd);
                                let kk = choose|kk: int|
                                    0 <= kk < ns[tip].children@.len() && (se.push(
                                        (#[trigger] ns[tip].children@[kk]).0,
                                    )).is_prefix_of(wd);
                                assert(str_of(ns, fr2[fr1.len() + kk].nodes@).is_prefix_of(wd));
                            }
                        }
                    }
                };
                // nothing below the frontier has been popped
                assert forall|fj: int, nd: int|
                    0 <= fj < fr2.len() && #[trigger] crate::paths::desc(
                        ns,
                        path_last(fr2[fj].nodes@),
                    nd,
                    ) implies !popped.contains(nd) by {
                    if fj < fr1.len() {
                        let gj: int = if fj < idx { fj } else { fj + 1 };
                        assert(fr1[fj] == fr0[gj]);
                        let tj = path_last(fr0[gj].nodes@);
                        assert(crate::paths::desc(ns, tj, nd));
                        if nd == tip {
                            let s = choose|s: Seq<char>| walk(ns, tj, s) == Some(tip);
                            let sj = str_of(ns, fr0[gj].nodes@);
                            lemma_path_walk(ns, fr0[gj].nodes@);
                            crate::paths::lemma_walk_append(ns, 0, sj, s);
                            assert(walk(ns, 0, sj + s) == Some(tip));
                            crate::paths::lemma_walk_unique(ns, sj + s, se);
                            assert(sj.is_prefix_of(se)) by {
                                assert(sj =~= (sj + s).subrange(0, sj.len() as int));
                            };
                            assert(false);
                        }
                    } else {
                        let kk = fj - fr1.len();
                        let ck = ns[tip].children@[kk].0;
                        let jk = ns[tip].children@[kk].1;
                        assert(path_last(fr2[fj].nodes@) == jk as int);
                        let s = choose|s: Seq<char>| walk(ns, jk as int, s) == Some(nd);
                        assert(crate::paths::node_wf(ns, tip));
                        crate::trie_node::lemma_child_in_distinct(ns[tip].children@, kk);
                        assert(child_in(ns[tip].children@, ck) == Some(jk));
                        let cs = seq![ck] + s;
                        assert(cs[0] == ck);
                        assert(cs.drop_first() =~= s);
                        assert(walk(ns, tip, cs) == Some(nd));
                        assert(crate::paths::desc(ns, tip, nd));
                        crate::paths::lemma_walk_bounds(ns, tip, cs);
                        assert(nd > tip);
                        assert(!popped.remove(tip).contains(nd));
                        assert(!popped.contains(nd) || nd == tip);
                    }
                };
            }
        }
        let ghost fpre = found@;
        if k != 0 && found.len() > k {
            found.truncate(k);
        }
        proof {
            let fs = found@;
            let ws = found_words(fs);
            assert(fs == if k != 0 && fpre.len() > k as int {
                fpre.take(k as int)
            } else {
                fpre
            });
            assert(ws.len() == fs.len());
            assert forall|i: int| 0 <= i < fs.len() implies #[trigger] fs[i] == fpre[i] by {}
            assert forall|i: int| 0 <= i < ws.len() implies self.completion(p, #[trigger] ws[i])
                && ws[i] == fs[i].0@ && fs[i].1 == self.score_of(ws[i]) by {};
            assert forall|i: int, j: int|
                #![trigger ws[i], ws[j]]
                0 <= i < j < ws.len() implies ws[i] != ws[j] && rank_geq(
                ws[i],
                self.score_of(ws[i]),
                ws[j],
                self.score_of(ws[j]),
            ) by {
                assert(fpre[i].0@ != fpre[j].0@);
                assert(rank_geq(fpre[i].0@, fpre[i].1, fpre[j].0@, fpre[j].1));
            };
            // completeness and top-k
            assert forall|wd: Seq<char>|
                #[trigger] self.completion(p, wd) && !ws.contains(wd) implies (k != 0 && fs.len()
                == k as int && (forall|i: int|
                0 <= i < ws.len() ==> rank_geq(
                    #[trigger] ws[i],
                    self.score_of(ws[i]),
                    wd,
                    self.score_of(wd),
                ))) by {
                assert(!in_found(fs, wd)) by {
                    if in_found(fs, wd) {
                        let i0 = choose|i0: int|
                            0 <= i0 < fs.len() && (#[trigger] fs[i0]).0@ == wd;
                        assert(ws[i0] == wd);
                        assert(ws.contains(wd));
                    }
                };
                if in_found(fpre, wd) {
                    // truncated away: it sits at an index at or beyond k
                    let i0 = choose|i0: int| 0 <= i0 < fpre.len() && (#[trigger] fpre[i0]).0@ == wd;
                    assert(k != 0 && fpre.len() > k as int);
                    assert(i0 >= k as int) by {
                        if i0 < k as int {
                            assert(fs[i0].0@ == wd);
                            assert(in_found(fs, wd));
                        }
                    };
                    assert(fs.len() == k as int);
                    assert forall|i: int|
                        0 <= i < ws.len() implies rank_geq(
                        #[trigger] ws[i],
                        self.score_of(ws[i]),
                        wd,
                        self.score_of(wd),
                    ) by {
                        assert(rank_geq(fpre[i].0@, fpre[i].1, fpre[i0].0@, fpre[i0].1));
                        assert(fpre[i0].1 == self.score_of(wd));
                    };
                } else {
                    // never found: the loop pruned only lower scores
                    assert(k != 0 && fpre.len() >= k as int && self.score_of(wd) < fpre[k - 1].1);
                    assert(fs.len() == k as int);
                    assert forall|i: int|
                        0 <= i < ws.len() implies rank_geq(
                        #[trigger] ws[i],
                        self.score_of(ws[i]),
                        wd,
                        self.score_of(wd),
                    ) by {
                        assert(fs[i].1 >= fpre[k - 1].1) by {
                            if i < k - 1 {
                                assert(rank_geq(fpre[i].0@, fpre[i].1, fpre[k - 1].0@, fpre[k - 1].1));
                            }
                        };
                        assert(fs[i].1 > self.score_of(wd));
                    };
                }
            };
            assert(self.ranked_output_ok(p, k as int, ws)) by {
                assert forall|wd: Seq<char>|
                    #[trigger] self.completion(p, wd) && (k == 0 || (k > 0 && fs.len() != k as int))
                    implies ws.contains(wd) by {
                    if !ws.contains(wd) {
                        assert(false);
                    }
                };
                if k > 0 {
                    assert(fs.len() <= k as int);
                }
            };
        }
        Some(found)
    }

    /// Exact membership: the word itself, reconstructed from the nodes on
    /// its path, when the trie holds it as a complete word.
    pub fn search(&self, word: String) -> (r: Option<String>)
        requires
            self.wf(),
        ensures
            match r {
                Some(found) => self.is_word(word@) && found@ == word@,
                None => !self.is_word(word@),
            },
    {
        let w = chars_of_str(word.as_str());
        match self.walk_path(&w) {
            Some(p) => {
                let last: usize = if p.len() == 0 {
                    0
                } else {
                    p[p.len() - 1]
                };
                proof {
                    assert((last as int) == path_last(p@));
                }
                if self.nodes[last].node_type == TrieNodeType::Final {
                    let ow = OutputWrapper { nodes: p };
                    Some(ow.join(&self.nodes))
                } else {
                    None
                }
            },
            None => None,
        }
    }

    /// Prefix existence: the prefix itself, reconstructed from the nodes on
    /// its path, when some chain of nodes spells it (it need not be a
    /// complete word).
    pub fn starts_with(&self, prefix: String) -> (r: Option<String>)
        requires
            self.wf(),
        ensures
            match r {
                Some(found) => self.has_path(prefix@) && found@ == prefix@,
                None => !self.has_path(prefix@),
            },
    {
        let w = chars_of_str(prefix.as_str());
        match self.walk_path(&w) {
            Some(p) => {
                let ow = OutputWrapper { nodes: p };
                Some(ow.join(&self.nodes))
            },
            None => None,
        }
    }
}


/// The dictionary view of one insertion: the map gains (or overwrites) the
/// inserted word at its score and keeps every other entry.
proof fn lemma_insert_view(t0: Trie, t1: Trie, w: Seq<char>, s: i64)
    requires
        insert_effect(t0, t1, w, s),
    ensures
        t1@ == t0@.insert(w, s),
{
    let m1 = t1@;
    let m2 = t0@.insert(w, s);
    assert forall|v: Seq<char>| #[trigger] m1.dom().contains(v) <==> m2.dom().contains(v) by {
        assert(t1.is_word(v) <==> t0.is_word(v) || v == w);
    };
    assert forall|v: Seq<char>| m1.dom().contains(v) implies #[trigger] m1[v] == m2[v] by {
        assert(t1.is_word(v) <==> t0.is_word(v) || v == w);
        if v == w {
            assert(m1[v] == s);
        } else {
            assert(t1.score_of(v) == t0.score_of(v));
        }
    };
    assert(m1 =~= m2);
}

/// Insertion never strands a branch: if every nonempty path of the old trie
/// extended to a word, the same holds afterwards.
pub proof fn lemma_insert_keeps_no_dead(t0: Trie, t1: Trie, w: Seq<char>, s: i64)
    requires
        t0.no_dead_branches(),
        insert_effect(t0, t1, w, s),
    ensures
        t1.no_dead_branches(),
{
    assert(t1.is_word(w));
    assert forall|v: Seq<char>| #[trigger] t1.has_path(v) && v.len() > 0 implies exists|u: Seq<char>|
        t1.is_word(u) && v.is_prefix_of(u) by {
        if t0.has_path(v) {
            let u0 = choose|u: Seq<char>| t0.is_word(u) && v.is_prefix_of(u);
            assert(t1.is_word(u0));
            assert(t1.is_word(u0) && v.is_prefix_of(u0));
        } else {
            assert(v.is_prefix_of(w));
            assert(t1.is_word(w) && v.is_prefix_of(w));
        }
    };
}

/// Admissibility of the aggregate bound: the bound at any nonempty path
/// dominates the score of every word whose own path runs through it, which
/// is what lets the ranked traversal prune without losing a top result.
pub proof fn lemma_bound_admissible(t: Trie, p: Seq<char>, w: Seq<char>)
    requires
        t.wf(),
        p.len() >= 1,
        t.is_word(w),
        p.is_prefix_of(w),
    ensures
        t.score_of(w) <= t.bound_of(p),
{
    let ns = t.nodes@;
    crate::paths::lemma_walk_prefix(ns, w, p);
    let anchor = walk(ns, 0, p)->Some_0;
    crate::paths::lemma_walk_bounds(ns, 0, p);
    assert(anchor >= 1);
    let suf = w.skip(p.len() as int);
    assert(w =~= p + suf);
    lemma_walk_append(ns, 0, p, suf);
    let t_wd = walk(ns, 0, w)->Some_0;
    crate::paths::lemma_walk_bounds(ns, 0, w);
    assert(crate::paths::node_wf(ns, t_wd));
    assert(ns[t_wd].word_score is Some);
    crate::paths::lemma_bound_dominates(ns, anchor, suf);
}

/// Round-trip membership: a word just inserted is a word of the trie, so
/// by the contract of `search` a search for it must return it.
pub proof fn lemma_insert_round_trip(t0: Trie, t1: Trie, w: Seq<char>, s: i64)
    requires
        insert_effect(t0, t1, w, s),
    ensures
        t1.is_word(w),
{
}

/// Prefix containment: after inserting `w`, every prefix of `w` is a path
/// of the trie, so by the contract of `starts_with` a prefix query for it
/// must return it.
pub proof fn lemma_insert_prefixes(t0: Trie, t1: Trie, w: Seq<char>, s: i64, p: Seq<char>)
    requires
        insert_effect(t0, t1, w, s),
        p.is_prefix_of(w),
    ensures
        t1.has_path(p),
{
}

/// Score monotonicity: after inserting the same word at score `s1` and then
/// at score `s2`, the word's own score is `s2` (latest wins), while the
/// aggregate bound of each of its nonempty prefixes dominates both scores.
pub proof fn lemma_insert_twice_scores(
    t0: Trie,
    t1: Trie,
    t2: Trie,
    w: Seq<char>,
    s1: i64,
    s2: i64,
)
    requires
        insert_effect(t0, t1, w, s1),
        insert_effect(t1, t2, w, s2),
    ensures
        t2.score_of(w) == s2,
        forall|p: Seq<char>|
            p.is_prefix_of(w) && p.len() >= 1 ==> #[trigger] t2.bound_of(p) >= s1
                && t2.bound_of(p) >= s2,
{
    assert forall|p: Seq<char>| p.is_prefix_of(w) && p.len() >= 1 implies #[trigger] t2.bound_of(p)
        >= s1 && t2.bound_of(p) >= s2 by {
        assert(t1.bound_of(p) == max_score(
            if t0.has_path(p) {
                t0.bound_of(p)
            } else {
                0
            },
            s1,
        ));
        assert(t1.has_path(p));
        assert(t2.bound_of(p) == max_score(t1.bound_of(p), s2));
    };
}

/// Absent prefix: a nonempty prefix that no word of the trie extends names
/// no path, so by the contract of `get_ranked_results` a ranked query for
/// it must return absent rather than an empty sequence.
pub proof fn lemma_absent_prefix(t: Trie, p: Seq<char>)
    requires
        t.no_dead_branches(),
        p.len() >= 1,
        forall|u: Seq<char>| #[trigger] t.is_word(u) ==> !p.is_prefix_of(u),
    ensures
        !t.has_path(p),
{
    if t.has_path(p) {
        let u = choose|u: Seq<char>| t.is_word(u) && p.is_prefix_of(u);
        assert(t.is_word(u));
        assert(false);
    }
}


/// The words of a collection of scored results, in order.
spec fn found_words(fs: Seq<(Vec<char>, i64)>) -> Seq<Seq<char>> {
    fs.map(|i: int, e: (Vec<char>, i64)| e.0@)
}

/// Whether a collection of scored results is sorted by rank, best first.
spec fn found_sorted(fs: Seq<(Vec<char>, i64)>) -> bool {
    forall|i: int, j: int|
        #![trigger fs[i], fs[j]]
        0 <= i < j < fs.len() ==> rank_geq(fs[i].0@, fs[i].1, fs[j].0@, fs[j].1)
}

/// Whether some result in the collection carries the word `w`.
spec fn in_found(fs: Seq<(Vec<char>, i64)>, w: Seq<char>) -> bool {
    exists|i: int| 0 <= i < fs.len() && (#[trigger] fs[i]).0@ == w
}

/// Insert one scored word into a rank-sorted collection, keeping it sorted.
fn insert_sorted(found: &mut Vec<(Vec<char>, i64)>, word: Vec<char>, sc: i64)
    requires
        found_sorted(old(found)@),
    ensures
        final(found)@.len() == old(found)@.len() + 1,
        found_sorted(final(found)@),
        exists|pos: int|
            #![trigger old(found)@.insert(pos, (word, sc))]
            0 <= pos <= old(found)@.len() && final(found)@ == old(found)@.insert(pos, (word, sc)),
{
    let ghost wv = word@;
    let ghost fs0 = found@;
    let mut pos: usize = 0;
    while pos < found.len() && rank_geq_exec(&found[pos].0, found[pos].1, &word, sc)
        invariant
            pos <= found@.len(),
            found@ == fs0,
            forall|i: int|
                0 <= i < pos ==> rank_geq((#[trigger] found@[i]).0@, found@[i].1, wv, sc),
        decreases found@.len() - pos,
    {
        pos = pos + 1;
    }
    proof {
        if (pos as int) < fs0.len() {
            lemma_rank_total(fs0[pos as int].0@, fs0[pos as int].1, wv, sc);
            assert(rank_geq(wv, sc, fs0[pos as int].0@, fs0[pos as int].1));
        }
    }
    let ghost posg = pos as int;
    found.insert(pos, (word, sc));
    proof {
        let fs1 = found@;
        assert(fs1 == fs0.insert(posg, (word, sc)));
        assert forall|i: int, j: int|
            #![trigger fs1[i], fs1[j]]
            0 <= i < j < fs1.len() implies rank_geq(fs1[i].0@, fs1[i].1, fs1[j].0@, fs1[j].1) by {
            if j < posg {
                assert(fs1[i] == fs0[i]);
                assert(fs1[j] == fs0[j]);
            } else if j == posg {
                assert(fs1[i] == fs0[i]);
                assert(fs1[j].0@ == wv && fs1[j].1 == sc);
            } else {
                assert(fs1[j] == fs0[j - 1]);
                if i < posg {
                    assert(fs1[i] == fs0[i]);
                    assert(rank_geq(fs0[i].0@, fs0[i].1, fs0[j - 1].0@, fs0[j - 1].1)) by {
                        if i == j - 1 {
                            assert(false);
                        }
                    };
                } else if i == posg {
                    assert(fs1[i].0@ == wv && fs1[i].1 == sc);
                    assert(posg < fs0.len());
                    if j - 1 == posg {
                        assert(rank_geq(wv, sc, fs0[posg].0@, fs0[posg].1));
                    } else {
                        assert(rank_geq(fs0[posg].0@, fs0[posg].1, fs0[j - 1].0@, fs0[j - 1].1));
                        lemma_rank_trans(
                            wv,
                            sc,
                            fs0[posg].0@,
                            fs0[posg].1,
                            fs0[j - 1].0@,
                            fs0[j - 1].1,
                        );
                    }
                } else {
                    assert(fs1[i] == fs0[i - 1]);
                }
            }
        };
    }
}

/// Remove and return a frontier cursor of maximal aggregate bound.
fn pop_max(frontier: &mut Vec<QueueWrapper>, arena: &Vec<TrieNode>) -> (e: QueueWrapper)
    requires
        old(frontier)@.len() > 0,
        forall|fi: int|
            0 <= fi < old(frontier)@.len() ==> (#[trigger] old(frontier)@[fi].nodes@).len() > 0 && (
            old(frontier)@[fi].nodes@.last() as int) < arena@.len(),
    ensures
        exists|idx: int|
            #![trigger old(frontier)@.remove(idx)]
            0 <= idx < old(frontier)@.len() && e == old(frontier)@[idx] && final(frontier)@ == old(
                frontier,
            )@.remove(idx),
        forall|fi: int|
            0 <= fi < old(frontier)@.len() ==> (#[trigger] old(frontier)@[fi]).spec_output_score(
                arena@,
            ) <= e.spec_output_score(arena@),
{
    let mut best: usize = 0;
    let mut bs: i64 = frontier[0].output_score(arena);
    let mut m: usize = 1;
    while m < frontier.len()
        invariant
            1 <= m <= frontier@.len(),
            frontier@ == old(frontier)@,
            (best as int) < frontier@.len(),
            bs == frontier@[best as int].spec_output_score(arena@),
            forall|fi: int|
                0 <= fi < m ==> (#[trigger] frontier@[fi]).spec_output_score(arena@) <= bs,
        decreases frontier@.len() - m,
    {
        let s = frontier[m].output_score(arena);
        if s > bs {
            best = m;
            bs = s;
        }
        m = m + 1;
    }
    let e = frontier.remove(best);
    proof {
        assert(final(frontier)@ == old(frontier)@.remove(best as int));
    }
    e
}


/// A prefix stays a prefix when the longer sequence grows.
proof fn lemma_prefix_extend(a: Seq<char>, b: Seq<char>, c: char)
    requires
        a.is_prefix_of(b),
    ensures
        a.is_prefix_of(b.push(c)),
{
    assert forall|q: int| 0 <= q < a.len() implies a[q] == b.push(c).subrange(
        0,
        a.len() as int,
    )[q] by {
        assert(a[q] == b.subrange(0, a.len() as int)[q]);
    };
    assert(a =~= b.push(c).subrange(0, a.len() as int));
}

/// A sequence whose extension is a prefix is itself a prefix.
proof fn lemma_prefix_unextend(a: Seq<char>, b: Seq<char>, c: char)
    requires
        a.push(c).is_prefix_of(b),
    ensures
        a.is_prefix_of(b),
{
    assert forall|q: int| 0 <= q < a.len() implies a[q] == b.subrange(0, a.len() as int)[q] by {
        assert(a.push(c)[q] == b.subrange(0, a.push(c).len() as int)[q]);
    };
    assert(a =~= b.subrange(0, a.len() as int));
}

/// Every sequence is a prefix of itself.
proof fn lemma_prefix_refl(a: Seq<char>)
    ensures
        a.is_prefix_of(a),
{
    assert(a =~= a.subrange(0, a.len() as int));
}

/// A string that walks somewhere and strictly extends the string of a path
/// continues below the path's tip through one of its child entries.
proof fn lemma_step_under(ns: Seq<TrieNode>, pq: Seq<usize>, wd: Seq<char>)
    requires
        arena_wf(ns),
        path_ok(ns, pq),
        walk(ns, 0, wd) is Some,
        str_of(ns, pq).is_prefix_of(wd),
        wd.len() > str_of(ns, pq).len(),
    ensures
        exists|kk: int|
            0 <= kk < ns[path_last(pq)].children@.len() && (str_of(ns, pq).push(
                (#[trigger] ns[path_last(pq)].children@[kk]).0,
            )).is_prefix_of(wd),
{
    let s = str_of(ns, pq);
    let tip = path_last(pq);
    lemma_path_walk(ns, pq);
    let suf = wd.skip(s.len() as int);
    assert(wd =~= s + suf);
    lemma_walk_append(ns, 0, s, suf);
    assert(walk(ns, tip, suf) is Some);
    assert(suf.len() > 0);
    let c = suf[0];
    assert(child_in(ns[tip].children@, c) is Some);
    lemma_child_in_position(ns[tip].children@, c);
    let kk = choose|kk: int|
        0 <= kk < ns[tip].children@.len() && ns[tip].children@[kk] == (
        c,
        child_in(ns[tip].children@, c)->Some_0,
        );
    assert(ns[tip].children@[kk].0 == c);
    assert forall|q: int| 0 <= q < s.push(c).len() implies s.push(c)[q] == wd.subrange(
        0,
        s.push(c).len() as int,
    )[q] by {
        if q < s.len() {
            assert(s[q] == wd.subrange(0, s.len() as int)[q]);
        } else {
            assert(wd[s.len() as int] == suf[0]);
        }
    };
    assert(s.push(c) =~= wd.subrange(0, s.push(c).len() as int));
    assert((s.push(ns[tip].children@[kk].0)).is_prefix_of(wd));
}

/// The score of a word below a nonempty path is bounded by the aggregate
/// bound at the path's tip.
proof fn lemma_under_entry_bound(ns: Seq<TrieNode>, pq: Seq<usize>, wd: Seq<char>)
    requires
        arena_wf(ns),
        path_ok(ns, pq),
        pq.len() > 0,
        walk(ns, 0, wd) is Some,
        ns[walk(ns, 0, wd)->Some_0].word_score is Some,
        str_of(ns, pq).is_prefix_of(wd),
    ensures
        ns[walk(ns, 0, wd)->Some_0].word_score->Some_0 <= ns[path_last(pq)].node_score,
{
    let s = str_of(ns, pq);
    let tip = path_last(pq);
    lemma_path_walk(ns, pq);
    assert(s.len() == pq.len());
    crate::paths::lemma_walk_bounds(ns, 0, s);
    assert(tip >= 1);
    let suf = wd.skip(s.len() as int);
    assert(wd =~= s + suf);
    lemma_walk_append(ns, 0, s, suf);
    assert(walk(ns, tip, suf) == walk(ns, 0, wd));
    crate::paths::lemma_bound_dominates(ns, tip, suf);
}

} // verus!
