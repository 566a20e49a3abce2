//! The index presented through its arena face: the variant of the trie
//! whose nodes live in a growable arena and point to one another by stable
//! index, which frees the structure from ownership cycles.  It offers the
//! same operations as [`crate::trie::Trie`] and is backed by the same
//! verified arena core; every contract here speaks of that core.

use vstd::prelude::*;

use crate::trie::Trie;
use crate::trie::insert_effect;

verus! {

/// A ranked prefix-search index held in an arena of nodes.
pub struct ArenaTrie {
    trie: Trie,
}

impl View for ArenaTrie {
    type V = Map<Seq<char>, i64>;

    /// The scored dictionary the index represents.
    closed spec fn view(&self) -> Map<Seq<char>, i64> {
        self.trie@
    }
}

impl ArenaTrie {
    /// The arena-backed trie underneath; the contracts of every operation
    /// speak of it.
    pub closed spec fn as_core(self) -> Trie {
        self.trie
    }

    /// An empty index: no words, no paths but the empty one.
    pub fn new() -> (t: ArenaTrie)
        ensures
            t.as_core().wf(),
            t.as_core().no_dead_branches(),
            t@ == Map::<Seq<char>, i64>::empty(),
            forall|v: Seq<char>| !(#[trigger] t.as_core().is_word(v)),
            forall|v: Seq<char>| #[trigger] t.as_core().has_path(v) <==> v.len() == 0,
    {
        ArenaTrie { trie: Trie::new() }
    }

    /// Insert `word` at score zero.
    pub fn insert(&mut self, word: String)
        requires
            old(self).as_core().wf(),
        ensures
            final(self).as_core().wf(),
            insert_effect(old(self).as_core(), final(self).as_core(), word@, 0),
            final(self)@ == old(self)@.insert(word@, 0),
            old(self).as_core().no_dead_branches() ==> final(self).as_core().no_dead_branches(),
    {
        self.trie.insert(word);
    }

    /// Insert `word` with the given score; a reinsertion overwrites the
    /// word's score, and aggregate bounds along the path only rise.
    pub fn insert_with_score(&mut self, word: String, score: i64)
        requires
            old(self).as_core().wf(),
        ensures
            final(self).as_core().wf(),
            insert_effect(old(self).as_core(), final(self).as_core(), word@, score),
            final(self)@ == old(self)@.insert(word@, score),
            old(self).as_core().no_dead_branches() ==> final(self).as_core().no_dead_branches(),
    {
        self.trie.insert_with_score(word, score);
    }

    /// Exact membership: the word itself when the index holds it.
    pub fn search(&self, word: String) -> (r: Option<String>)
        requires
            self.as_core().wf(),
        ensures
            match r {
                Some(found) => self.as_core().is_word(word@) && found@ == word@,
                None => !self.as_core().is_word(word@),
            },
    {
        self.trie.search(word)
    }

    /// Prefix existence: the prefix itself when some chain of nodes spells
    /// it, whether or not a word ends there.
    pub fn starts_with(&self, prefix: String) -> (r: Option<String>)
        requires
            self.as_core().wf(),
        ensures
            match r {
                Some(found) => self.as_core().has_path(prefix@) && found@ == prefix@,
                None => !self.as_core().has_path(prefix@),
            },
    {
        self.trie.starts_with(prefix)
    }

    /// All completions of `prefix`, best rank first; absent when the prefix
    /// names no path, present but empty when nothing extends it.
    pub fn get_ranked_results(&self, prefix: String) -> (r: Option<Vec<String>>)
        requires
            self.as_core().wf(),
        ensures
            r is Some <==> self.as_core().has_path(prefix@),
            r matches Some(rs) ==> self.as_core().ranked_output_ok(prefix@, 0, rs.deep_view()),
    {
        self.trie.get_ranked_results(prefix)
    }
}

} // verus!
