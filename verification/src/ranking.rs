//! The order in which ranked queries report their results: a higher score
//! ranks first, and equal scores fall back to lexicographic order on the
//! word, so that the output is deterministic.

use vstd::prelude::*;

verus! {

/// Lexicographic comparison of two character sequences from position `m`
/// on: true when `a` sorts no later than `b`.
pub open spec fn lex_le_from(a: Seq<char>, b: Seq<char>, m: int) -> bool
    decreases a.len() - m,
{
    if m >= a.len() {
        true
    } else if m >= b.len() {
        false
    } else if (a[m] as u32) < (b[m] as u32) {
        true
    } else if (a[m] as u32) > (b[m] as u32) {
        false
    } else {
        lex_le_from(a, b, m + 1)
    }
}

/// Lexicographic comparison of two character sequences.
pub open spec fn lex_le(a: Seq<char>, b: Seq<char>) -> bool {
    lex_le_from(a, b, 0)
}

/// Lexicographic comparison is total.
pub proof fn lemma_lex_total_from(a: Seq<char>, b: Seq<char>, m: int)
    ensures
        lex_le_from(a, b, m) || lex_le_from(b, a, m),
    decreases a.len() - m,
{
    if m < a.len() && m < b.len() && (a[m] as u32) == (b[m] as u32) {
        lemma_lex_total_from(a, b, m + 1);
    }
}

/// Lexicographic comparison is antisymmetric: two sequences that each sort
/// no later than the other, and agree before `m`, are equal.
pub proof fn lemma_lex_antisym_from(a: Seq<char>, b: Seq<char>, m: int)
    requires
        0 <= m <= a.len(),
        m <= b.len(),
        a.take(m) == b.take(m),
        lex_le_from(a, b, m),
        lex_le_from(b, a, m),
    ensures
        a == b,
    decreases a.len() - m,
{
    if m == a.len() {
        assert(b.len() <= m);
        assert(a =~= a.take(m));
        assert(b =~= b.take(m));
    } else if m == b.len() {
        assert(false);
    } else {
        assert((a[m] as u32) == (b[m] as u32));
        assert(a[m] == b[m]) by {
            vstd::utf8::char_u32_cast(a[m], a[m] as u32);
            vstd::utf8::char_u32_cast(b[m], b[m] as u32);
        };
        assert(a.take(m + 1) =~= a.take(m).push(a[m]));
        assert(b.take(m + 1) =~= b.take(m).push(b[m]));
        lemma_lex_antisym_from(a, b, m + 1);
    }
}

/// Lexicographic comparison is transitive.
pub proof fn lemma_lex_trans_from(a: Seq<char>, b: Seq<char>, c: Seq<char>, m: int)
    requires
        lex_le_from(a, b, m),
        lex_le_from(b, c, m),
    ensures
        lex_le_from(a, c, m),
    decreases a.len() - m,
{
    if m < a.len() {
        assert(m < b.len());
        assert(m < c.len());
        if (a[m] as u32) == (b[m] as u32) && (b[m] as u32) == (c[m] as u32) {
            lemma_lex_trans_from(a, b, c, m + 1);
        }
    }
}

/// The ranking order on scored words.
pub open spec fn rank_geq(w1: Seq<char>, s1: i64, w2: Seq<char>, s2: i64) -> bool {
    s1 > s2 || (s1 == s2 && lex_le(w1, w2))
}

/// The ranking order is total.
pub proof fn lemma_rank_total(w1: Seq<char>, s1: i64, w2: Seq<char>, s2: i64)
    ensures
        rank_geq(w1, s1, w2, s2) || rank_geq(w2, s2, w1, s1),
{
    lemma_lex_total_from(w1, w2, 0);
}

/// The ranking order is transitive.
pub proof fn lemma_rank_trans(
    w1: Seq<char>,
    s1: i64,
    w2: Seq<char>,
    s2: i64,
    w3: Seq<char>,
    s3: i64,
)
    requires
        rank_geq(w1, s1, w2, s2),
        rank_geq(w2, s2, w3, s3),
    ensures
        rank_geq(w1, s1, w3, s3),
{
    if s1 == s2 && s2 == s3 {
        lemma_lex_trans_from(w1, w2, w3, 0);
    }
}

/// Executable lexicographic comparison.
pub fn lex_le_exec(a: &Vec<char>, b: &Vec<char>) -> (r: bool)
    ensures
        r == lex_le(a@, b@),
{
    let mut m: usize = 0;
    while m < a.len() && m < b.len()
        invariant
            m <= a@.len(),
            m <= b@.len(),
            lex_le(a@, b@) == lex_le_from(a@, b@, m as int),
        decreases a@.len() - m,
    {
        let ca = a[m];
        let cb = b[m];
        if (ca as u32) < (cb as u32) {
            return true;
        }
        if (ca as u32) > (cb as u32) {
            return false;
        }
        proof {
            assert(a@[m as int] == b@[m as int]) by {
                vstd::utf8::char_u32_cast(a@[m as int], a@[m as int] as u32);
                vstd::utf8::char_u32_cast(b@[m as int], b@[m as int] as u32);
            };
        }
        m = m + 1;
    }
    m >= a.len()
}

/// Executable ranking comparison: does `(w1, s1)` rank at least as high as
/// `(w2, s2)`?
pub fn rank_geq_exec(w1: &Vec<char>, s1: i64, w2: &Vec<char>, s2: i64) -> (r: bool)
    ensures
        r == rank_geq(w1@, s1, w2@, s2),
{
    if s1 > s2 {
        true
    } else if s1 == s2 {
        lex_le_exec(w1, w2)
    } else {
        false
    }
}

} // verus!
