//! Lexicographic order on character sequences.
//!
//! Submission timestamps are fixed-width, zero-padded text, so their
//! chronological order coincides with the lexicographic order of their
//! characters. This module defines that order as a spec function and
//! provides verified executable comparisons on `&str`.

use vstd::prelude::*;

verus! {

/// `a` is lexicographically less than or equal to `b`; a proper prefix
/// compares below every extension of itself.
pub open spec fn lex_le(a: Seq<char>, b: Seq<char>) -> bool
    decreases a.len(),
{
    if a.len() == 0 {
        true
    } else if b.len() == 0 {
        false
    } else if a[0] != b[0] {
        a[0] < b[0]
    } else {
        lex_le(a.drop_first(), b.drop_first())
    }
}

/// Strict lexicographic order.
pub open spec fn lex_lt(a: Seq<char>, b: Seq<char>) -> bool {
    lex_le(a, b) && a != b
}

pub proof fn lemma_lex_le_refl(a: Seq<char>)
    ensures
        lex_le(a, a),
    decreases a.len(),
{
    if a.len() > 0 {
        lemma_lex_le_refl(a.drop_first());
    }
}

pub proof fn lemma_lex_le_total(a: Seq<char>, b: Seq<char>)
    ensures
        lex_le(a, b) || lex_le(b, a),
    decreases a.len(),
{
    if a.len() > 0 && b.len() > 0 && a[0] == b[0] {
        lemma_lex_le_total(a.drop_first(), b.drop_first());
    }
}

pub proof fn lemma_lex_le_antisymmetric(a: Seq<char>, b: Seq<char>)
    requires
        lex_le(a, b),
        lex_le(b, a),
    ensures
        a == b,
    decreases a.len(),
{
    if a.len() == 0 {
        assert(b.len() == 0);
        assert(a =~= b);
    } else {
        assert(b.len() > 0);
        assert(a[0] == b[0]);
        lemma_lex_le_antisymmetric(a.drop_first(), b.drop_first());
        assert(a =~= seq![a[0]] + a.drop_first());
        assert(b =~= seq![b[0]] + b.drop_first());
    }
}

pub proof fn lemma_lex_le_transitive(a: Seq<char>, b: Seq<char>, c: Seq<char>)
    requires
        lex_le(a, b),
        lex_le(b, c),
    ensures
        lex_le(a, c),
    decreases a.len(),
{
    if a.len() > 0 && b.len() > 0 && c.len() > 0 && a[0] == b[0] && b[0] == c[0] {
        lemma_lex_le_transitive(a.drop_first(), b.drop_first(), c.drop_first());
    }
}

/// In a total order, the strict part is the negation of the reversed
/// non-strict part.
pub proof fn lemma_lex_lt_iff_not_ge(a: Seq<char>, b: Seq<char>)
    ensures
        lex_lt(a, b) <==> !lex_le(b, a),
{
    lemma_lex_le_total(a, b);
    if lex_le(a, b) && lex_le(b, a) {
        lemma_lex_le_antisymmetric(a, b);
    }
    if a == b {
        lemma_lex_le_refl(a);
    }
}

/// Verified executable comparison: `a` is lexicographically at most `b`.
pub fn str_lex_le(a: &str, b: &str) -> (r: bool)
    ensures
        r == lex_le(a@, b@),
{
    let alen: usize = a.unicode_len();
    let blen: usize = b.unicode_len();
    let mut i: usize = 0;
    proof {
        assert(a@.skip(0) =~= a@);
        assert(b@.skip(0) =~= b@);
    }
    loop
        invariant
            i <= alen,
            i <= blen,
            alen == a@.len(),
            blen == b@.len(),
            lex_le(a@, b@) == lex_le(a@.skip(i as int), b@.skip(i as int)),
        decreases alen - i,
    {
        if i >= alen {
            assert(a@.skip(i as int).len() == 0);
            return true;
        }
        if i >= blen {
            assert(b@.skip(i as int).len() == 0);
            return false;
        }
        let ca = a.get_char(i);
        let cb = b.get_char(i);
        assert(a@.skip(i as int)[0] == a@[i as int]);
        assert(b@.skip(i as int)[0] == b@[i as int]);
        if ca != cb {
            return ca < cb;
        }
        assert(a@.skip(i as int).drop_first() =~= a@.skip(i + 1));
        assert(b@.skip(i as int).drop_first() =~= b@.skip(i + 1));
        i += 1;
    }
}

/// Verified executable string equality by character content.
pub fn str_eq(a: &str, b: &str) -> (r: bool)
    ensures
        r == (a@ == b@),
{
    let le1 = str_lex_le(a, b);
    let le2 = str_lex_le(b, a);
    proof {
        if le1 && le2 {
            lemma_lex_le_antisymmetric(a@, b@);
        }
        if a@ == b@ {
            lemma_lex_le_refl(a@);
        }
    }
    le1 && le2
}

/// Verified executable strict comparison.
pub fn str_lex_lt(a: &str, b: &str) -> (r: bool)
    ensures
        r == lex_lt(a@, b@),
{
    let r = !str_lex_le(b, a);
    proof {
        lemma_lex_lt_iff_not_ge(a@, b@);
    }
    r
}

} // verus!
