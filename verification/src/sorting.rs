//! Stable sorting, specified as a fold of ordered insertions.
//!
//! `sort_stable` processes a sequence left to right and inserts each element
//! after every element already placed that compares less than or equal to it.
//! For a total preorder this is exactly the stable sort: equal elements keep
//! their original relative order. The spec function is deterministic, so a
//! contract `r@ == sort_stable(leq, s@)` pins the result completely.

use vstd::prelude::*;
use vstd::relations::sorted_by;

verus! {

/// Insert `x` into `s` after every leading element that is `leq x`.
pub open spec fn insert_ordered<A>(leq: spec_fn(A, A) -> bool, x: A, s: Seq<A>) -> Seq<A>
    decreases s.len(),
{
    if s.len() == 0 {
        seq![x]
    } else if leq(s[0], x) {
        seq![s[0]] + insert_ordered(leq, x, s.drop_first())
    } else {
        seq![x] + s
    }
}

/// The stable sort of `s` under `leq`: elements are inserted in input order.
pub open spec fn sort_stable<A>(leq: spec_fn(A, A) -> bool, s: Seq<A>) -> Seq<A>
    decreases s.len(),
{
    if s.len() == 0 {
        s
    } else {
        insert_ordered(leq, s.last(), sort_stable(leq, s.drop_last()))
    }
}

pub proof fn lemma_insert_ordered_len<A>(leq: spec_fn(A, A) -> bool, x: A, s: Seq<A>)
    ensures
        insert_ordered(leq, x, s).len() == s.len() + 1,
    decreases s.len(),
{
    if s.len() > 0 && leq(s[0], x) {
        lemma_insert_ordered_len(leq, x, s.drop_first());
    }
}

pub proof fn lemma_sort_stable_len<A>(leq: spec_fn(A, A) -> bool, s: Seq<A>)
    ensures
        sort_stable(leq, s).len() == s.len(),
    decreases s.len(),
{
    if s.len() > 0 {
        lemma_sort_stable_len(leq, s.drop_last());
        lemma_insert_ordered_len(leq, s.last(), sort_stable(leq, s.drop_last()));
    }
}

pub proof fn lemma_insert_ordered_multiset<A>(leq: spec_fn(A, A) -> bool, x: A, s: Seq<A>)
    ensures
        insert_ordered(leq, x, s).to_multiset() =~= s.to_multiset().insert(x),
    decreases s.len(),
{
    broadcast use vstd::seq_lib::group_to_multiset_ensures;

    if s.len() == 0 {
        assert(seq![x] =~= Seq::<A>::empty().push(x));
        assert(Seq::<A>::empty().push(x).to_multiset() =~= Seq::<A>::empty().to_multiset().insert(
            x,
        ));
    } else if leq(s[0], x) {
        lemma_insert_ordered_multiset(leq, x, s.drop_first());
        let rest = insert_ordered(leq, x, s.drop_first());
        assert(seq![s[0]] + rest =~= rest.insert(0, s[0]));
        assert((seq![s[0]] + rest).to_multiset() =~= rest.to_multiset().insert(s[0]));
        assert(s =~= s.drop_first().insert(0, s[0]));
        assert(s.to_multiset() =~= s.drop_first().to_multiset().insert(s[0]));
    } else {
        assert(seq![x] + s =~= s.insert(0, x));
        assert((seq![x] + s).to_multiset() =~= s.to_multiset().insert(x));
    }
}

pub proof fn lemma_sort_stable_multiset<A>(leq: spec_fn(A, A) -> bool, s: Seq<A>)
    ensures
        sort_stable(leq, s).to_multiset() =~= s.to_multiset(),
    decreases s.len(),
{
    broadcast use vstd::seq_lib::group_to_multiset_ensures;

    if s.len() > 0 {
        lemma_sort_stable_multiset(leq, s.drop_last());
        lemma_insert_ordered_multiset(leq, s.last(), sort_stable(leq, s.drop_last()));
        assert(s =~= s.drop_last().push(s.last()));
        assert(s.to_multiset() =~= s.drop_last().to_multiset().insert(s.last()));
    }
}

/// `leq` is a total preorder: total (hence reflexive) and transitive.
pub open spec fn total_preorder<A>(leq: spec_fn(A, A) -> bool) -> bool {
    &&& forall|a: A, b: A| #[trigger] leq(a, b) || #[trigger] leq(b, a)
    &&& forall|a: A, b: A, c: A| #[trigger] leq(a, b) && #[trigger] leq(b, c) ==> leq(a, c)
}

pub proof fn lemma_insert_ordered_sorted<A>(leq: spec_fn(A, A) -> bool, x: A, s: Seq<A>)
    requires
        total_preorder(leq),
        sorted_by(s, leq),
    ensures
        sorted_by(insert_ordered(leq, x, s), leq),
    decreases s.len(),
{
    lemma_insert_ordered_len(leq, x, s);
    if s.len() == 0 {
    } else if leq(s[0], x) {
        let rest = insert_ordered(leq, x, s.drop_first());
        assert(sorted_by(s.drop_first(), leq)) by {
            assert(forall|i: int, j: int|
                0 <= i < j < s.drop_first().len() ==> leq(s[i + 1], s[j + 1]) ==> #[trigger] leq(
                    s.drop_first()[i],
                    s.drop_first()[j],
                ));
        }
        lemma_insert_ordered_sorted(leq, x, s.drop_first());
        lemma_insert_ordered_multiset(leq, x, s.drop_first());
        let out = seq![s[0]] + rest;
        // s[0] is leq everything in rest: rest holds x and the tail of s.
        assert forall|j: int| 1 <= j < out.len() implies leq(out[0], #[trigger] out[j]) by {
            broadcast use vstd::seq_lib::group_to_multiset_ensures;

            assert(rest.contains(rest[j - 1]));
            assert(rest.to_multiset().count(rest[j - 1]) > 0);
            if rest[j - 1] == x {
                assert(leq(s[0], x));
            } else {
                assert(s.drop_first().to_multiset().count(rest[j - 1]) > 0);
                assert(s.drop_first().contains(rest[j - 1]));
                let k = choose|k: int|
                    0 <= k < s.drop_first().len() && s.drop_first()[k] == rest[j - 1];
                assert(leq(s[0], s[k + 1]));
            }
        }
        assert(sorted_by(out, leq)) by {
            assert(forall|i: int, j: int|
                1 <= i < j < out.len() ==> leq(rest[i - 1], rest[j - 1]) ==> #[trigger] leq(
                    out[i],
                    out[j],
                ));
        }
    } else {
        // x goes in front: !leq(s[0], x) and totality give leq(x, s[0]).
        let out = seq![x] + s;
        assert(leq(x, s[0]));
        assert forall|j: int| 1 <= j < out.len() implies leq(out[0], #[trigger] out[j]) by {
            if j > 1 {
                assert(leq(s[0], s[j - 1]));
            }
        }
        assert(sorted_by(out, leq)) by {
            assert(forall|i: int, j: int|
                1 <= i < j < out.len() ==> leq(s[i - 1], s[j - 1]) ==> #[trigger] leq(
                    out[i],
                    out[j],
                ));
        }
    }
}

pub proof fn lemma_sort_stable_sorted<A>(leq: spec_fn(A, A) -> bool, s: Seq<A>)
    requires
        total_preorder(leq),
    ensures
        sorted_by(sort_stable(leq, s), leq),
    decreases s.len(),
{
    if s.len() > 0 {
        lemma_sort_stable_sorted(leq, s.drop_last());
        lemma_insert_ordered_sorted(leq, s.last(), sort_stable(leq, s.drop_last()));
    }
}

/// Where an executable scan stops is where `insert_ordered` puts the element:
/// if the first `p` elements are `leq x` and the one at `p` (if any) is not,
/// the insertion point is exactly `p`.
pub proof fn lemma_insert_ordered_at<A>(leq: spec_fn(A, A) -> bool, x: A, s: Seq<A>, p: int)
    requires
        0 <= p <= s.len(),
        forall|j: int| 0 <= j < p ==> leq(#[trigger] s[j], x),
        p < s.len() ==> !leq(s[p], x),
    ensures
        insert_ordered(leq, x, s) =~= s.take(p) + seq![x] + s.skip(p),
    decreases s.len(),
{
    if s.len() == 0 {
    } else if p == 0 {
        assert(!leq(s[0], x));
        assert(s.take(0) =~= Seq::<A>::empty());
        assert(s.skip(0) =~= s);
    } else {
        assert(leq(s[0], x));
        lemma_insert_ordered_at(leq, x, s.drop_first(), p - 1);
        assert(s.drop_first().take(p - 1) =~= s.take(p).drop_first());
        assert(s.drop_first().skip(p - 1) =~= s.skip(p));
    }
}

} // verus!
