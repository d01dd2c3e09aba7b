//! The leaderboard reconstructor.
//!
//! One hole's raw submission list is turned into a ranked board by a
//! pipeline of pure stages: keep the submissions made under the selected
//! metric up to the cutoff; reduce to each golfer's best submission; sort
//! into ranking order (ascending length, earlier timestamp first, golfer
//! handle as the final key); assign competition ranks, the sole-leader
//! sentinel and scores; and only then narrow the board to the golfers the
//! report tracks. Each stage is specified by a deterministic spec function,
//! so the whole reconstruction is a mathematical function of its input.
//!
//! When one golfer holds several qualifying submissions of the same minimal
//! length, the earliest-submitted one is kept, a fixed tie-break chosen here
//! so that reconstruction does not depend on the order the log arrived in.

use vstd::prelude::*;
use vstd::relations::sorted_by;

use crate::lexord::{
    lemma_lex_le_antisymmetric, lemma_lex_le_total, lemma_lex_le_transitive,
    lemma_lex_lt_iff_not_ge, lex_le, lex_lt, str_eq, str_lex_le, str_lex_lt,
};
use crate::model::{
    board_wf, compute_score, length_of, metric_tag, metric_tag_str, score_of, submission_length,
    Board, Metric, ScoredSubmission, Submission, ABSENT_LENGTH,
};
use crate::sorting::{
    insert_ordered, lemma_insert_ordered_at, lemma_sort_stable_multiset, lemma_sort_stable_sorted,
    sort_stable, total_preorder,
};

verus! {

// ---------------------------------------------------------------------------
// Stage 1: qualifying submissions
// ---------------------------------------------------------------------------
/// A submission counts under metric `m` at cutoff `cutoff`: it was made
/// under the same metric and not after the cutoff.
pub open spec fn qualifies(s: Submission, m: Metric, cutoff: Seq<char>) -> bool {
    s.scoring@ == metric_tag(m) && lex_le(s.submitted@, cutoff)
}

/// The qualifying submissions, in input order.
pub open spec fn spec_qualifying(subs: Seq<Submission>, m: Metric, cutoff: Seq<char>) -> Seq<
    Submission,
> {
    subs.filter(|s: Submission| qualifies(s, m, cutoff))
}

/// Keeps the submissions made under metric `m` no later than `cutoff`.
pub fn qualifying(subs: Vec<Submission>, m: Metric, cutoff: &str) -> (r: Vec<Submission>)
    ensures
        r@ == spec_qualifying(subs@, m, cutoff@),
{
    let ghost orig = subs@;
    let tag = metric_tag_str(m);
    let mut rest = subs;
    let mut out: Vec<Submission> = Vec::new();
    proof {
        assert(orig.take(0) =~= Seq::<Submission>::empty());
    }
    while rest.len() > 0
        invariant
            rest@.len() <= orig.len(),
            rest@ =~= orig.skip(orig.len() - rest@.len()),
            out@ =~= orig.take(orig.len() - rest@.len()).filter(
                |s: Submission| qualifies(s, m, cutoff@),
            ),
            tag@ == metric_tag(m),
        decreases rest@.len(),
    {
        let ghost i = orig.len() - rest@.len();
        let x = rest.remove(0);
        proof {
            assert(x == orig[i]);
            assert(rest@ =~= orig.skip(i + 1));
            assert(orig.take(i + 1).drop_last() =~= orig.take(i));
            assert(orig.take(i + 1).last() == orig[i]);
        }
        let keep = str_eq(x.scoring.as_str(), tag) && str_lex_le(x.submitted.as_str(), cutoff);
        proof {
            assert(keep == qualifies(orig[i], m, cutoff@));
        }
        if keep {
            out.push(x);
        }
        proof {
            reveal_with_fuel(Seq::filter, 2);
            assert(out@ =~= orig.take(i + 1).filter(|s: Submission| qualifies(s, m, cutoff@)));
        }
    }
    proof {
        assert(orig.take(orig.len() as int) =~= orig);
    }
    out
}

// ---------------------------------------------------------------------------
// Stage 2: one submission per golfer
// ---------------------------------------------------------------------------
/// `s` beats `t` as a golfer's personal best: strictly shorter, or equally
/// short and submitted strictly earlier.
pub open spec fn beats(m: Metric, s: Submission, t: Submission) -> bool {
    ||| length_of(s, m) < length_of(t, m)
    ||| (length_of(s, m) == length_of(t, m) && lex_lt(s.submitted@, t.submitted@))
}

/// Index of the first entry of golfer `g` in `acc`, or `-1`.
pub open spec fn find_golfer(acc: Seq<Submission>, g: Seq<char>) -> int
    decreases acc.len(),
{
    if acc.len() == 0 {
        -1
    } else if acc[0].golfer@ == g {
        0
    } else {
        let r = find_golfer(acc.drop_first(), g);
        if r == -1 {
            -1
        } else {
            r + 1
        }
    }
}

pub proof fn lemma_find_golfer_props(acc: Seq<Submission>, g: Seq<char>)
    ensures
        find_golfer(acc, g) == -1 ==> forall|k: int|
            0 <= k < acc.len() ==> (#[trigger] acc[k]).golfer@ != g,
        find_golfer(acc, g) != -1 ==> {
            let i = find_golfer(acc, g);
            &&& 0 <= i < acc.len()
            &&& acc[i].golfer@ == g
            &&& forall|k: int| 0 <= k < i ==> (#[trigger] acc[k]).golfer@ != g
        },
    decreases acc.len(),
{
    if acc.len() > 0 && acc[0].golfer@ != g {
        lemma_find_golfer_props(acc.drop_first(), g);
        assert(forall|k: int| 1 <= k < acc.len() ==> acc[k] == acc.drop_first()[k - 1]);
    }
}

/// Folds one submission into the accumulated per-golfer bests.
pub open spec fn upsert_best(m: Metric, acc: Seq<Submission>, s: Submission) -> Seq<Submission> {
    let i = find_golfer(acc, s.golfer@);
    if i == -1 {
        acc.push(s)
    } else if beats(m, s, acc[i]) {
        acc.update(i, s)
    } else {
        acc
    }
}

/// Each golfer's best submission, golfers in order of first appearance.
pub open spec fn spec_best(subs: Seq<Submission>, m: Metric) -> Seq<Submission>
    decreases subs.len(),
{
    if subs.len() == 0 {
        Seq::empty()
    } else {
        upsert_best(m, spec_best(subs.drop_last(), m), subs.last())
    }
}

/// No two submissions in `s` are by the same golfer.
pub open spec fn distinct_golfers(s: Seq<Submission>) -> bool {
    forall|i: int, j: int|
        0 <= i < j < s.len() ==> (#[trigger] s[i]).golfer@ != (#[trigger] s[j]).golfer@
}

pub proof fn lemma_spec_best_distinct(subs: Seq<Submission>, m: Metric)
    ensures
        distinct_golfers(spec_best(subs, m)),
    decreases subs.len(),
{
    if subs.len() > 0 {
        lemma_spec_best_distinct(subs.drop_last(), m);
        let acc = spec_best(subs.drop_last(), m);
        let s = subs.last();
        lemma_find_golfer_props(acc, s.golfer@);
    }
}

/// The reduction never has more entries than submissions.
pub proof fn lemma_spec_best_len(subs: Seq<Submission>, m: Metric)
    ensures
        spec_best(subs, m).len() <= subs.len(),
    decreases subs.len(),
{
    if subs.len() > 0 {
        lemma_spec_best_len(subs.drop_last(), m);
        let prev = spec_best(subs.drop_last(), m);
        lemma_find_golfer_props(prev, subs.last().golfer@);
    }
}

/// Index of the first entry of golfer `g`, if any.
fn find_golfer_index(acc: &Vec<Submission>, g: &str) -> (r: Option<usize>)
    ensures
        match r {
            Some(i) => find_golfer(acc@, g@) == i,
            None => find_golfer(acc@, g@) == -1,
        },
{
    let n = acc.len();
    let mut j: usize = 0;
    while j < n
        invariant
            j <= n,
            n == acc@.len(),
            forall|k: int| 0 <= k < j ==> (#[trigger] acc@[k]).golfer@ != g@,
        decreases n - j,
    {
        if str_eq(acc[j].golfer.as_str(), g) {
            proof {
                lemma_find_golfer_props(acc@, g@);
            }
            return Some(j);
        }
        j += 1;
    }
    proof {
        lemma_find_golfer_props(acc@, g@);
    }
    None
}

/// Reduces the qualifying submissions to each golfer's single best one:
/// minimal length, with the earliest submission winning a length tie.
pub fn best_per_golfer(subs: Vec<Submission>, m: Metric) -> (r: Vec<Submission>)
    ensures
        r@ == spec_best(subs@, m),
        distinct_golfers(r@),
{
    let ghost orig = subs@;
    let mut rest = subs;
    let mut acc: Vec<Submission> = Vec::new();
    proof {
        assert(orig.take(0) =~= Seq::<Submission>::empty());
    }
    while rest.len() > 0
        invariant
            rest@.len() <= orig.len(),
            rest@ =~= orig.skip(orig.len() - rest@.len()),
            acc@ == spec_best(orig.take(orig.len() - rest@.len()), m),
        decreases rest@.len(),
    {
        let ghost i = orig.len() - rest@.len();
        let x = rest.remove(0);
        proof {
            assert(x == orig[i]);
            assert(rest@ =~= orig.skip(i + 1));
            assert(orig.take(i + 1).drop_last() =~= orig.take(i));
            assert(orig.take(i + 1).last() == orig[i]);
        }
        match find_golfer_index(&acc, x.golfer.as_str()) {
            None => {
                acc.push(x);
            },
            Some(j) => {
                proof {
                    lemma_find_golfer_props(acc@, x.golfer@);
                }
                let better = {
                    let lx = submission_length(&x, m);
                    let lj = submission_length(&acc[j], m);
                    lx < lj || (lx == lj && str_lex_lt(
                        x.submitted.as_str(),
                        acc[j].submitted.as_str(),
                    ))
                };
                if better {
                    acc.remove(j);
                    acc.insert(j, x);
                    proof {
                        assert(acc@ =~= spec_best(orig.take(i), m).update(j as int, orig[i]));
                    }
                }
            },
        }
        proof {
            assert(acc@ == spec_best(orig.take(i + 1), m));
        }
    }
    proof {
        assert(orig.take(orig.len() as int) =~= orig);
        lemma_spec_best_distinct(orig, m);
    }
    acc
}

// ---------------------------------------------------------------------------
// Stage 3: ranking order
// ---------------------------------------------------------------------------
/// The ranking order: ascending length, then ascending timestamp (an
/// earlier submission wins the tie), then golfer handle. On a board with
/// distinct golfers this is a total order, so the ranking order is unique.
pub open spec fn rank_le(m: Metric, a: Submission, b: Submission) -> bool {
    ||| length_of(a, m) < length_of(b, m)
    ||| (length_of(a, m) == length_of(b, m) && (lex_lt(a.submitted@, b.submitted@) || (a.submitted@
        == b.submitted@ && lex_le(a.golfer@, b.golfer@))))
}

/// [`rank_le`] as an ordering function.
pub open spec fn rank_leq(m: Metric) -> spec_fn(Submission, Submission) -> bool {
    |a: Submission, b: Submission| rank_le(m, a, b)
}

pub proof fn lemma_rank_leq_total_preorder(m: Metric)
    ensures
        total_preorder(rank_leq(m)),
{
    let leq = rank_leq(m);
    assert forall|a: Submission, b: Submission| #[trigger] leq(a, b) || #[trigger] leq(b, a) by {
        if length_of(a, m) == length_of(b, m) {
            lemma_lex_le_total(a.submitted@, b.submitted@);
            lemma_lex_le_total(a.golfer@, b.golfer@);
            lemma_lex_lt_iff_not_ge(a.submitted@, b.submitted@);
            lemma_lex_lt_iff_not_ge(b.submitted@, a.submitted@);
            if !lex_lt(a.submitted@, b.submitted@) && !lex_lt(b.submitted@, a.submitted@) {
                lemma_lex_le_antisymmetric(a.submitted@, b.submitted@);
            }
        }
    }
    assert forall|a: Submission, b: Submission, c: Submission|
        #[trigger] leq(a, b) && #[trigger] leq(b, c) implies leq(a, c) by {
        if length_of(a, m) == length_of(b, m) && length_of(b, m) == length_of(c, m) {
            let ta = a.submitted@;
            let tb = b.submitted@;
            let tc = c.submitted@;
            crate::lexord::lemma_lex_le_refl(ta);
            crate::lexord::lemma_lex_le_refl(tb);
            lemma_lex_le_transitive(ta, tb, tc);
            lemma_lex_lt_iff_not_ge(ta, tb);
            lemma_lex_lt_iff_not_ge(tb, tc);
            lemma_lex_lt_iff_not_ge(ta, tc);
            if ta == tc {
                lemma_lex_le_antisymmetric(ta, tb);
                lemma_lex_le_transitive(a.golfer@, b.golfer@, c.golfer@);
            }
        }
    }
}

/// Executable comparison for the ranking order.
fn rank_le_exec(a: &Submission, b: &Submission, m: Metric) -> (r: bool)
    ensures
        r == rank_le(m, *a, *b),
{
    let la = submission_length(a, m);
    let lb = submission_length(b, m);
    if la < lb {
        true
    } else if la > lb {
        false
    } else {
        if str_lex_lt(a.submitted.as_str(), b.submitted.as_str()) {
            true
        } else if str_lex_lt(b.submitted.as_str(), a.submitted.as_str()) {
            false
        } else {
            proof {
                lemma_lex_lt_iff_not_ge(a.submitted@, b.submitted@);
                lemma_lex_lt_iff_not_ge(b.submitted@, a.submitted@);
                lemma_lex_le_antisymmetric(a.submitted@, b.submitted@);
            }
            str_lex_le(a.golfer.as_str(), b.golfer.as_str())
        }
    }
}

/// The insertion point for `x` in `out`: past every leading element that
/// compares less than or equal to `x`.
fn insertion_point(out: &Vec<Submission>, x: &Submission, m: Metric) -> (p: usize)
    ensures
        p <= out@.len(),
        forall|k: int| 0 <= k < p ==> rank_leq(m)(#[trigger] out@[k], *x),
        p < out@.len() ==> !rank_leq(m)(out@[p as int], *x),
{
    let n = out.len();
    let mut p: usize = 0;
    while p < n
        invariant
            p <= n,
            n == out@.len(),
            forall|k: int| 0 <= k < p ==> rank_leq(m)(#[trigger] out@[k], *x),
        decreases n - p,
    {
        if !rank_le_exec(&out[p], x, m) {
            return p;
        }
        p += 1;
    }
    p
}

/// Sorts the per-golfer bests into ranking order (a stable sort, though on
/// distinct golfers the order is already total).
pub fn ranking_order(subs: Vec<Submission>, m: Metric) -> (r: Vec<Submission>)
    ensures
        r@ == sort_stable(rank_leq(m), subs@),
        sorted_by(r@, rank_leq(m)),
        r@.to_multiset() == subs@.to_multiset(),
{
    let ghost orig = subs@;
    let mut rest = subs;
    let mut out: Vec<Submission> = Vec::new();
    proof {
        assert(orig.take(0) =~= Seq::<Submission>::empty());
    }
    while rest.len() > 0
        invariant
            rest@.len() <= orig.len(),
            rest@ =~= orig.skip(orig.len() - rest@.len()),
            out@ == sort_stable(rank_leq(m), orig.take(orig.len() - rest@.len())),
        decreases rest@.len(),
    {
        let ghost i = orig.len() - rest@.len();
        let x = rest.remove(0);
        proof {
            assert(x == orig[i]);
            assert(rest@ =~= orig.skip(i + 1));
            assert(orig.take(i + 1).drop_last() =~= orig.take(i));
            assert(orig.take(i + 1).last() == orig[i]);
        }
        let p = insertion_point(&out, &x, m);
        proof {
            lemma_insert_ordered_at(rank_leq(m), x, out@, p as int);
        }
        out.insert(p, x);
        proof {
            assert(out@ =~= insert_ordered(rank_leq(m), x, sort_stable(rank_leq(m), orig.take(i))));
            assert(out@ == sort_stable(rank_leq(m), orig.take(i + 1)));
        }
    }
    proof {
        assert(orig.take(orig.len() as int) =~= orig);
        lemma_rank_leq_total_preorder(m);
        lemma_sort_stable_sorted(rank_leq(m), orig);
        lemma_sort_stable_multiset(rank_leq(m), orig);
    }
    out
}

/// Multiset equality carries golfer-distinctness across a permutation.
pub proof fn lemma_distinct_golfers_permutation(s1: Seq<Submission>, s2: Seq<Submission>)
    requires
        s1.to_multiset() == s2.to_multiset(),
        distinct_golfers(s1),
    ensures
        distinct_golfers(s2),
{
    broadcast use vstd::seq_lib::group_to_multiset_ensures;

    assert forall|i: int, j: int| 0 <= i < j < s2.len() implies (#[trigger] s2[i]).golfer@ != (
    #[trigger] s2[j]).golfer@ by {
        if s2[i].golfer@ == s2[j].golfer@ {
            if s2[i] == s2[j] {
                // A duplicated value would appear twice in s1 as well.
                assert(s2.remove(j).to_multiset() =~= s2.to_multiset().remove(s2[j]));
                assert(s2.remove(j)[i] == s2[i]);
                assert(s2.remove(j).contains(s2[i]));
                assert(s2.remove(j).to_multiset().count(s2[i]) > 0);
                assert(s1.to_multiset().count(s2[i]) >= 2);
                let k1 = choose|k1: int| 0 <= k1 < s1.len() && s1[k1] == s2[i];
                assert(s1.remove(k1).to_multiset() =~= s1.to_multiset().remove(s1[k1]));
                assert(s1.remove(k1).to_multiset().count(s2[i]) > 0);
                assert(s1.remove(k1).contains(s2[i]));
                let k2 = choose|k2: int| 0 <= k2 < s1.remove(k1).len() && s1.remove(k1)[k2] == s2[i];
                if k2 < k1 {
                    assert(s1[k2] == s2[i]);
                } else {
                    assert(s1[k2 + 1] == s2[i]);
                }
            } else {
                assert(s2.contains(s2[i]));
                assert(s2.contains(s2[j]));
                assert(s1.to_multiset().count(s2[i]) > 0);
                assert(s1.to_multiset().count(s2[j]) > 0);
                assert(s1.contains(s2[i]));
                assert(s1.contains(s2[j]));
                let k1 = choose|k1: int| 0 <= k1 < s1.len() && s1[k1] == s2[i];
                let k2 = choose|k2: int| 0 <= k2 < s1.len() && s1[k2] == s2[j];
                assert(k1 != k2);
            }
        }
    }
}

// ---------------------------------------------------------------------------
// Stage 4: ranks and scores
// ---------------------------------------------------------------------------
/// The competition rank of position `i` (0-based) for the given lengths,
/// before the sole-leader correction: position 0 ranks 1, a position whose
/// length repeats the previous one shares its rank, any other position `i`
/// ranks `i + 1`.
pub open spec fn rank_at(lens: Seq<int>, i: int) -> int
    decreases i,
{
    if i <= 0 {
        1
    } else if lens[i] == lens[i - 1] {
        rank_at(lens, i - 1)
    } else {
        i + 1
    }
}

/// The final rank: position 0 becomes the sentinel `0` exactly when at
/// least two entries exist and the smallest length is strictly below the
/// second smallest.
pub open spec fn final_rank(lens: Seq<int>, i: int) -> int {
    if i == 0 && lens.len() > 1 && lens[0] < lens[1] {
        0
    } else {
        rank_at(lens, i)
    }
}

/// The lengths of a ranking order under metric `m`.
pub open spec fn lengths_of(order: Seq<Submission>, m: Metric) -> Seq<int> {
    order.map_values(|s: Submission| length_of(s, m) as int)
}

/// The leader length: the first length of the ranking order, or
/// `ABSENT_LENGTH` on an empty board.
pub open spec fn spec_leader_length(order: Seq<Submission>, m: Metric) -> usize {
    if order.len() == 0 {
        ABSENT_LENGTH
    } else {
        length_of(order[0], m)
    }
}

/// The scored entry at position `i` of the ranking order.
pub open spec fn spec_entry(order: Seq<Submission>, m: Metric, i: int) -> ScoredSubmission {
    ScoredSubmission {
        golfer: order[i].golfer,
        submitted: order[i].submitted,
        length: length_of(order[i], m),
        rank: final_rank(lengths_of(order, m), i) as usize,
        score: score_of(
            spec_leader_length(order, m) as int,
            length_of(order[i], m) as int,
        ) as u64,
    }
}

/// All scored entries of the ranking order.
pub open spec fn spec_score_board(order: Seq<Submission>, m: Metric) -> Seq<ScoredSubmission> {
    Seq::new(order.len(), |i: int| spec_entry(order, m, i))
}

/// Ranks are positive and bounded by the position.
pub proof fn lemma_rank_at_bounds(lens: Seq<int>, i: int)
    requires
        0 <= i,
    ensures
        1 <= rank_at(lens, i) <= i + 1,
    decreases i,
{
    if i > 0 && lens[i] == lens[i - 1] {
        lemma_rank_at_bounds(lens, i - 1);
    }
}

/// Walks the ranking order assigning ranks and scores and records the
/// leader length.
pub fn score_board(hole: String, order: Vec<Submission>, m: Metric) -> (b: Board)
    requires
        sorted_by(order@, rank_leq(m)),
        distinct_golfers(order@),
    ensures
        b.hole == hole,
        b.leader_length == spec_leader_length(order@, m),
        b.entries@ == spec_score_board(order@, m),
        board_wf(b.entries@, b.leader_length),
{
    let ghost os = order@;
    let n = order.len();
    if n == 0 {
        let b = Board { hole, entries: Vec::new(), leader_length: ABSENT_LENGTH };
        proof {
            assert(b.entries@ =~= spec_score_board(os, m));
        }
        return b;
    }
    let leader = submission_length(&order[0], m);
    let sole_leader = if n > 1 {
        let second = submission_length(&order[1], m);
        leader < second
    } else {
        false
    };
    let ghost lens = lengths_of(os, m);
    let mut entries: Vec<ScoredSubmission> = Vec::new();
    let mut rest = order;
    let mut i: usize = 0;
    while i < n
        invariant
            i <= n,
            n == os.len(),
            rest@ =~= os.skip(i as int),
            lens == lengths_of(os, m),
            leader == length_of(os[0], m),
            sole_leader == (n > 1 && lens[0] < lens[1]),
            sorted_by(os, rank_leq(m)),
            entries@.len() == i,
            forall|j: int| 0 <= j < i ==> entries@[j] == spec_entry(os, m, j),
        decreases n - i,
    {
        let x = rest.remove(0);
        proof {
            assert(x == os[i as int]);
            assert(rest@ =~= os.skip(i + 1));
        }
        let len_i = submission_length(&x, m);
        proof {
            if i > 0 {
                assert(rank_leq(m)(os[0], os[i as int]));
            }
            assert(leader <= len_i);
        }
        let score = compute_score(leader, len_i);
        let rank: usize = if i == 0 {
            if sole_leader {
                0
            } else {
                1
            }
        } else {
            let prev_len = entries[i - 1].length;
            let prev_rank = entries[i - 1].rank;
            proof {
                assert(entries@[i - 1] == spec_entry(os, m, i - 1));
                assert(prev_len == lens[i - 1]);
                lemma_rank_at_bounds(lens, i - 1);
                if len_i == prev_len {
                    // A shared length at position 1 rules the sentinel out,
                    // so the previous rank is the uncorrected one.
                    assert(final_rank(lens, i - 1) == rank_at(lens, i - 1));
                }
            }
            if len_i == prev_len {
                prev_rank
            } else {
                i + 1
            }
        };
        let Submission { golfer, submitted, .. } = x;
        entries.push(ScoredSubmission { golfer, submitted, length: len_i, rank, score });
        proof {
            assert(lens[i as int] == len_i as int);
            assert(entries@[i as int] == spec_entry(os, m, i as int));
        }
        i += 1;
    }
    let b = Board { hole, entries, leader_length: leader };
    proof {
        assert(b.entries@ =~= spec_score_board(os, m));
        assert forall|j: int| 0 <= j < b.entries@.len() implies b.leader_length <= (
        #[trigger] b.entries@[j]).length && b.entries@[j].score == score_of(
            b.leader_length as int,
            b.entries@[j].length as int,
        ) by {
            if j > 0 {
                assert(rank_leq(m)(os[0], os[j]));
            }
            assert(b.entries@[j] == spec_entry(os, m, j));
            crate::model::lemma_score_of_bound(
                b.leader_length as int,
                b.entries@[j].length as int,
            );
        }
        assert forall|p: int, q: int| 0 <= p < q < b.entries@.len() implies (
        #[trigger] b.entries@[p]).golfer@ != (#[trigger] b.entries@[q]).golfer@ by {
            assert(os[p].golfer@ != os[q].golfer@);
        }
    }
    b
}

// ---------------------------------------------------------------------------
// Stage 5: narrowing to the tracked golfers
// ---------------------------------------------------------------------------
/// Golfer `g` appears in the tracked-participant roster.
pub open spec fn roster_has(roster: Seq<String>, g: Seq<char>) -> bool {
    exists|i: int| 0 <= i < roster.len() && (#[trigger] roster[i])@ == g
}

/// Membership test against the roster.
pub fn roster_contains(roster: &Vec<String>, g: &str) -> (r: bool)
    ensures
        r == roster_has(roster@, g@),
{
    let n = roster.len();
    let mut j: usize = 0;
    while j < n
        invariant
            j <= n,
            n == roster@.len(),
            forall|k: int| 0 <= k < j ==> (#[trigger] roster@[k])@ != g@,
        decreases n - j,
    {
        if str_eq(roster[j].as_str(), g) {
            return true;
        }
        j += 1;
    }
    false
}

/// The entries surviving the display filter, order and fields untouched.
pub open spec fn spec_narrow(entries: Seq<ScoredSubmission>, roster: Seq<String>) -> Seq<
    ScoredSubmission,
> {
    entries.filter(|e: ScoredSubmission| roster_has(roster, e.golfer@))
}

/// Narrows a board to the tracked golfers. A pure display filter: the
/// retained entries keep rank, score and length, and the leader length of
/// the full field stays on the board.
pub fn narrow_board(b: Board, roster: &Vec<String>) -> (r: Board)
    ensures
        r.hole == b.hole,
        r.leader_length == b.leader_length,
        r.entries@ == spec_narrow(b.entries@, roster@),
{
    let Board { hole, entries, leader_length } = b;
    let ghost orig = entries@;
    let mut rest = entries;
    let mut out: Vec<ScoredSubmission> = Vec::new();
    proof {
        assert(orig.take(0) =~= Seq::<ScoredSubmission>::empty());
    }
    while rest.len() > 0
        invariant
            rest@.len() <= orig.len(),
            rest@ =~= orig.skip(orig.len() - rest@.len()),
            out@ =~= orig.take(orig.len() - rest@.len()).filter(
                |e: ScoredSubmission| roster_has(roster@, e.golfer@),
            ),
        decreases rest@.len(),
    {
        let ghost i = orig.len() - rest@.len();
        let x = rest.remove(0);
        proof {
            assert(x == orig[i]);
            assert(rest@ =~= orig.skip(i + 1));
            assert(orig.take(i + 1).drop_last() =~= orig.take(i));
            assert(orig.take(i + 1).last() == orig[i]);
        }
        if roster_contains(roster, x.golfer.as_str()) {
            out.push(x);
        }
        proof {
            reveal_with_fuel(Seq::filter, 2);
            assert(out@ =~= orig.take(i + 1).filter(
                |e: ScoredSubmission| roster_has(roster@, e.golfer@),
            ));
        }
    }
    proof {
        assert(orig.take(orig.len() as int) =~= orig);
    }
    Board { hole, entries: out, leader_length }
}

/// Narrowing preserves well-formedness: every surviving entry is one of the
/// original entries, unchanged.
pub proof fn lemma_narrow_wf(entries: Seq<ScoredSubmission>, roster: Seq<String>, leader: usize)
    requires
        board_wf(entries, leader),
    ensures
        board_wf(spec_narrow(entries, roster), leader),
{
    let pred = |e: ScoredSubmission| roster_has(roster, e.golfer@);
    let nar = spec_narrow(entries, roster);
    lemma_filter_is_subsequence(entries, pred);
    let w = choose|w: Seq<int>| subsequence_witness(entries, pred, w);
    assert forall|i: int| 0 <= i < nar.len() implies leader <= (#[trigger] nar[i]).length && nar[i].score
        == score_of(leader as int, nar[i].length as int) by {
        assert(nar[i] == entries[w[i]]);
    }
    assert forall|i: int, j: int| 0 <= i < j < nar.len() implies (#[trigger] nar[i]).golfer@ != (
    #[trigger] nar[j]).golfer@ by {
        assert(nar[i] == entries[w[i]]);
        assert(nar[j] == entries[w[j]]);
        assert(w[i] < w[j]);
    }
}

/// `w` maps the positions of `s.filter(pred)` to strictly increasing
/// positions of `s` holding the same values.
pub open spec fn subsequence_witness<A>(s: Seq<A>, pred: spec_fn(A) -> bool, w: Seq<int>) -> bool {
    &&& w.len() == s.filter(pred).len()
    &&& forall|i: int| 0 <= i < w.len() ==> 0 <= #[trigger] w[i] < s.len()
    &&& forall|i: int, j: int| 0 <= i < j < w.len() ==> w[i] < w[j]
    &&& forall|i: int| 0 <= i < w.len() ==> s.filter(pred)[i] == s[#[trigger] w[i]]
}

/// A filtered sequence is a subsequence of the original.
pub proof fn lemma_filter_is_subsequence<A>(s: Seq<A>, pred: spec_fn(A) -> bool)
    ensures
        exists|w: Seq<int>| subsequence_witness(s, pred, w),
    decreases s.len(),
{
    reveal_with_fuel(Seq::filter, 2);
    if s.len() == 0 {
        let w = Seq::<int>::empty();
        assert(subsequence_witness(s, pred, w));
    } else {
        lemma_filter_is_subsequence(s.drop_last(), pred);
        let w0 = choose|w0: Seq<int>| subsequence_witness(s.drop_last(), pred, w0);
        assert(forall|i: int|
            0 <= i < s.drop_last().len() ==> #[trigger] s.drop_last()[i] == s[i]);
        if pred(s.last()) {
            let w = w0.push(s.len() - 1);
            assert(s.filter(pred) == s.drop_last().filter(pred).push(s.last()));
            assert forall|i: int| 0 <= i < w.len() implies s.filter(pred)[i] == s[#[trigger] w[i]] by {
                if i < w0.len() {
                    assert(s.filter(pred)[i] == s.drop_last().filter(pred)[i]);
                }
            }
            assert(subsequence_witness(s, pred, w));
        } else {
            assert(s.filter(pred) == s.drop_last().filter(pred));
            assert(subsequence_witness(s, pred, w0));
        }
    }
}

// ---------------------------------------------------------------------------
// The composed reconstructor
// ---------------------------------------------------------------------------
/// The full field of one hole in ranking order: qualifying submissions,
/// reduced to personal bests, sorted.
pub open spec fn spec_ranking(subs: Seq<Submission>, m: Metric, cutoff: Seq<char>) -> Seq<
    Submission,
> {
    sort_stable(rank_leq(m), spec_best(spec_qualifying(subs, m, cutoff), m))
}

/// The leader length the reconstruction records for one hole.
pub open spec fn spec_reconstruct_leader(subs: Seq<Submission>, m: Metric, cutoff: Seq<char>) -> usize {
    spec_leader_length(spec_ranking(subs, m, cutoff), m)
}

/// The entries the reconstruction shows for one hole, narrowed to the
/// roster.
pub open spec fn spec_reconstruct(
    subs: Seq<Submission>,
    m: Metric,
    cutoff: Seq<char>,
    roster: Seq<String>,
) -> Seq<ScoredSubmission> {
    spec_narrow(spec_score_board(spec_ranking(subs, m, cutoff), m), roster)
}

/// Reconstructs one hole's board as it stood at the cutoff: a function of
/// the raw log, the metric, the cutoff and the roster, and nothing else.
pub fn reconstruct_board(
    hole: String,
    subs: Vec<Submission>,
    m: Metric,
    cutoff: &str,
    roster: &Vec<String>,
) -> (b: Board)
    ensures
        b.hole == hole,
        b.leader_length == spec_reconstruct_leader(subs@, m, cutoff@),
        b.entries@ == spec_reconstruct(subs@, m, cutoff@, roster@),
        board_wf(b.entries@, b.leader_length),
{
    let ghost input = subs@;
    let q = qualifying(subs, m, cutoff);
    let bst = best_per_golfer(q, m);
    let ord = ranking_order(bst, m);
    proof {
        lemma_distinct_golfers_permutation(
            spec_best(spec_qualifying(input, m, cutoff@), m),
            ord@,
        );
    }
    let full = score_board(hole, ord, m);
    let ghost full_entries = full.entries@;
    let ghost leader = full.leader_length;
    let b = narrow_board(full, roster);
    proof {
        lemma_narrow_wf(full_entries, roster@, leader);
    }
    b
}

} // verus!
