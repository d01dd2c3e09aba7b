//! The library's laws: properties of reconstruction and aggregation that
//! hold for every input, stated and proved once here.
//!
//! The per-board laws speak about the full field in ranking order, the form
//! in which ranks and scores are assigned; narrowing afterwards only drops
//! entries (see [`law_narrowing_preserves_entries`]), so each monotonicity
//! statement carries over to any displayed board.

use vstd::prelude::*;
use vstd::relations::sorted_by;

use crate::model::{
    length_of, lemma_score_of_antitone, lemma_score_of_leader, Metric, ScoredSubmission,
    Submission, LEADER_SCORE,
};
use crate::reconstruct::{
    beats, find_golfer, lemma_find_golfer_props, lemma_rank_at_bounds, lemma_spec_best_distinct,
    lengths_of, rank_at, rank_leq, spec_best, spec_narrow, spec_qualifying, spec_reconstruct,
    spec_reconstruct_leader, spec_score_board, subsequence_witness, upsert_best,
};

verus! {

/// Lengths are non-decreasing along the ranking order.
proof fn lemma_lengths_sorted(order: Seq<Submission>, m: Metric, i: int, j: int)
    requires
        sorted_by(order, rank_leq(m)),
        0 <= i <= j < order.len(),
    ensures
        lengths_of(order, m)[i] <= lengths_of(order, m)[j],
{
    if i < j {
        assert(rank_leq(m)(order[i], order[j]));
    }
}

/// On non-decreasing lengths the uncorrected rank is monotone.
proof fn lemma_rank_at_monotone(lens: Seq<int>, i: int, j: int)
    requires
        0 <= i <= j < lens.len(),
        forall|p: int, q: int| 0 <= p <= q < lens.len() ==> #[trigger] lens[p] <= #[trigger] lens[q],
    ensures
        rank_at(lens, i) <= rank_at(lens, j),
    decreases j - i,
{
    if i < j {
        lemma_rank_at_monotone(lens, i, j - 1);
        if lens[j] == lens[j - 1] {
        } else {
            lemma_rank_at_bounds(lens, j - 1);
        }
    }
}

/// On non-decreasing lengths, equal lengths share the uncorrected rank.
proof fn lemma_rank_at_shared(lens: Seq<int>, i: int, j: int)
    requires
        0 <= i <= j < lens.len(),
        forall|p: int, q: int| 0 <= p <= q < lens.len() ==> #[trigger] lens[p] <= #[trigger] lens[q],
        lens[i] == lens[j],
    ensures
        rank_at(lens, i) == rank_at(lens, j),
    decreases j - i,
{
    if i < j {
        assert(lens[i] <= lens[j - 1]);
        assert(lens[j - 1] <= lens[j]);
        lemma_rank_at_shared(lens, i, j - 1);
    }
}

/// Ranks are a non-decreasing step function of ascending length: along the
/// ranking order a later entry never ranks above an earlier one, and two
/// entries of equal length hold the same rank (standard competition
/// ranking; the sole-leader sentinel `0` at position 0 only lowers that
/// position further).
pub proof fn law_ranks_monotone(order: Seq<Submission>, m: Metric, i: int, j: int)
    requires
        sorted_by(order, rank_leq(m)),
        order.len() <= usize::MAX,
        0 <= i <= j < order.len(),
    ensures
        spec_score_board(order, m)[i].rank <= spec_score_board(order, m)[j].rank,
        length_of(order[i], m) == length_of(order[j], m) ==> spec_score_board(order, m)[i].rank
            == spec_score_board(order, m)[j].rank,
{
    let lens = lengths_of(order, m);
    assert forall|p: int, q: int| 0 <= p <= q < lens.len() implies #[trigger] lens[p]
        <= #[trigger] lens[q] by {
        lemma_lengths_sorted(order, m, p, q);
    }
    lemma_rank_at_monotone(lens, i, j);
    lemma_rank_at_bounds(lens, i);
    lemma_rank_at_bounds(lens, j);
    if length_of(order[i], m) == length_of(order[j], m) {
        lemma_rank_at_shared(lens, i, j);
        if i == 0 && j > 0 && lens.len() > 1 {
            // Equal smallest lengths rule the sentinel out.
            assert(lens[1] <= lens[j]);
            assert(lens[0] == lens[1]);
        }
    }
}

/// The sentinel rank `0` appears exactly when at least two entries qualify
/// and the smallest length is strictly below the second smallest; it only
/// ever sits at position 0, every other rank is positive.
pub proof fn law_sentinel_iff(order: Seq<Submission>, m: Metric)
    requires
        sorted_by(order, rank_leq(m)),
        order.len() <= usize::MAX,
    ensures
        (exists|i: int|
            0 <= i < order.len() && (#[trigger] spec_score_board(order, m)[i]).rank == 0) <==> (
        order.len() >= 2 && length_of(order[0], m) < length_of(order[1], m)),
        forall|i: int|
            1 <= i < order.len() ==> (#[trigger] spec_score_board(order, m)[i]).rank >= 1,
{
    let lens = lengths_of(order, m);
    assert forall|i: int| 1 <= i < order.len() implies (#[trigger] spec_score_board(order, m)[i]).rank
        >= 1 by {
        lemma_rank_at_bounds(lens, i);
    }
    if order.len() >= 2 && length_of(order[0], m) < length_of(order[1], m) {
        assert(spec_score_board(order, m)[0].rank == 0);
    }
    if exists|i: int|
        0 <= i < order.len() && (#[trigger] spec_score_board(order, m)[i]).rank == 0 {
        let i = choose|i: int|
            0 <= i < order.len() && (#[trigger] spec_score_board(order, m)[i]).rank == 0;
        lemma_rank_at_bounds(lens, i);
        assert(i == 0);
    }
}

/// Scores never increase along the ranking order, and an entry of the
/// leader's own length scores exactly 1000 points.
pub proof fn law_scores_antitone(order: Seq<Submission>, m: Metric, i: int, j: int)
    requires
        sorted_by(order, rank_leq(m)),
        0 <= i <= j < order.len(),
    ensures
        spec_score_board(order, m)[i].score >= spec_score_board(order, m)[j].score,
{
    let lens = lengths_of(order, m);
    let leader = length_of(order[0], m) as int;
    lemma_lengths_sorted(order, m, 0, i);
    lemma_lengths_sorted(order, m, 0, j);
    lemma_lengths_sorted(order, m, i, j);
    crate::model::lemma_score_of_bound(leader, lens[i]);
    crate::model::lemma_score_of_bound(leader, lens[j]);
    if lens[i] == 0 {
        assert(leader == 0);
        if lens[j] != 0 {
            assert((2 * (0 * (LEADER_SCORE as int)) + lens[j]) / (2 * lens[j]) == 0)
                by (nonlinear_arith)
                requires
                    lens[j] >= 1,
            ;
        }
    } else {
        lemma_score_of_antitone(leader, lens[i], lens[j]);
    }
}

/// The sole board minimum always scores exactly 1000 points: every entry
/// whose length equals the leader length holds `LEADER_SCORE`.
pub proof fn law_leader_scores_full(order: Seq<Submission>, m: Metric, i: int)
    requires
        sorted_by(order, rank_leq(m)),
        0 <= i < order.len(),
        length_of(order[0], m) >= 1,
        length_of(order[i], m) == length_of(order[0], m),
    ensures
        spec_score_board(order, m)[i].score == LEADER_SCORE,
{
    lemma_score_of_leader(length_of(order[0], m) as int);
}

/// Reconstruction is deterministic: the board is a mathematical function
/// of the raw log, the metric, the cutoff and the roster, so two runs on
/// identical input and configuration agree entry for entry, and on the
/// leader length.
pub proof fn law_reconstruction_deterministic(
    subs: Seq<Submission>,
    m: Metric,
    cutoff: Seq<char>,
    roster: Seq<String>,
    e1: Seq<ScoredSubmission>,
    e2: Seq<ScoredSubmission>,
    l1: usize,
    l2: usize,
)
    requires
        e1 == spec_reconstruct(subs, m, cutoff, roster),
        l1 == spec_reconstruct_leader(subs, m, cutoff),
        e2 == spec_reconstruct(subs, m, cutoff, roster),
        l2 == spec_reconstruct_leader(subs, m, cutoff),
    ensures
        e1 == e2,
        l1 == l2,
{
}

/// Narrowing a board to a participant subset never changes the `rank`,
/// `score` or `length` of a retained entry: each entry of the narrowed
/// board is, as a value, an entry of the full board. (The leader length is
/// not recomputed either; `narrow_board` returns it untouched.)
pub proof fn law_narrowing_preserves_entries(
    entries: Seq<ScoredSubmission>,
    roster: Seq<String>,
    i: int,
)
    requires
        0 <= i < spec_narrow(entries, roster).len(),
    ensures
        exists|j: int|
            0 <= j < entries.len() && spec_narrow(entries, roster)[i] == #[trigger] entries[j],
{
    let pred = |e: ScoredSubmission| crate::reconstruct::roster_has(roster, e.golfer@);
    crate::reconstruct::lemma_filter_is_subsequence(entries, pred);
    let w = choose|w: Seq<int>| subsequence_witness(entries, pred, w);
    assert(spec_narrow(entries, roster)[i] == entries[w[i]]);
}

/// No submission beats itself: `beats` is a strict preference.
proof fn lemma_beats_irreflexive(m: Metric, s: Submission)
    ensures
        !beats(m, s, s),
{
}

/// The personal-best preference is transitive.
proof fn lemma_beats_transitive(m: Metric, a: Submission, b: Submission, c: Submission)
    requires
        beats(m, a, b),
        beats(m, b, c),
    ensures
        beats(m, a, c),
{
    if length_of(a, m) == length_of(b, m) && length_of(b, m) == length_of(c, m) {
        let ta = a.submitted@;
        let tb = b.submitted@;
        let tc = c.submitted@;
        crate::lexord::lemma_lex_le_transitive(ta, tb, tc);
        if ta == tc {
            crate::lexord::lemma_lex_le_antisymmetric(ta, tb);
        }
    }
}

/// Some submission in `s` is by golfer `g`.
pub open spec fn golfer_on(s: Seq<Submission>, g: Seq<char>) -> bool {
    exists|i: int| 0 <= i < s.len() && (#[trigger] s[i]).golfer@ == g
}

/// The reduction to personal bests keeps exactly the golfers of its input:
/// nobody is invented and nobody is dropped.
pub proof fn law_best_golfer_iff(subs: Seq<Submission>, m: Metric, g: Seq<char>)
    ensures
        golfer_on(spec_best(subs, m), g) <==> golfer_on(subs, g),
    decreases subs.len(),
{
    if subs.len() > 0 {
        let front = subs.drop_last();
        let s = subs.last();
        let prev = spec_best(front, m);
        let best = spec_best(subs, m);
        law_best_golfer_iff(front, m, g);
        lemma_find_golfer_props(prev, s.golfer@);
        assert(forall|i: int| 0 <= i < front.len() ==> #[trigger] front[i] == subs[i]);
        let f = find_golfer(prev, s.golfer@);
        if f == -1 {
            assert(best == prev.push(s));
            if golfer_on(best, g) {
                let i = choose|i: int| 0 <= i < best.len() && (#[trigger] best[i]).golfer@ == g;
                if i < prev.len() {
                    assert(prev[i].golfer@ == g);
                } else {
                    assert(subs[subs.len() - 1].golfer@ == g);
                }
            }
            if golfer_on(subs, g) {
                let i = choose|i: int| 0 <= i < subs.len() && (#[trigger] subs[i]).golfer@ == g;
                if i < front.len() {
                    assert(front[i].golfer@ == g);
                    let k = choose|k: int|
                        0 <= k < prev.len() && (#[trigger] prev[k]).golfer@ == g;
                    assert(best[k].golfer@ == g);
                } else {
                    assert(best[best.len() - 1].golfer@ == g);
                }
            }
        } else {
            // The golfer is already on the accumulator; the entry may be
            // replaced, the golfer set stays the same.
            assert(prev[f].golfer@ == s.golfer@);
            assert(forall|i: int|
                0 <= i < best.len() ==> (#[trigger] best[i]).golfer@ == prev[i].golfer@);
            if golfer_on(best, g) {
                let i = choose|i: int| 0 <= i < best.len() && (#[trigger] best[i]).golfer@ == g;
                assert(prev[i].golfer@ == g);
            }
            if golfer_on(subs, g) {
                let i = choose|i: int| 0 <= i < subs.len() && (#[trigger] subs[i]).golfer@ == g;
                if i < front.len() {
                    assert(front[i].golfer@ == g);
                } else {
                    assert(s.golfer@ == g);
                }
                let k = choose|k: int| 0 <= k < prev.len() && (#[trigger] prev[k]).golfer@ == g;
                assert(best[k].golfer@ == g);
            }
        }
    }
}

/// Every personal-best entry is one of the input submissions, unchanged.
pub proof fn law_best_from_input(subs: Seq<Submission>, m: Metric, i: int)
    requires
        0 <= i < spec_best(subs, m).len(),
    ensures
        exists|j: int| 0 <= j < subs.len() && spec_best(subs, m)[i] == #[trigger] subs[j],
    decreases subs.len(),
{
    let front = subs.drop_last();
    let s = subs.last();
    let prev = spec_best(front, m);
    let best = spec_best(subs, m);
    lemma_find_golfer_props(prev, s.golfer@);
    assert(forall|k: int| 0 <= k < front.len() ==> #[trigger] front[k] == subs[k]);
    let f = find_golfer(prev, s.golfer@);
    if f == -1 {
        if i < prev.len() {
            law_best_from_input(front, m, i);
            let j = choose|j: int| 0 <= j < front.len() && prev[i] == #[trigger] front[j];
            assert(best[i] == subs[j]);
        } else {
            assert(best[i] == subs[subs.len() - 1]);
        }
    } else if beats(m, s, prev[f]) {
        if i == f {
            assert(best[i] == subs[subs.len() - 1]);
        } else {
            law_best_from_input(front, m, i);
            let j = choose|j: int| 0 <= j < front.len() && prev[i] == #[trigger] front[j];
            assert(best[i] == subs[j]);
        }
    } else {
        law_best_from_input(front, m, i);
        let j = choose|j: int| 0 <= j < front.len() && prev[i] == #[trigger] front[j];
        assert(best[i] == subs[j]);
    }
}

/// No qualifying submission of the same golfer beats the personal best
/// kept for that golfer: the reduction keeps a minimal-length submission,
/// the earliest-submitted one among equals.
pub proof fn law_best_minimal(subs: Seq<Submission>, m: Metric, i: int, j: int)
    requires
        0 <= i < spec_best(subs, m).len(),
        0 <= j < subs.len(),
        subs[j].golfer@ == spec_best(subs, m)[i].golfer@,
    ensures
        !beats(m, subs[j], spec_best(subs, m)[i]),
    decreases subs.len(),
{
    let front = subs.drop_last();
    let s = subs.last();
    let prev = spec_best(front, m);
    let best = spec_best(subs, m);
    let g = best[i].golfer@;
    lemma_find_golfer_props(prev, s.golfer@);
    lemma_spec_best_distinct(front, m);
    assert(forall|k: int| 0 <= k < front.len() ==> #[trigger] front[k] == subs[k]);
    let f = find_golfer(prev, s.golfer@);
    if f == -1 {
        assert(best == prev.push(s));
        if i < prev.len() {
            // An untouched accumulator entry; the new submission is by a
            // golfer the accumulator does not hold, so it is not subs[j]
            // unless j points into the front.
            if j == subs.len() - 1 {
                assert(s.golfer@ == g);
                assert(prev[i].golfer@ == g);
                assert(false);
            } else {
                law_best_minimal(front, m, i, j);
            }
        } else {
            assert(best[i] == s);
            if j == subs.len() - 1 {
                lemma_beats_irreflexive(m, s);
            } else {
                // A front submission by this golfer would have left an
                // accumulator entry.
                law_best_golfer_iff(front, m, g);
                assert(front[j].golfer@ == g);
                assert(golfer_on(front, g));
                let k = choose|k: int| 0 <= k < prev.len() && (#[trigger] prev[k]).golfer@ == g;
                assert(false);
            }
        }
    } else {
        assert(prev[f].golfer@ == s.golfer@);
        let kept = if beats(m, s, prev[f]) { s } else { prev[f] };
        assert(best == if beats(m, s, prev[f]) { prev.update(f, s) } else { prev });
        assert(forall|k: int|
            0 <= k < best.len() ==> (#[trigger] best[k]).golfer@ == prev[k].golfer@);
        if i == f {
            assert(best[i] == kept);
            if j == subs.len() - 1 {
                // The newcomer itself: it either replaced the old entry or
                // lost to it.
                if beats(m, s, prev[f]) {
                    lemma_beats_irreflexive(m, s);
                } else {
                }
            } else {
                law_best_minimal(front, m, f, j);
                if beats(m, s, prev[f]) {
                    // beats is transitive, so beating the winner would
                    // beat the old entry too.
                    if beats(m, subs[j], s) {
                        lemma_beats_transitive(m, subs[j], s, prev[f]);
                    }
                }
            }
        } else {
            assert(best[i] == prev[i]);
            if j == subs.len() - 1 {
                // subs[j] is s, whose golfer sits at f, not at i.
                assert(prev[i].golfer@ == g);
                assert(prev[f].golfer@ == s.golfer@);
                assert(false);
            } else {
                law_best_minimal(front, m, i, j);
            }
        }
    }
}


/// The per-board monotonicity laws survive narrowing: on the displayed
/// board, ranks are still non-decreasing along it, entries of equal length
/// still share their rank, and scores are still non-increasing.
pub proof fn law_narrowed_board_monotone(
    subs: Seq<Submission>,
    m: Metric,
    cutoff: Seq<char>,
    roster: Seq<String>,
    i: int,
    j: int,
)
    requires
        subs.len() <= usize::MAX,
        0 <= i <= j < spec_reconstruct(subs, m, cutoff, roster).len(),
    ensures
        spec_reconstruct(subs, m, cutoff, roster)[i].rank <= spec_reconstruct(
            subs,
            m,
            cutoff,
            roster,
        )[j].rank,
        spec_reconstruct(subs, m, cutoff, roster)[i].length == spec_reconstruct(
            subs,
            m,
            cutoff,
            roster,
        )[j].length ==> spec_reconstruct(subs, m, cutoff, roster)[i].rank == spec_reconstruct(
            subs,
            m,
            cutoff,
            roster,
        )[j].rank,
        spec_reconstruct(subs, m, cutoff, roster)[i].score >= spec_reconstruct(
            subs,
            m,
            cutoff,
            roster,
        )[j].score,
{
    let qpred = |s: Submission| crate::reconstruct::qualifies(s, m, cutoff);
    let q = spec_qualifying(subs, m, cutoff);
    let bst = spec_best(q, m);
    let ord = crate::sorting::sort_stable(rank_leq(m), bst);
    let board = spec_score_board(ord, m);
    let nar = spec_reconstruct(subs, m, cutoff, roster);

    subs.lemma_filter_len(qpred);
    crate::reconstruct::lemma_spec_best_len(q, m);
    crate::reconstruct::lemma_rank_leq_total_preorder(m);
    crate::sorting::lemma_sort_stable_sorted(rank_leq(m), bst);
    crate::sorting::lemma_sort_stable_len(rank_leq(m), bst);
    assert(ord.len() <= subs.len());

    let npred = |e: ScoredSubmission| crate::reconstruct::roster_has(roster, e.golfer@);
    crate::reconstruct::lemma_filter_is_subsequence(board, npred);
    let w = choose|w: Seq<int>| subsequence_witness(board, npred, w);
    assert(nar[i] == board[w[i]]);
    assert(nar[j] == board[w[j]]);
    assert(w[i] <= w[j]);
    law_ranks_monotone(ord, m, w[i], w[j]);
    law_scores_antitone(ord, m, w[i], w[j]);
}

} // verus!
