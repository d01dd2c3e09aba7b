//! The comparative aggregator.
//!
//! Takes every reconstructed board and the two primary golfers, keeps the
//! boards where both have a surviving entry, orders them by comparative
//! standing and counts wins, draws and losses. The ordering key is a
//! fine-grained score proxy: the score in ten-thousandths of a point plus
//! one extra unit for a true sole leader. Boards are sorted by the gap
//! between the two golfers' proxies, ties broken by the first golfer's own
//! standing, further ties keeping their incoming order; the default
//! presentation is the reverse of that ascending order.

use vstd::prelude::*;

use crate::lexord::str_eq;
use crate::model::{board_wf, Board, ScoredSubmission, ABSENT_LENGTH, LEADER_SCORE};
use crate::sorting::{
    insert_ordered, lemma_insert_ordered_at, lemma_sort_stable_multiset, lemma_sort_stable_sorted,
    sort_stable, total_preorder,
};

verus! {

// ---------------------------------------------------------------------------
// Per-board lookups
// ---------------------------------------------------------------------------
/// The length of golfer `g`'s entry (first match), or `ABSENT_LENGTH`.
pub open spec fn spec_length_for(entries: Seq<ScoredSubmission>, g: Seq<char>) -> int
    decreases entries.len(),
{
    if entries.len() == 0 {
        ABSENT_LENGTH as int
    } else if entries[0].golfer@ == g {
        entries[0].length as int
    } else {
        spec_length_for(entries.drop_first(), g)
    }
}

/// The ordering proxy of golfer `g` on a board: the score plus one unit for
/// the sole-leader sentinel, or `0` without an entry.
pub open spec fn spec_sort_score(entries: Seq<ScoredSubmission>, g: Seq<char>) -> int
    decreases entries.len(),
{
    if entries.len() == 0 {
        0
    } else if entries[0].golfer@ == g {
        entries[0].score + if entries[0].rank == 0 {
            1int
        } else {
            0int
        }
    } else {
        spec_sort_score(entries.drop_first(), g)
    }
}

/// The length a board records for golfer `g`, `ABSENT_LENGTH` if the golfer
/// has no entry on it.
pub fn length_for(b: &Board, g: &str) -> (r: usize)
    ensures
        r as int == spec_length_for(b.entries@, g@),
{
    let n = b.entries.len();
    let mut j: usize = 0;
    proof {
        assert(b.entries@.skip(0) =~= b.entries@);
    }
    while j < n
        invariant
            j <= n,
            n == b.entries@.len(),
            spec_length_for(b.entries@, g@) == spec_length_for(b.entries@.skip(j as int), g@),
        decreases n - j,
    {
        proof {
            assert(b.entries@.skip(j as int)[0] == b.entries@[j as int]);
            assert(b.entries@.skip(j as int).drop_first() =~= b.entries@.skip(j + 1));
        }
        if str_eq(b.entries[j].golfer.as_str(), g) {
            return b.entries[j].length;
        }
        j += 1;
    }
    ABSENT_LENGTH
}

/// The ordering proxy of golfer `g` on board `b`.
pub fn sort_score(b: &Board, g: &str) -> (r: u64)
    requires
        board_wf(b.entries@, b.leader_length),
    ensures
        r as int == spec_sort_score(b.entries@, g@),
        r <= LEADER_SCORE + 1,
{
    let n = b.entries.len();
    let mut j: usize = 0;
    proof {
        assert(b.entries@.skip(0) =~= b.entries@);
    }
    while j < n
        invariant
            j <= n,
            n == b.entries@.len(),
            board_wf(b.entries@, b.leader_length),
            spec_sort_score(b.entries@, g@) == spec_sort_score(b.entries@.skip(j as int), g@),
        decreases n - j,
    {
        proof {
            assert(b.entries@.skip(j as int)[0] == b.entries@[j as int]);
            assert(b.entries@.skip(j as int).drop_first() =~= b.entries@.skip(j + 1));
        }
        if str_eq(b.entries[j].golfer.as_str(), g) {
            proof {
                crate::model::lemma_score_of_bound(
                    b.leader_length as int,
                    b.entries@[j as int].length as int,
                );
            }
            let bonus: u64 = if b.entries[j].rank == 0 {
                1
            } else {
                0
            };
            return b.entries[j].score + bonus;
        }
        j += 1;
    }
    0
}

// ---------------------------------------------------------------------------
// Filtering and counting
// ---------------------------------------------------------------------------
/// Both primary golfers have an entry on the board.
pub open spec fn both_present(b: Board, me: Seq<char>, them: Seq<char>) -> bool {
    spec_length_for(b.entries@, me) < ABSENT_LENGTH as int && spec_length_for(b.entries@, them)
        < ABSENT_LENGTH as int
}

/// The boards under comparison, in input order.
pub open spec fn spec_compared(boards: Seq<Board>, me: Seq<char>, them: Seq<char>) -> Seq<Board> {
    boards.filter(|b: Board| both_present(b, me, them))
}

/// A compared board that `me` wins: strictly shorter than `them`.
pub open spec fn is_win(b: Board, me: Seq<char>, them: Seq<char>) -> bool {
    both_present(b, me, them) && spec_length_for(b.entries@, me) < spec_length_for(
        b.entries@,
        them,
    )
}

/// A compared board held to a draw: equal lengths.
pub open spec fn is_draw(b: Board, me: Seq<char>, them: Seq<char>) -> bool {
    both_present(b, me, them) && spec_length_for(b.entries@, me) == spec_length_for(
        b.entries@,
        them,
    )
}

/// A compared board that `me` loses: strictly longer than `them`.
pub open spec fn is_loss(b: Board, me: Seq<char>, them: Seq<char>) -> bool {
    both_present(b, me, them) && spec_length_for(b.entries@, me) > spec_length_for(
        b.entries@,
        them,
    )
}

pub open spec fn spec_wins(boards: Seq<Board>, me: Seq<char>, them: Seq<char>) -> int {
    boards.filter(|b: Board| is_win(b, me, them)).len() as int
}

pub open spec fn spec_draws(boards: Seq<Board>, me: Seq<char>, them: Seq<char>) -> int {
    boards.filter(|b: Board| is_draw(b, me, them)).len() as int
}

pub open spec fn spec_losses(boards: Seq<Board>, me: Seq<char>, them: Seq<char>) -> int {
    boards.filter(|b: Board| is_loss(b, me, them)).len() as int
}

/// Every compared board is exactly one of win, draw or loss, so the three
/// counts partition the comparison.
pub proof fn lemma_counts_partition(boards: Seq<Board>, me: Seq<char>, them: Seq<char>)
    ensures
        spec_wins(boards, me, them) + spec_draws(boards, me, them) + spec_losses(boards, me, them)
            == spec_compared(boards, me, them).len(),
    decreases boards.len(),
{
    reveal_with_fuel(Seq::filter, 2);
    if boards.len() > 0 {
        lemma_counts_partition(boards.drop_last(), me, them);
    }
}

// ---------------------------------------------------------------------------
// Ordering
// ---------------------------------------------------------------------------
/// The score-proxy gap on board `b`, `me` minus `them`.
pub open spec fn spec_gap(b: Board, me: Seq<char>, them: Seq<char>) -> int {
    spec_sort_score(b.entries@, me) - spec_sort_score(b.entries@, them)
}

/// A compared board together with its sort keys: the gap, `me`'s own proxy
/// as the backup key, and the incoming position to keep equal keys stable.
pub open spec fn spec_keyed(boards: Seq<Board>, me: Seq<char>, them: Seq<char>) -> Seq<
    (Board, i64, u64, usize),
> {
    let f = spec_compared(boards, me, them);
    Seq::new(
        f.len(),
        |i: int|
            (
                f[i],
                spec_gap(f[i], me, them) as i64,
                spec_sort_score(f[i].entries@, me) as u64,
                i as usize,
            ),
    )
}

/// The ascending order on keyed boards: gap, then `me`'s standing, then
/// incoming position.
pub open spec fn board_order() -> spec_fn((Board, i64, u64, usize), (Board, i64, u64, usize)) -> bool {
    |a: (Board, i64, u64, usize), b: (Board, i64, u64, usize)|
        {
            ||| a.1 < b.1
            ||| (a.1 == b.1 && (a.2 < b.2 || (a.2 == b.2 && a.3 <= b.3)))
        }
}

pub proof fn lemma_board_order_total_preorder()
    ensures
        total_preorder(board_order()),
{
}

/// The boards of the report, in presentation order: ascending by the keys,
/// reversed unless the reverse flag asks for the ascending order itself.
pub open spec fn spec_ordered_boards(
    boards: Seq<Board>,
    me: Seq<char>,
    them: Seq<char>,
    reverse: bool,
) -> Seq<Board> {
    let sorted = sort_stable(board_order(), spec_keyed(boards, me, them)).map_values(
        |t: (Board, i64, u64, usize)| t.0,
    );
    if reverse {
        sorted
    } else {
        sorted.reverse()
    }
}

/// The comparison report: the ordered boards under comparison and the
/// aggregate counts.
#[derive(Debug)]
pub struct ComparisonReport {
    /// Boards where both primary golfers appear, in presentation order.
    pub boards: Vec<Board>,
    /// Boards where `me` is strictly shorter.
    pub wins: usize,
    /// Boards with equal lengths.
    pub draws: usize,
    /// Boards where `me` is strictly longer.
    pub losses: usize,
    /// All boards under comparison.
    pub total: usize,
}

/// The insertion point for keyed board `x` in `out`.
fn board_insertion_point(
    out: &Vec<(Board, i64, u64, usize)>,
    x: &(Board, i64, u64, usize),
) -> (p: usize)
    ensures
        p <= out@.len(),
        forall|k: int| 0 <= k < p ==> board_order()(#[trigger] out@[k], *x),
        p < out@.len() ==> !board_order()(out@[p as int], *x),
{
    let n = out.len();
    let mut p: usize = 0;
    while p < n
        invariant
            p <= n,
            n == out@.len(),
            forall|k: int| 0 <= k < p ==> board_order()(#[trigger] out@[k], *x),
        decreases n - p,
    {
        let a = &out[p];
        let le = a.1 < x.1 || (a.1 == x.1 && (a.2 < x.2 || (a.2 == x.2 && a.3 <= x.3)));
        if !le {
            return p;
        }
        p += 1;
    }
    p
}

/// Builds the comparison report: filters to the boards both golfers sit on,
/// counts wins, draws and losses, and orders the boards by comparative
/// standing.
pub fn aggregate(boards: Vec<Board>, me: &str, them: &str, reverse: bool) -> (r: ComparisonReport)
    requires
        forall|i: int|
            0 <= i < boards@.len() ==> board_wf(
                (#[trigger] boards@[i]).entries@,
                boards@[i].leader_length,
            ),
    ensures
        r.boards@ == spec_ordered_boards(boards@, me@, them@, reverse),
        r.wins == spec_wins(boards@, me@, them@),
        r.draws == spec_draws(boards@, me@, them@),
        r.losses == spec_losses(boards@, me@, them@),
        r.total == r.wins + r.draws + r.losses,
        r.total == spec_compared(boards@, me@, them@).len(),
        r.total == r.boards@.len(),
        forall|i: int|
            0 <= i < r.boards@.len() ==> board_wf(
                (#[trigger] r.boards@[i]).entries@,
                r.boards@[i].leader_length,
            ),
{
    let ghost orig = boards@;
    let n0 = boards.len();
    let ghost win_pred = |b: Board| is_win(b, me@, them@);
    let ghost draw_pred = |b: Board| is_draw(b, me@, them@);
    let ghost loss_pred = |b: Board| is_loss(b, me@, them@);
    let ghost comp_pred = |b: Board| both_present(b, me@, them@);

    let mut rest = boards;
    let mut kept: Vec<(Board, i64, u64, usize)> = Vec::new();
    let mut wins: usize = 0;
    let mut draws: usize = 0;
    let mut losses: usize = 0;
    proof {
        assert(orig.take(0) =~= Seq::<Board>::empty());
    }
    while rest.len() > 0
        invariant
            n0 == orig.len(),
            rest@.len() <= orig.len(),
            rest@ =~= orig.skip(orig.len() - rest@.len()),
            forall|i: int|
                0 <= i < orig.len() ==> board_wf(
                    (#[trigger] orig[i]).entries@,
                    orig[i].leader_length,
                ),
            kept@ =~= spec_keyed(orig.take(orig.len() - rest@.len()), me@, them@),
            wins == spec_wins(orig.take(orig.len() - rest@.len()), me@, them@),
            draws == spec_draws(orig.take(orig.len() - rest@.len()), me@, them@),
            losses == spec_losses(orig.take(orig.len() - rest@.len()), me@, them@),
        decreases rest@.len(),
    {
        let ghost i = orig.len() - rest@.len();
        let b = rest.remove(0);
        proof {
            assert(b == orig[i]);
            assert(rest@ =~= orig.skip(i + 1));
            assert(orig.take(i + 1).drop_last() =~= orig.take(i));
            assert(orig.take(i + 1).last() == orig[i]);
            orig.take(i).lemma_filter_len(win_pred);
            orig.take(i).lemma_filter_len(draw_pred);
            orig.take(i).lemma_filter_len(loss_pred);
            orig.take(i).lemma_filter_len(comp_pred);
        }
        let l_me = length_for(&b, me);
        let l_them = length_for(&b, them);
        if l_me < ABSENT_LENGTH && l_them < ABSENT_LENGTH {
            if l_me < l_them {
                wins += 1;
            } else if l_me == l_them {
                draws += 1;
            } else {
                losses += 1;
            }
            let s_me = sort_score(&b, me);
            let s_them = sort_score(&b, them);
            let gap: i64 = (s_me as i64) - (s_them as i64);
            let idx = kept.len();
            kept.push((b, gap, s_me, idx));
        }
        proof {
            reveal_with_fuel(Seq::filter, 2);
            assert(kept@ =~= spec_keyed(orig.take(i + 1), me@, them@));
            assert(wins == spec_wins(orig.take(i + 1), me@, them@));
            assert(draws == spec_draws(orig.take(i + 1), me@, them@));
            assert(losses == spec_losses(orig.take(i + 1), me@, them@));
        }
    }
    proof {
        assert(orig.take(orig.len() as int) =~= orig);
    }

    // Sort the kept boards by the ascending key order.
    let ghost keyed = spec_keyed(orig, me@, them@);
    let mut krest = kept;
    let mut sorted: Vec<(Board, i64, u64, usize)> = Vec::new();
    proof {
        assert(keyed.take(0) =~= Seq::<(Board, i64, u64, usize)>::empty());
    }
    while krest.len() > 0
        invariant
            krest@.len() <= keyed.len(),
            krest@ =~= keyed.skip(keyed.len() - krest@.len()),
            sorted@ == sort_stable(board_order(), keyed.take(keyed.len() - krest@.len())),
        decreases krest@.len(),
    {
        let ghost i = keyed.len() - krest@.len();
        let x = krest.remove(0);
        proof {
            assert(x == keyed[i]);
            assert(krest@ =~= keyed.skip(i + 1));
            assert(keyed.take(i + 1).drop_last() =~= keyed.take(i));
            assert(keyed.take(i + 1).last() == keyed[i]);
        }
        let p = board_insertion_point(&sorted, &x);
        proof {
            lemma_insert_ordered_at(board_order(), x, sorted@, p as int);
        }
        sorted.insert(p, x);
        proof {
            assert(sorted@ =~= insert_ordered(
                board_order(),
                x,
                sort_stable(board_order(), keyed.take(i)),
            ));
            assert(sorted@ == sort_stable(board_order(), keyed.take(i + 1)));
        }
    }
    proof {
        assert(keyed.take(keyed.len() as int) =~= keyed);
    }

    // Strip the keys, then put the boards into presentation order.
    let ghost sorted_seq = sorted@;
    let mut srest = sorted;
    let mut ascending: Vec<Board> = Vec::new();
    while srest.len() > 0
        invariant
            srest@.len() <= sorted_seq.len(),
            srest@ =~= sorted_seq.skip(sorted_seq.len() - srest@.len()),
            ascending@ =~= sorted_seq.take(sorted_seq.len() - srest@.len()).map_values(
                |t: (Board, i64, u64, usize)| t.0,
            ),
        decreases srest@.len(),
    {
        let ghost i = sorted_seq.len() - srest@.len();
        let t = srest.remove(0);
        proof {
            assert(t == sorted_seq[i]);
            assert(srest@ =~= sorted_seq.skip(i + 1));
        }
        ascending.push(t.0);
        proof {
            assert(ascending@ =~= sorted_seq.take(i + 1).map_values(
                |t: (Board, i64, u64, usize)| t.0,
            ));
        }
    }
    proof {
        assert(sorted_seq.take(sorted_seq.len() as int) =~= sorted_seq);
    }

    let final_boards: Vec<Board> = if reverse {
        ascending
    } else {
        let ghost asc = ascending@;
        let mut a = ascending;
        let mut rev: Vec<Board> = Vec::new();
        while a.len() > 0
            invariant
                a@.len() <= asc.len(),
                a@ =~= asc.take(a@.len() as int),
                rev@ =~= asc.skip(a@.len() as int).reverse(),
            decreases a@.len(),
        {
            let x = a.pop().unwrap();
            rev.push(x);
            proof {
                assert(rev@ =~= asc.skip(a@.len() as int).reverse());
            }
        }
        proof {
            assert(rev@ =~= asc.reverse());
        }
        rev
    };

    proof {
        lemma_counts_partition(orig, me@, them@);
        // Presentation keeps exactly the compared boards, so the counts
        // partition the result's length as well.
        lemma_board_order_total_preorder();
        lemma_sort_stable_multiset(board_order(), keyed);
        crate::sorting::lemma_sort_stable_len(board_order(), keyed);
        broadcast use vstd::seq_lib::group_to_multiset_ensures;

        assert(sorted_seq.len() == keyed.len());
        assert(final_boards@.len() == spec_compared(orig, me@, them@).len());
        // Every board of the report is one of the input boards, so it is
        // well-formed.
        assert forall|i: int| 0 <= i < final_boards@.len() implies board_wf(
            (#[trigger] final_boards@[i]).entries@,
            final_boards@[i].leader_length,
        ) by {
            let asc_seq = sorted_seq.map_values(|t: (Board, i64, u64, usize)| t.0);
            let bd = final_boards@[i];
            assert(exists|k: int| 0 <= k < asc_seq.len() && asc_seq[k] == bd) by {
                if reverse {
                    assert(asc_seq[i] == bd);
                } else {
                    assert(asc_seq.reverse()[i] == bd);
                    assert(asc_seq[asc_seq.len() - 1 - i] == bd);
                }
            }
            let k = choose|k: int| 0 <= k < asc_seq.len() && asc_seq[k] == bd;
            let t = sorted_seq[k];
            assert(sorted_seq.contains(t));
            assert(sorted_seq.to_multiset().count(t) > 0);
            assert(keyed.to_multiset().count(t) > 0);
            assert(keyed.contains(t));
            let k2 = choose|k2: int| 0 <= k2 < keyed.len() && keyed[k2] == t;
            let f = spec_compared(orig, me@, them@);
            assert(f[k2] == bd);
            crate::reconstruct::lemma_filter_is_subsequence(orig, comp_pred);
            let w = choose|w: Seq<int>|
                crate::reconstruct::subsequence_witness(orig, comp_pred, w);
            assert(bd == orig[w[k2]]);
            assert(board_wf(orig[w[k2]].entries@, orig[w[k2]].leader_length));
        }
    }

    let total_len = final_boards.len();
    ComparisonReport { boards: final_boards, wins, draws, losses, total: total_len }
}

} // verus!
