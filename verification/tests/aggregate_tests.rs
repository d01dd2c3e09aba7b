use golfboard::aggregate::{aggregate, length_for, sort_score};
use golfboard::model::{Board, Metric, Submission};
use golfboard::reconstruct::reconstruct_board;
use golfboard::render::{headline, Headline};

fn mk_sub(golfer: &str, bytes: usize, submitted: &str) -> Submission {
    Submission {
        hole: String::from("hole"),
        golfer: String::from(golfer),
        lang: String::from("rust"),
        scoring: String::from("bytes"),
        bytes,
        chars: bytes,
        submitted: String::from(submitted),
    }
}

const T0: &str = "2025-01-01 00:00:00.000000";
const T1: &str = "2025-01-02 00:00:00.000000";
const CUT: &str = "2025z";

fn board(hole: &str, me_len: usize, them_len: usize) -> Board {
    let subs = vec![mk_sub("me", me_len, T0), mk_sub("them", them_len, T1)];
    let roster = vec![String::from("me"), String::from("them")];
    reconstruct_board(String::from(hole), subs, Metric::Bytes, CUT, &roster)
}

#[test]
fn win_draw_loss_counts_partition_the_boards() {
    let boards = vec![board("h1", 10, 12), board("h2", 8, 8), board("h3", 20, 15)];
    let r = aggregate(boards, "me", "them", false);
    assert_eq!(r.wins, 1);
    assert_eq!(r.draws, 1);
    assert_eq!(r.losses, 1);
    assert_eq!(r.total, 3);
    assert_eq!(r.total, r.wins + r.draws + r.losses);
    assert_eq!(r.boards.len(), 3);
    // delta = losses - wins = 0: the headline is a tie.
    assert_eq!(headline(r.wins, r.losses), Headline::Tie);
}

#[test]
fn default_order_puts_best_gap_first() {
    let boards = vec![board("h1", 10, 12), board("h2", 8, 8), board("h3", 20, 15)];
    let r = aggregate(boards, "me", "them", false);
    // Ascending by gap: h3 (trailing), h2 (even), h1 (leading); the default
    // presentation reverses that.
    assert_eq!(r.boards[0].hole, "h1");
    assert_eq!(r.boards[1].hole, "h2");
    assert_eq!(r.boards[2].hole, "h3");
}

#[test]
fn reverse_flag_keeps_ascending_order() {
    let boards = vec![board("h1", 10, 12), board("h2", 8, 8), board("h3", 20, 15)];
    let r = aggregate(boards, "me", "them", true);
    assert_eq!(r.boards[0].hole, "h3");
    assert_eq!(r.boards[1].hole, "h2");
    assert_eq!(r.boards[2].hole, "h1");
}

#[test]
fn boards_missing_a_participant_are_dropped() {
    let subs = vec![mk_sub("me", 10, T0)];
    let roster = vec![String::from("me"), String::from("them")];
    let lonely = reconstruct_board(String::from("h4"), subs, Metric::Bytes, CUT, &roster);
    let boards = vec![board("h1", 10, 12), lonely];
    let r = aggregate(boards, "me", "them", false);
    assert_eq!(r.total, 1);
    assert_eq!(r.boards.len(), 1);
    assert_eq!(r.boards[0].hole, "h1");
}

#[test]
fn empty_input_gives_empty_report() {
    let r = aggregate(vec![], "me", "them", false);
    assert_eq!(r.total, 0);
    assert_eq!(r.wins, 0);
    assert_eq!(r.draws, 0);
    assert_eq!(r.losses, 0);
    assert!(r.boards.is_empty());
    assert_eq!(headline(r.wins, r.losses), Headline::Tie);
}

#[test]
fn length_for_reports_absent_as_max() {
    let b = board("h1", 10, 12);
    assert_eq!(length_for(&b, "me"), 10);
    assert_eq!(length_for(&b, "them"), 12);
    assert_eq!(length_for(&b, "nobody"), usize::MAX);
}

#[test]
fn sort_score_adds_sole_leader_bonus() {
    let b = board("h1", 10, 12);
    // me is the sole leader: 1000.0000 points, scaled, plus the bonus unit.
    assert_eq!(sort_score(&b, "me"), 10_000_001);
    // them: 10 / 12 * 1000 = 833.3333 points, scaled, no bonus.
    assert_eq!(sort_score(&b, "them"), 8_333_333);
    assert_eq!(sort_score(&b, "nobody"), 0);
}

#[test]
fn gap_ties_break_by_own_standing_then_input_order() {
    // Two drawn boards: gaps are both 0, me's standing equal as well
    // (leader on both), so the incoming order decides; the default
    // presentation reverses it.
    let boards = vec![board("d1", 9, 9), board("d2", 7, 7)];
    let r = aggregate(boards, "me", "them", false);
    assert_eq!(r.boards[0].hole, "d2");
    assert_eq!(r.boards[1].hole, "d1");
    let boards = vec![board("d1", 9, 9), board("d2", 7, 7)];
    let r = aggregate(boards, "me", "them", true);
    assert_eq!(r.boards[0].hole, "d1");
    assert_eq!(r.boards[1].hole, "d2");
}
