use golfboard::model::{Metric, Submission};
use golfboard::reconstruct::reconstruct_board;
use golfboard::render::{
    bar_layout, board_line, digit_count, headline, summary_layout, Headline, LengthDelta,
};

fn mk_sub(golfer: &str, bytes: usize, submitted: &str) -> Submission {
    Submission {
        hole: String::from("hole"),
        golfer: String::from(golfer),
        lang: String::from("rust"),
        scoring: String::from("bytes"),
        bytes,
        chars: bytes,
        submitted: String::from(submitted),
    }
}

const T0: &str = "2025-01-01 00:00:00.000000";
const T1: &str = "2025-01-02 00:00:00.000000";
const T2: &str = "2025-01-03 00:00:00.000000";
const CUT: &str = "2025z";

fn roster3() -> Vec<String> {
    vec![String::from("alice"), String::from("bob"), String::from("carol")]
}

#[test]
fn digit_counts() {
    assert_eq!(digit_count(0), 1);
    assert_eq!(digit_count(9), 1);
    assert_eq!(digit_count(10), 2);
    assert_eq!(digit_count(999), 3);
    assert_eq!(digit_count(1000), 4);
    assert_eq!(digit_count(123456), 6);
}

#[test]
fn headline_from_counts() {
    assert_eq!(headline(3, 1), Headline::Wins(2));
    assert_eq!(headline(1, 3), Headline::Losses(2));
    assert_eq!(headline(2, 2), Headline::Tie);
    assert_eq!(headline(0, 1), Headline::Losses(1));
}

#[test]
fn bar_markers_resolve_collisions_leftward() {
    let subs = vec![
        mk_sub("alice", 10, T1),
        mk_sub("bob", 10, T0),
        mk_sub("carol", 12, T2),
    ];
    let b = reconstruct_board(String::from("hole"), subs, Metric::Bytes, CUT, &roster3());
    // Entries in board order: bob (10), alice (10), carol (12); width 5.
    // bob: 10*4/10 = 4. alice: 4 taken, slides to 3. carol: 10*4/12 = 3,
    // taken, slides to 2.
    let cells = bar_layout(&b, 5).unwrap();
    assert_eq!(cells, vec![4, 3, 2]);
}

#[test]
fn bar_layout_fails_when_markers_run_off_the_edge() {
    let subs = vec![mk_sub("alice", 10, T0), mk_sub("bob", 10, T1)];
    let b = reconstruct_board(String::from("hole"), subs, Metric::Bytes, CUT, &roster3());
    // Width 1: both markers want cell 0; the second cannot be placed.
    assert!(bar_layout(&b, 1).is_none());
    assert!(bar_layout(&b, 2).is_some());
}

#[test]
fn board_line_markers_and_delta() {
    let subs = vec![
        mk_sub("alice", 10, T1),
        mk_sub("bob", 10, T0),
        mk_sub("carol", 12, T2),
    ];
    let b = reconstruct_board(String::from("hole"), subs, Metric::Bytes, CUT, &roster3());
    let line = board_line(&b, &roster3(), "alice", "carol", 5).unwrap();
    assert_eq!(line.markers.len(), 3);
    // Board order is bob, alice, carol; roster order alice, bob, carol.
    assert_eq!(line.markers[0].roster_index, 1);
    assert_eq!(line.markers[1].roster_index, 0);
    assert_eq!(line.markers[2].roster_index, 2);
    assert_eq!(line.markers[0].cell, 4);
    assert_eq!(line.markers[1].cell, 3);
    assert_eq!(line.markers[2].cell, 2);
    assert_eq!(line.me_length, 10);
    assert_eq!(line.them_length, 12);
    assert_eq!(line.delta, LengthDelta::Ahead(2));
    assert_eq!(line.leader_length, 10);
}

#[test]
fn board_line_delta_signs() {
    let mk = |me_len: usize, them_len: usize| {
        let subs = vec![mk_sub("alice", me_len, T0), mk_sub("bob", them_len, T1)];
        let roster = vec![String::from("alice"), String::from("bob")];
        let b = reconstruct_board(String::from("hole"), subs, Metric::Bytes, CUT, &roster);
        board_line(&b, &roster, "alice", "bob", 30).unwrap()
    };
    assert_eq!(mk(10, 12).delta, LengthDelta::Ahead(2));
    assert_eq!(mk(12, 12).delta, LengthDelta::Tie);
    assert_eq!(mk(15, 12).delta, LengthDelta::Behind(3));
}

#[test]
fn summary_block_geometry() {
    let s = summary_layout("alice", "bob", "rust", "2025-03-31", 1, 1, 1, 33, 20);
    // W / D / L figure: three one-digit counts and six separator columns.
    assert_eq!(s.wdl_width, 9);
    // 20 and 9 differ in parity: the bar widens to 21.
    assert_eq!(s.bar_width, 21);
    // 33 - (4 + 1 + 5 + 1 + 10) = 12 spaces before "rust as of 2025-03-31".
    assert_eq!(s.indent, 12);
    assert_eq!(s.lcenter, 6);
    assert_eq!(s.rcenter, 6);
    // "alice vs. bob" is 13 columns; 5 + 3 + 5 + 9 is even, so the long
    // variant is kept.
    assert_eq!(s.names, "alice vs. bob");
    // (33 * 2 + 4 + 21 - 13) / 2.
    assert_eq!(s.names_indent, 39);
    assert_eq!(s.headline, Headline::Tie);
}

#[test]
fn summary_block_picks_short_name_variant_for_parity() {
    let s = summary_layout("alice", "bobb", "rust", "2025-03-31", 1, 1, 1, 33, 20);
    // 5 + 4 + 5 + 9 is odd: the short variant restores the parity.
    assert_eq!(s.names, "alice v. bobb");
}

#[test]
fn summary_counts_widths_follow_digit_counts() {
    let s = summary_layout("a", "b", "rust", "2025", 12, 0, 345, 33, 20);
    // 2 + 1 + 3 digits + 6 separator columns.
    assert_eq!(s.wdl_width, 12);
    assert_eq!(s.bar_width, 20);
    assert_eq!(s.headline, Headline::Losses(333));
}
