use golfboard::model::{Metric, Submission, LEADER_SCORE};
use golfboard::reconstruct::{
    best_per_golfer, narrow_board, qualifying, ranking_order, reconstruct_board, score_board,
};

fn mk_sub(golfer: &str, bytes: usize, chars: usize, scoring: &str, submitted: &str) -> Submission {
    Submission {
        hole: String::from("quine"),
        golfer: String::from(golfer),
        lang: String::from("rust"),
        scoring: String::from(scoring),
        bytes,
        chars,
        submitted: String::from(submitted),
    }
}

fn roster_of(names: &[&str]) -> Vec<String> {
    names.iter().map(|n| String::from(*n)).collect()
}

const T0: &str = "2025-01-01 00:00:00.000000";
const T1: &str = "2025-01-02 00:00:00.000000";
const T2: &str = "2025-01-03 00:00:00.000000";
const CUT: &str = "2025z";

#[test]
fn shared_minimum_board() {
    // Three golfers, two sharing the minimal length; the earlier submission
    // of the two wins the ranking-order tie, nobody is a sole leader.
    let subs = vec![
        mk_sub("alice", 10, 11, "bytes", T1),
        mk_sub("bob", 10, 11, "bytes", T0),
        mk_sub("carol", 12, 13, "bytes", T2),
    ];
    let roster = roster_of(&["alice", "bob", "carol"]);
    let b = reconstruct_board(String::from("quine"), subs, Metric::Bytes, CUT, &roster);

    assert_eq!(b.leader_length, 10);
    assert_eq!(b.entries.len(), 3);
    assert_eq!(b.entries[0].golfer, "bob");
    assert_eq!(b.entries[1].golfer, "alice");
    assert_eq!(b.entries[2].golfer, "carol");
    assert_eq!(b.entries[0].rank, 1);
    assert_eq!(b.entries[1].rank, 1);
    assert_eq!(b.entries[2].rank, 3);
    assert_eq!(b.entries[0].score, LEADER_SCORE);
    assert_eq!(b.entries[1].score, LEADER_SCORE);
    // 10 / 12 * 1000 = 833.3333 points, rounded at the fourth decimal.
    assert_eq!(b.entries[2].score, 8_333_333);
}

#[test]
fn sole_leader_board() {
    // A strict minimum gets the sentinel rank 0; the runner-up keeps the
    // positional rank 2 (the correction rewrites position 0 only).
    let subs = vec![
        mk_sub("alice", 10, 10, "bytes", T0),
        mk_sub("bob", 15, 15, "bytes", T1),
    ];
    let roster = roster_of(&["alice", "bob"]);
    let b = reconstruct_board(String::from("quine"), subs, Metric::Bytes, CUT, &roster);

    assert_eq!(b.entries.len(), 2);
    assert_eq!(b.entries[0].golfer, "alice");
    assert_eq!(b.entries[0].rank, 0);
    assert_eq!(b.entries[1].golfer, "bob");
    assert_eq!(b.entries[1].rank, 2);
    assert_eq!(b.entries[0].score, LEADER_SCORE);
    assert_eq!(b.entries[1].score, 6_666_667);
    assert_eq!(b.leader_length, 10);
}

#[test]
fn cutoff_excludes_later_submissions() {
    let subs = vec![
        mk_sub("alice", 20, 20, "bytes", "2024-06-01 10:00:00.000000"),
        mk_sub("alice", 10, 10, "bytes", "2025-06-01 10:00:00.000000"),
        mk_sub("bob", 15, 15, "bytes", "2024-07-01 10:00:00.000000"),
    ];
    let roster = roster_of(&["alice", "bob"]);
    // Inclusive year 2024: alice's shorter 2025 solution does not exist yet.
    let b = reconstruct_board(String::from("quine"), subs, Metric::Bytes, "2024z", &roster);
    assert_eq!(b.leader_length, 15);
    assert_eq!(b.entries[0].golfer, "bob");
    assert_eq!(b.entries[0].rank, 0);
    assert_eq!(b.entries[1].golfer, "alice");
    assert_eq!(b.entries[1].length, 20);
}

#[test]
fn metric_tag_filters_submissions() {
    let subs = vec![
        mk_sub("alice", 10, 10, "chars", T0),
        mk_sub("bob", 15, 15, "bytes", T1),
    ];
    let q = qualifying(subs, Metric::Bytes, CUT);
    assert_eq!(q.len(), 1);
    assert_eq!(q[0].golfer, "bob");
}

#[test]
fn chars_metric_uses_char_length() {
    let subs = vec![
        mk_sub("alice", 30, 10, "chars", T0),
        mk_sub("bob", 20, 15, "chars", T1),
    ];
    let roster = roster_of(&["alice", "bob"]);
    let b = reconstruct_board(String::from("quine"), subs, Metric::Chars, CUT, &roster);
    assert_eq!(b.leader_length, 10);
    assert_eq!(b.entries[0].golfer, "alice");
    assert_eq!(b.entries[0].length, 10);
    assert_eq!(b.entries[1].length, 15);
}

#[test]
fn best_per_golfer_keeps_minimum() {
    let subs = vec![
        mk_sub("alice", 20, 20, "bytes", T0),
        mk_sub("alice", 10, 10, "bytes", T2),
        mk_sub("alice", 15, 15, "bytes", T1),
    ];
    let best = best_per_golfer(subs, Metric::Bytes);
    assert_eq!(best.len(), 1);
    assert_eq!(best[0].bytes, 10);
    assert_eq!(best[0].submitted, T2);
}

#[test]
fn best_per_golfer_breaks_length_tie_by_earliest() {
    let subs = vec![
        mk_sub("alice", 10, 10, "bytes", T1),
        mk_sub("alice", 10, 10, "bytes", T0),
        mk_sub("alice", 10, 10, "bytes", T2),
    ];
    let best = best_per_golfer(subs, Metric::Bytes);
    assert_eq!(best.len(), 1);
    assert_eq!(best[0].submitted, T0);
}

#[test]
fn ranking_order_sorts_by_length_then_time() {
    let subs = vec![
        mk_sub("carol", 12, 12, "bytes", T0),
        mk_sub("alice", 10, 10, "bytes", T1),
        mk_sub("bob", 10, 10, "bytes", T0),
    ];
    let ord = ranking_order(subs, Metric::Bytes);
    assert_eq!(ord[0].golfer, "bob");
    assert_eq!(ord[1].golfer, "alice");
    assert_eq!(ord[2].golfer, "carol");
}

#[test]
fn reconstruction_is_deterministic() {
    let mk = || {
        vec![
            mk_sub("alice", 10, 11, "bytes", T1),
            mk_sub("bob", 10, 11, "bytes", T0),
            mk_sub("carol", 12, 13, "bytes", T2),
        ]
    };
    let roster = roster_of(&["alice", "bob", "carol"]);
    let b1 = reconstruct_board(String::from("quine"), mk(), Metric::Bytes, CUT, &roster);
    let b2 = reconstruct_board(String::from("quine"), mk(), Metric::Bytes, CUT, &roster);
    assert_eq!(b1, b2);
}

#[test]
fn narrowing_preserves_retained_entries() {
    let subs = vec![
        mk_sub("alice", 10, 11, "bytes", T1),
        mk_sub("bob", 10, 11, "bytes", T0),
        mk_sub("carol", 12, 13, "bytes", T2),
    ];
    let full_roster = roster_of(&["alice", "bob", "carol"]);
    let full = reconstruct_board(String::from("quine"), subs, Metric::Bytes, CUT, &full_roster);
    let full_leader = full.leader_length;
    let carol_entry = (
        full.entries[2].golfer.clone(),
        full.entries[2].length,
        full.entries[2].rank,
        full.entries[2].score,
    );

    let narrow_roster = roster_of(&["carol"]);
    let narrowed = narrow_board(full, &narrow_roster);
    // Rank, score and leader length computed against the full field survive
    // the display filter untouched.
    assert_eq!(narrowed.leader_length, full_leader);
    assert_eq!(narrowed.entries.len(), 1);
    assert_eq!(narrowed.entries[0].golfer, carol_entry.0);
    assert_eq!(narrowed.entries[0].length, carol_entry.1);
    assert_eq!(narrowed.entries[0].rank, 3);
    assert_eq!(narrowed.entries[0].score, 8_333_333);
}

#[test]
fn empty_board_has_absent_leader_length() {
    let roster = roster_of(&["alice"]);
    let b = reconstruct_board(String::from("quine"), vec![], Metric::Bytes, CUT, &roster);
    assert_eq!(b.entries.len(), 0);
    assert_eq!(b.leader_length, usize::MAX);
}

#[test]
fn score_board_requires_no_entries_for_empty_input() {
    let b = score_board(String::from("quine"), vec![], Metric::Bytes);
    assert_eq!(b.entries.len(), 0);
    assert_eq!(b.leader_length, usize::MAX);
}

#[test]
fn equal_lengths_everywhere_share_rank_one() {
    let subs = vec![
        mk_sub("alice", 10, 10, "bytes", T0),
        mk_sub("bob", 10, 10, "bytes", T1),
        mk_sub("carol", 10, 10, "bytes", T2),
    ];
    let roster = roster_of(&["alice", "bob", "carol"]);
    let b = reconstruct_board(String::from("quine"), subs, Metric::Bytes, CUT, &roster);
    // No sole leader: the shared minimum keeps rank 1 for everyone.
    for e in &b.entries {
        assert_eq!(e.rank, 1);
        assert_eq!(e.score, LEADER_SCORE);
    }
}
