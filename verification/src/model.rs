//! The data model: raw submissions, scored entries, boards.
//!
//! A score is a rational in (0, 1000] with 1000 for the hole leader. To keep
//! the library free of floating point it is carried as an integer count of
//! ten-thousandths of a point: the leader's 1000.0 is `LEADER_SCORE` units,
//! and an entry of length `l` on a board whose leader length is `g` scores
//! `round(g * 10_000_000 / l)` units, i.e. `g / l * 1000` points rounded to
//! the fourth decimal. That resolution is exactly the one the comparative
//! ordering uses.

use vstd::prelude::*;

verus! {

/// Which size measure defines "shorter is better" for a run.
#[derive(Clone, Copy, Debug, PartialEq, Eq, Structural)]
pub enum Metric {
    Bytes,
    Chars,
}

/// The scoring-metric tag that a submission must carry to count under `m`.
pub open spec fn metric_tag(m: Metric) -> Seq<char> {
    match m {
        Metric::Bytes => "bytes"@,
        Metric::Chars => "chars"@,
    }
}

/// The tag of the metric, as a string.
pub fn metric_tag_str(m: Metric) -> (r: &'static str)
    ensures
        r@ == metric_tag(m),
{
    match m {
        Metric::Bytes => "bytes",
        Metric::Chars => "chars",
    }
}

/// Reads a scoring-metric name. Any string other than the two known tags is
/// a configuration error, reported as `None`.
pub fn parse_metric(s: &str) -> (r: Option<Metric>)
    ensures
        r == Some(Metric::Bytes) <==> s@ == metric_tag(Metric::Bytes),
        r == Some(Metric::Chars) <==> s@ == metric_tag(Metric::Chars),
        r is None <==> (s@ != metric_tag(Metric::Bytes) && s@ != metric_tag(Metric::Chars)),
{
    proof {
        reveal_strlit("bytes");
        reveal_strlit("chars");
        assert("bytes"@[0] != "chars"@[0]);
        assert("bytes"@ != "chars"@);
    }
    if crate::lexord::str_eq(s, "bytes") {
        Some(Metric::Bytes)
    } else if crate::lexord::str_eq(s, "chars") {
        Some(Metric::Chars)
    } else {
        None
    }
}

/// One raw record of the append-only submission log, immutable input.
pub struct Submission {
    /// Hole identifier.
    pub hole: String,
    /// Golfer handle.
    pub golfer: String,
    /// Source language tag; carried through, never read by the core.
    pub lang: String,
    /// The scoring-metric tag this submission was made under.
    pub scoring: String,
    /// Size in bytes.
    pub bytes: usize,
    /// Size in characters.
    pub chars: usize,
    /// Fixed-width, lexicographically sortable timestamp text.
    pub submitted: String,
}

/// A submission's length under the selected metric.
pub open spec fn length_of(s: Submission, m: Metric) -> usize {
    match m {
        Metric::Bytes => s.bytes,
        Metric::Chars => s.chars,
    }
}

/// Executable twin of [`length_of`].
pub fn submission_length(s: &Submission, m: Metric) -> (r: usize)
    ensures
        r == length_of(*s, m),
{
    match m {
        Metric::Bytes => s.bytes,
        Metric::Chars => s.chars,
    }
}

/// The score units of the hole leader: 1000 points at four decimals.
pub const LEADER_SCORE: u64 = 10_000_000;

/// The length a board reports for a golfer without an entry; also the
/// leader length of a board with no qualifying submissions.
pub const ABSENT_LENGTH: usize = usize::MAX;

/// `a / b` rounded half-up, for non-negative `a` and positive `b`.
pub open spec fn rounded_div(a: int, b: int) -> int {
    (2 * a + b) / (2 * b)
}

/// The score, in ten-thousandths of a point, of an entry of length `length`
/// on a board with leader length `leader`.
pub open spec fn score_of(leader: int, length: int) -> int {
    if length == 0 {
        0
    } else {
        rounded_div(leader * (LEADER_SCORE as int), length)
    }
}

/// The leader's own entry scores exactly 1000 points.
pub proof fn lemma_score_of_leader(leader: int)
    requires
        leader >= 1,
    ensures
        score_of(leader, leader) == LEADER_SCORE,
{
    let u = LEADER_SCORE as int;
    assert((2 * (leader * u) + leader) / (2 * leader) == u) by (nonlinear_arith)
        requires
            leader >= 1,
            u == 10_000_000,
    ;
}

/// Scores never exceed the leader's when the entry is no shorter than the
/// leader.
pub proof fn lemma_score_of_bound(leader: int, length: int)
    requires
        0 <= leader <= length,
    ensures
        0 <= score_of(leader, length) <= LEADER_SCORE,
{
    if length != 0 {
        let u = LEADER_SCORE as int;
        assert(0 <= (2 * (leader * u) + length) / (2 * length) <= u) by (nonlinear_arith)
            requires
                0 <= leader <= length,
                length >= 1,
                u == 10_000_000,
        ;
    }
}

/// A longer entry never scores above a shorter one.
pub proof fn lemma_score_of_antitone(leader: int, l1: int, l2: int)
    requires
        0 <= leader,
        1 <= l1 <= l2,
    ensures
        score_of(leader, l1) >= score_of(leader, l2),
{
    let u = LEADER_SCORE as int;
    let a = leader * u;
    assert(a >= 0) by (nonlinear_arith)
        requires
            leader >= 0,
            u == 10_000_000,
            a == leader * u,
    ;
    // Cross-multiplied, (2a + l1) / (2 l1) dominates (2a + l2) / (2 l2).
    let k = (2 * a + l2) / (2 * l2);
    assert(k * (2 * l2) <= 2 * a + l2) by (nonlinear_arith)
        requires
            l2 >= 1,
            a >= 0,
            k == (2 * a + l2) / (2 * l2),
    ;
    assert(k * (2 * l1) <= 2 * a + l1) by (nonlinear_arith)
        requires
            1 <= l1 <= l2,
            a >= 0,
            k * (2 * l2) <= 2 * a + l2,
            k >= 0,
    ;
    assert((2 * a + l1) / (2 * l1) >= k) by (nonlinear_arith)
        requires
            l1 >= 1,
            k * (2 * l1) <= 2 * a + l1,
    ;
}

/// Executable score computation.
pub fn compute_score(leader: usize, length: usize) -> (r: u64)
    requires
        leader <= length,
    ensures
        r == score_of(leader as int, length as int),
        r <= LEADER_SCORE,
{
    proof {
        lemma_score_of_bound(leader as int, length as int);
    }
    if length == 0 {
        0
    } else {
        let a: u128 = (leader as u128) * (LEADER_SCORE as u128);
        let r: u128 = (2 * a + (length as u128)) / (2 * (length as u128));
        r as u64
    }
}

/// One golfer's surviving, ranked and scored entry on a board.
#[derive(Debug, PartialEq, Eq)]
pub struct ScoredSubmission {
    /// Golfer handle.
    pub golfer: String,
    /// Timestamp of the underlying submission.
    pub submitted: String,
    /// Length under the run's metric.
    pub length: usize,
    /// Competition rank; `0` is the sole-leader sentinel.
    pub rank: usize,
    /// Score in ten-thousandths of a point; the leader holds [`LEADER_SCORE`].
    pub score: u64,
}

/// One hole's reconstructed leaderboard.
#[derive(Debug, PartialEq, Eq)]
pub struct Board {
    /// Hole identifier.
    pub hole: String,
    /// Entries in ranking order, at most one per golfer.
    pub entries: Vec<ScoredSubmission>,
    /// Minimal length over the full field of qualifying submissions,
    /// `ABSENT_LENGTH` when there are none. Unaffected by narrowing.
    pub leader_length: usize,
}

/// Well-formedness of a board: entries are no shorter than the leader, carry
/// the score their length implies, and name each golfer at most once.
pub open spec fn board_wf(entries: Seq<ScoredSubmission>, leader_length: usize) -> bool {
    &&& forall|i: int|
        0 <= i < entries.len() ==> leader_length <= (#[trigger] entries[i]).length
    &&& forall|i: int|
        0 <= i < entries.len() ==> (#[trigger] entries[i]).score == score_of(
            leader_length as int,
            entries[i].length as int,
        )
    &&& forall|i: int, j: int|
        0 <= i < j < entries.len() ==> (#[trigger] entries[i]).golfer@ != (
        #[trigger] entries[j]).golfer@
}

} // verus!
