//! Report layout.
//!
//! The renderer's arithmetic, verified: where each golfer's marker lands on
//! the positional bar chart (with deterministic leftward collision
//! resolution), the per-board delta annotation, and the centering widths of
//! the trailing summary block. Turning the layout into coloured text is
//! presentation and happens outside the library.

use vstd::prelude::*;
use vstd::string::StrSliceExecFns;
use vstd::string::StringExecFns;

use crate::aggregate::{length_for, spec_length_for};
use crate::model::{board_wf, Board, ScoredSubmission};

verus! {

// ---------------------------------------------------------------------------
// Headline and per-board delta
// ---------------------------------------------------------------------------
/// The report's verdict, computed from `delta = losses - wins`.
#[derive(Clone, Copy, Debug, PartialEq, Eq, Structural)]
pub enum Headline {
    /// `me` trails by this many boards.
    Losses(usize),
    /// As many wins as losses.
    Tie,
    /// `me` leads by this many boards.
    Wins(usize),
}

pub open spec fn spec_headline(wins: int, losses: int) -> Headline {
    if losses > wins {
        Headline::Losses((losses - wins) as usize)
    } else if losses == wins {
        Headline::Tie
    } else {
        Headline::Wins((wins - losses) as usize)
    }
}

/// The summary verdict for the given counts.
pub fn headline(wins: usize, losses: usize) -> (h: Headline)
    ensures
        h == spec_headline(wins as int, losses as int),
{
    if losses > wins {
        Headline::Losses(losses - wins)
    } else if losses == wins {
        Headline::Tie
    } else {
        Headline::Wins(wins - losses)
    }
}

/// One board's length comparison, `me` against `them`.
#[derive(Clone, Copy, Debug, PartialEq, Eq, Structural)]
pub enum LengthDelta {
    /// `me` is shorter by this many units.
    Ahead(usize),
    /// Equal lengths.
    Tie,
    /// `me` is longer by this many units.
    Behind(usize),
}

pub open spec fn spec_length_delta(me_len: int, them_len: int) -> LengthDelta {
    if me_len < them_len {
        LengthDelta::Ahead((them_len - me_len) as usize)
    } else if me_len == them_len {
        LengthDelta::Tie
    } else {
        LengthDelta::Behind((me_len - them_len) as usize)
    }
}

// ---------------------------------------------------------------------------
// Bar chart cells
// ---------------------------------------------------------------------------
/// The candidate cell of an entry: `floor(score / 1000 * (width - 1))`,
/// which for a score of `leader / length * 1000` is exactly
/// `leader * (width - 1) / length`.
pub open spec fn cell_of(leader: int, length: int, width: int) -> int {
    if length == 0 {
        0
    } else {
        leader * (width - 1) / length
    }
}

/// Cell `c` is already taken by an earlier marker.
pub open spec fn occupied(cells: Seq<usize>, c: int) -> bool {
    exists|k: int| 0 <= k < cells.len() && (#[trigger] cells[k]) as int == c
}

/// Leftward collision resolution: the first free cell at or below `c`, or
/// `None` when every cell down to `0` is taken.
pub open spec fn resolve_cell(cells: Seq<usize>, c: int) -> Option<int>
    decreases c,
{
    if !occupied(cells, c) {
        Some(c)
    } else if c <= 0 {
        None
    } else {
        resolve_cell(cells, c - 1)
    }
}

/// The resolved cells of the board's entries, processed in board order; an
/// entry whose collision resolution runs off the left edge yields `None`.
pub open spec fn spec_layout(entries: Seq<ScoredSubmission>, leader: int, width: int) -> Option<
    Seq<usize>,
>
    decreases entries.len(),
{
    if entries.len() == 0 {
        Some(Seq::empty())
    } else {
        match spec_layout(entries.drop_last(), leader, width) {
            None => None,
            Some(cells) => match resolve_cell(
                cells,
                cell_of(leader, entries.last().length as int, width),
            ) {
                None => None,
                Some(c) => Some(cells.push(c as usize)),
            },
        }
    }
}

/// A failed layout of a prefix dooms the whole board.
proof fn lemma_layout_prefix_none(entries: Seq<ScoredSubmission>, leader: int, width: int, k: int)
    requires
        0 <= k <= entries.len(),
        spec_layout(entries.take(k), leader, width) is None,
    ensures
        spec_layout(entries, leader, width) is None,
    decreases entries.len() - k,
{
    if k == entries.len() {
        assert(entries.take(k) =~= entries);
    } else {
        assert(entries.take(k + 1).drop_last() =~= entries.take(k));
        lemma_layout_prefix_none(entries, leader, width, k + 1);
    }
}

fn contains_cell(cells: &Vec<usize>, c: usize) -> (r: bool)
    ensures
        r == occupied(cells@, c as int),
{
    let n = cells.len();
    let mut j: usize = 0;
    while j < n
        invariant
            j <= n,
            n == cells@.len(),
            forall|k: int| 0 <= k < j ==> (#[trigger] cells@[k]) as int != c as int,
        decreases n - j,
    {
        if cells[j] == c {
            return true;
        }
        j += 1;
    }
    false
}

/// Decrements from the candidate cell to the first free one.
fn resolve_slot(cells: &Vec<usize>, cand: usize) -> (r: Option<usize>)
    ensures
        match r {
            Some(c) => resolve_cell(cells@, cand as int) == Some(c as int) && c <= cand,
            None => resolve_cell(cells@, cand as int) is None,
        },
{
    let mut c = cand;
    loop
        invariant
            c <= cand,
            resolve_cell(cells@, cand as int) == resolve_cell(cells@, c as int),
        decreases c,
    {
        if !contains_cell(cells, c) {
            return Some(c);
        }
        if c == 0 {
            return None;
        }
        c -= 1;
    }
}

/// Computes the bar chart cells for a board: each entry's marker at its
/// candidate cell, moved left past occupied cells; `None` when a marker
/// cannot be placed.
pub fn bar_layout(b: &Board, width: usize) -> (r: Option<Vec<usize>>)
    requires
        width >= 1,
        board_wf(b.entries@, b.leader_length),
    ensures
        match r {
            Some(v) => spec_layout(b.entries@, b.leader_length as int, width as int) == Some(v@)
                && v@.len() == b.entries@.len(),
            None => spec_layout(b.entries@, b.leader_length as int, width as int) is None,
        },
{
    let ghost es = b.entries@;
    let ghost leader = b.leader_length as int;
    let n = b.entries.len();
    let mut cells: Vec<usize> = Vec::new();
    let mut i: usize = 0;
    proof {
        assert(es.take(0) =~= Seq::<ScoredSubmission>::empty());
    }
    while i < n
        invariant
            i <= n,
            n == es.len(),
            width >= 1,
            leader == b.leader_length as int,
            es == b.entries@,
            board_wf(es, b.leader_length),
            spec_layout(es.take(i as int), leader, width as int) == Some(cells@),
            cells@.len() == i,
        decreases n - i,
    {
        let len_i = b.entries[i].length;
        let cand: usize = if len_i == 0 {
            0
        } else {
            let w1: u128 = (width - 1) as u128;
            proof {
                assert((b.leader_length as u128) * w1
                    <= 0xFFFFFFFF_FFFFFFFF_FFFFFFFF_FFFFFFFFu128) by (nonlinear_arith)
                    requires
                        b.leader_length as u128 <= 0xFFFF_FFFF_FFFF_FFFFu128,
                        w1 <= 0xFFFF_FFFF_FFFF_FFFFu128,
                ;
            }
            let q: u128 = (b.leader_length as u128) * w1 / (len_i as u128);
            proof {
                let li = len_i as int;
                let ld = b.leader_length as int;
                let wi = width as int - 1;
                assert(ld * wi <= li * wi) by (nonlinear_arith)
                    requires
                        0 <= ld <= li,
                        wi >= 0,
                ;
                assert(li * wi / li == wi) by (nonlinear_arith)
                    requires
                        li >= 1,
                        wi >= 0,
                ;
                vstd::arithmetic::div_mod::lemma_div_is_ordered(ld * wi, li * wi, li);
                assert(q as int == ld * wi / li);
                assert(q <= w1);
            }
            q as usize
        };
        proof {
            assert(cand as int == cell_of(leader, es[i as int].length as int, width as int));
        }
        match resolve_slot(&cells, cand) {
            Some(c) => {
                cells.push(c);
            },
            None => {
                proof {
                    assert(es.take(i + 1).drop_last() =~= es.take(i as int));
                    assert(es.take(i + 1).last() == es[i as int]);
                    assert(spec_layout(es.take(i + 1), leader, width as int) is None);
                    lemma_layout_prefix_none(es, leader, width as int, i + 1);
                }
                return None;
            },
        }
        proof {
            assert(es.take(i + 1).drop_last() =~= es.take(i as int));
            assert(es.take(i + 1).last() == es[i as int]);
            assert(spec_layout(es.take(i + 1), leader, width as int) == Some(cells@));
        }
        i += 1;
    }
    proof {
        assert(es.take(n as int) =~= es);
    }
    Some(cells)
}

// ---------------------------------------------------------------------------
// Markers
// ---------------------------------------------------------------------------
/// Index of the first roster entry naming golfer `g`, or `-1`.
pub open spec fn spec_roster_index(roster: Seq<String>, g: Seq<char>) -> int
    decreases roster.len(),
{
    if roster.len() == 0 {
        -1
    } else if roster[0]@ == g {
        0
    } else {
        let r = spec_roster_index(roster.drop_first(), g);
        if r == -1 {
            -1
        } else {
            r + 1
        }
    }
}

proof fn lemma_roster_index_props(roster: Seq<String>, g: Seq<char>)
    ensures
        spec_roster_index(roster, g) == -1 ==> forall|k: int|
            0 <= k < roster.len() ==> (#[trigger] roster[k])@ != g,
        spec_roster_index(roster, g) != -1 ==> {
            let i = spec_roster_index(roster, g);
            &&& 0 <= i < roster.len()
            &&& roster[i]@ == g
            &&& forall|k: int| 0 <= k < i ==> (#[trigger] roster[k])@ != g
        },
    decreases roster.len(),
{
    if roster.len() > 0 && roster[0]@ != g {
        lemma_roster_index_props(roster.drop_first(), g);
        assert(forall|k: int| 1 <= k < roster.len() ==> roster[k] == roster.drop_first()[k - 1]);
    }
}

/// First roster position of golfer `g`, if the roster names the golfer.
pub fn roster_index(roster: &Vec<String>, g: &str) -> (r: Option<usize>)
    ensures
        match r {
            Some(i) => spec_roster_index(roster@, g@) == i,
            None => spec_roster_index(roster@, g@) == -1,
        },
{
    let n = roster.len();
    let mut j: usize = 0;
    while j < n
        invariant
            j <= n,
            n == roster@.len(),
            forall|k: int| 0 <= k < j ==> (#[trigger] roster@[k])@ != g@,
        decreases n - j,
    {
        if crate::lexord::str_eq(roster[j].as_str(), g) {
            proof {
                lemma_roster_index_props(roster@, g@);
            }
            return Some(j);
        }
        j += 1;
    }
    proof {
        lemma_roster_index_props(roster@, g@);
    }
    None
}

/// One marker of the bar chart: which tracked golfer, at which cell.
#[derive(Clone, Copy, Debug, PartialEq, Eq, Structural)]
pub struct Marker {
    /// The golfer's fixed position in the tracked-participant roster,
    /// which selects the marker's colour.
    pub roster_index: usize,
    /// The resolved bar cell.
    pub cell: usize,
}

/// The layout of one report line: the markers of the bar chart, the length
/// delta annotation and the lengths it cites.
#[derive(Debug, PartialEq, Eq)]
pub struct BoardLine {
    /// One marker per surviving entry, in board order.
    pub markers: Vec<Marker>,
    /// The annotation, `me` against `them`.
    pub delta: LengthDelta,
    /// `me`'s length on this board.
    pub me_length: usize,
    /// `them`'s length on this board.
    pub them_length: usize,
    /// The full field's minimal length.
    pub leader_length: usize,
}

/// Lays out one board's report line. `None` when a marker cannot be placed
/// on a bar of the given width.
pub fn board_line(b: &Board, roster: &Vec<String>, me: &str, them: &str, width: usize) -> (r:
    Option<BoardLine>)
    requires
        width >= 1,
        board_wf(b.entries@, b.leader_length),
        forall|i: int|
            0 <= i < b.entries@.len() ==> crate::reconstruct::roster_has(
                roster@,
                (#[trigger] b.entries@[i]).golfer@,
            ),
    ensures
        match r {
            Some(line) => {
                let cells = spec_layout(b.entries@, b.leader_length as int, width as int);
                &&& cells is Some
                &&& line.markers@.len() == b.entries@.len()
                &&& forall|i: int|
                    0 <= i < line.markers@.len() ==> (#[trigger] line.markers@[i]).cell
                        == cells->Some_0[i]
                &&& forall|i: int|
                    0 <= i < line.markers@.len() ==> (#[trigger] line.markers@[i]).roster_index
                        == spec_roster_index(roster@, b.entries@[i].golfer@)
                &&& line.me_length as int == spec_length_for(b.entries@, me@)
                &&& line.them_length as int == spec_length_for(b.entries@, them@)
                &&& line.delta == spec_length_delta(
                    spec_length_for(b.entries@, me@),
                    spec_length_for(b.entries@, them@),
                )
                &&& line.leader_length == b.leader_length
            },
            None => spec_layout(b.entries@, b.leader_length as int, width as int) is None,
        },
{
    let cells = match bar_layout(b, width) {
        None => {
            return None;
        },
        Some(v) => v,
    };
    let n = b.entries.len();
    let mut markers: Vec<Marker> = Vec::new();
    let mut i: usize = 0;
    while i < n
        invariant
            i <= n,
            n == b.entries@.len(),
            cells@.len() == n,
            markers@.len() == i,
            forall|k: int|
                0 <= k < b.entries@.len() ==> crate::reconstruct::roster_has(
                    roster@,
                    (#[trigger] b.entries@[k]).golfer@,
                ),
            forall|k: int| 0 <= k < i ==> (#[trigger] markers@[k]).cell == cells@[k],
            forall|k: int|
                0 <= k < i ==> (#[trigger] markers@[k]).roster_index == spec_roster_index(
                    roster@,
                    b.entries@[k].golfer@,
                ),
        decreases n - i,
    {
        let idx = match roster_index(roster, b.entries[i].golfer.as_str()) {
            Some(j) => j,
            None => {
                // The precondition puts every board golfer on the roster.
                proof {
                    lemma_roster_index_props(roster@, b.entries@[i as int].golfer@);
                    let w = choose|w: int|
                        0 <= w < roster@.len() && roster@[w]@ == b.entries@[i as int].golfer@;
                    assert(false);
                }
                0
            },
        };
        markers.push(Marker { roster_index: idx, cell: cells[i] });
        i += 1;
    }
    let me_length = length_for(b, me);
    let them_length = length_for(b, them);
    let delta = if me_length < them_length {
        LengthDelta::Ahead(them_length - me_length)
    } else if me_length == them_length {
        LengthDelta::Tie
    } else {
        LengthDelta::Behind(me_length - them_length)
    };
    Some(
        BoardLine {
            markers,
            delta,
            me_length,
            them_length,
            leader_length: b.leader_length,
        },
    )
}

// ---------------------------------------------------------------------------
// Digit counts and the summary block
// ---------------------------------------------------------------------------
/// The decimal digit count of `n` (one digit for `0`).
pub open spec fn spec_digits(n: int) -> int
    decreases n,
{
    if n < 10 {
        1
    } else {
        1 + spec_digits(n / 10)
    }
}

pub open spec fn pow10(k: nat) -> int
    decreases k,
{
    if k == 0 {
        1
    } else {
        10 * pow10((k - 1) as nat)
    }
}

/// A number below `10^k` has at most `k` digits.
pub proof fn lemma_digits_bound(n: int, k: int)
    requires
        1 <= k,
        0 <= n < pow10(k as nat),
    ensures
        spec_digits(n) <= k,
    decreases k,
{
    if n >= 10 {
        assert(pow10(k as nat) == 10 * pow10((k - 1) as nat));
        assert(n / 10 < pow10((k - 1) as nat)) by (nonlinear_arith)
            requires
                n < 10 * pow10((k - 1) as nat),
                n >= 10,
        ;
        lemma_digits_bound(n / 10, k - 1);
    }
}

/// Decimal width of a number as printed.
pub fn digit_count(n: usize) -> (d: usize)
    ensures
        d == spec_digits(n as int),
        d >= 1,
{
    let mut x = n;
    let mut d: usize = 1;
    while x >= 10
        invariant
            d >= 1,
            x as int + d as int <= n as int + 1,
            spec_digits(n as int) == d - 1 + spec_digits(x as int),
        decreases x,
    {
        proof {
            assert(10 * ((x as int) / 10) <= x as int) by (nonlinear_arith)
                requires
                    x >= 10,
            ;
        }
        x = x / 10;
        d = d + 1;
    }
    d
}

/// The width of the `W / D / L` figure: the three counts and the
/// separators around them.
pub open spec fn spec_wdl_width(wins: int, draws: int, losses: int) -> int {
    spec_digits(wins) + spec_digits(draws) + spec_digits(losses) + 6
}

/// The bar width actually used: widened by one when its parity differs
/// from the `W / D / L` figure's, so the figure can be centered exactly.
pub open spec fn spec_adjusted_bar(bar_width: int, wdl_width: int) -> int {
    if (bar_width + wdl_width) % 2 == 1 {
        bar_width + 1
    } else {
        bar_width
    }
}

/// The banner naming the two golfers, in the variant whose parity lets it
/// center over the `W / D / L` figure.
pub open spec fn spec_names(me: Seq<char>, them: Seq<char>, wdl_width: int) -> Seq<char> {
    if (me.len() + them.len() + 5 + wdl_width) % 2 == 0 {
        me + " vs. "@ + them
    } else {
        me + " v. "@ + them
    }
}

/// The computed geometry of the summary block.
#[derive(Debug, PartialEq, Eq)]
pub struct SummaryLayout {
    /// Width of the `W / D / L` figure.
    pub wdl_width: usize,
    /// The bar width after parity adjustment; every rendered bar uses it.
    pub bar_width: usize,
    /// Leading spaces before the "<lang> as of <cutoff>" tag.
    pub indent: usize,
    /// Spaces left of the `W / D / L` figure within the bar column.
    pub lcenter: usize,
    /// Spaces right of the `W / D / L` figure within the bar column.
    pub rcenter: usize,
    /// The centered banner text naming the two golfers.
    pub names: String,
    /// Leading spaces before the banner.
    pub names_indent: usize,
    /// The verdict.
    pub headline: Headline,
}

/// Computes the summary block geometry. The preconditions are the
/// arithmetic bounds the centering needs: the hole-name column must hold
/// the "<lang> as of <cutoff>" tag, the bar must be at least as wide as the
/// `W / D / L` figure, and all widths stay in a range where no sum can
/// overflow.
pub fn summary_layout(
    me: &str,
    them: &str,
    lang: &str,
    cutoff_display: &str,
    wins: usize,
    draws: usize,
    losses: usize,
    hole_name_width: usize,
    bar_width: usize,
) -> (s: SummaryLayout)
    requires
        wins <= 1_000_000_000,
        draws <= 1_000_000_000,
        losses <= 1_000_000_000,
        hole_name_width <= 1_000_000,
        bar_width <= 1_000_000,
        me@.len() <= 1_000_000,
        them@.len() <= 1_000_000,
        lang@.len() + 7 + cutoff_display@.len() <= hole_name_width,
        spec_wdl_width(wins as int, draws as int, losses as int) <= bar_width,
        me@.len() + them@.len() + 5 <= hole_name_width * 2 + 4 + bar_width,
    ensures
        s.wdl_width as int == spec_wdl_width(wins as int, draws as int, losses as int),
        s.bar_width as int == spec_adjusted_bar(bar_width as int, s.wdl_width as int),
        s.indent as int == hole_name_width - (lang@.len() + 7 + cutoff_display@.len()),
        s.lcenter as int == (s.bar_width - s.wdl_width) as int / 2,
        s.rcenter as int == (s.bar_width - s.wdl_width + 1) as int / 2,
        s.names@ == spec_names(me@, them@, s.wdl_width as int),
        s.names_indent as int == (hole_name_width * 2 + 4 + s.bar_width - s.names@.len()) as int
            / 2,
        s.headline == spec_headline(wins as int, losses as int),
{
    proof {
        reveal_with_fuel(pow10, 11);
        assert(pow10(10) == 10_000_000_000);
        lemma_digits_bound(wins as int, 10);
        lemma_digits_bound(draws as int, 10);
        lemma_digits_bound(losses as int, 10);
    }
    let dw = digit_count(wins);
    let dd = digit_count(draws);
    let dl = digit_count(losses);
    let wdl_width = dw + dd + dl + 6;
    let bar = if (bar_width + wdl_width) % 2 == 1 {
        bar_width + 1
    } else {
        bar_width
    };
    let lang_len = lang.unicode_len();
    let cutoff_len = cutoff_display.unicode_len();
    let indent = hole_name_width - (lang_len + 7 + cutoff_len);
    let lcenter = (bar - wdl_width) / 2;
    let rcenter = (bar - wdl_width + 1) / 2;

    let me_len = me.unicode_len();
    let them_len = them.unicode_len();
    proof {
        reveal_strlit(" vs. ");
        reveal_strlit(" v. ");
        assert(" vs. "@.len() == 5);
        assert(" v. "@.len() == 4);
    }
    let names = if (me_len + them_len + 5 + wdl_width) % 2 == 0 {
        String::from_str(me).concat(" vs. ").concat(them)
    } else {
        String::from_str(me).concat(" v. ").concat(them)
    };
    let names_len = names.as_str().unicode_len();
    let names_indent = (hole_name_width * 2 + 4 + bar - names_len) / 2;
    let h = headline(wins, losses);
    SummaryLayout {
        wdl_width,
        bar_width: bar,
        indent,
        lcenter,
        rcenter,
        names,
        names_indent,
        headline: h,
    }
}

} // verus!
