//! Cutoff instants: recognition and normalization.
//!
//! A cutoff may be given as a bare year, year-month or year-month-day; those
//! are inclusive end-of-period boundaries, normalized by appending a `'z'`
//! so that the result sorts just after every timestamp sharing the prefix.
//! A full date-time (minutes, optional seconds, optional fractional seconds)
//! is an exact instant compared as it stands. Anything else is a
//! configuration error.

use vstd::prelude::*;
use vstd::string::*;

verus! {

/// How a recognized cutoff form treats timestamps equal to its own prefix.
#[derive(Clone, Copy, Debug, PartialEq, Eq, Structural)]
pub enum CutoffType {
    /// The period named by the prefix is included in the report.
    IncludeEnd,
    /// The instant itself is the boundary, compared as written.
    ExcludeEnd,
}

pub open spec fn is_digit(c: char) -> bool {
    '0' <= c && c <= '9'
}

pub open spec fn all_digits(s: Seq<char>, from: int, to: int) -> bool {
    forall|i: int| from <= i < to ==> is_digit(#[trigger] s[i])
}

/// `YYYY`
pub open spec fn is_year(s: Seq<char>) -> bool {
    s.len() == 4 && all_digits(s, 0, 4)
}

/// `YYYY-MM`
pub open spec fn is_year_month(s: Seq<char>) -> bool {
    s.len() == 7 && all_digits(s, 0, 4) && s[4] == '-' && all_digits(s, 5, 7)
}

/// `YYYY-MM-DD`
pub open spec fn is_date(s: Seq<char>) -> bool {
    s.len() == 10 && all_digits(s, 0, 4) && s[4] == '-' && all_digits(s, 5, 7) && s[7] == '-'
        && all_digits(s, 8, 10)
}

/// The first ten characters form a date followed by `" HH:MM"` at the given
/// positions.
pub open spec fn has_date_time_prefix(s: Seq<char>) -> bool {
    &&& s.len() >= 16
    &&& is_date(s.take(10))
    &&& s[10] == ' '
    &&& all_digits(s, 11, 13)
    &&& s[13] == ':'
    &&& all_digits(s, 14, 16)
}

/// `YYYY-MM-DD HH:MM`
pub open spec fn is_date_time_minutes(s: Seq<char>) -> bool {
    s.len() == 16 && has_date_time_prefix(s)
}

/// `YYYY-MM-DD HH:MM:SS`
pub open spec fn is_date_time_seconds(s: Seq<char>) -> bool {
    s.len() == 19 && has_date_time_prefix(s) && s[16] == ':' && all_digits(s, 17, 19)
}

/// `YYYY-MM-DD HH:MM:SS.ffff…` with at least one fractional digit.
pub open spec fn is_date_time_fractional(s: Seq<char>) -> bool {
    s.len() >= 21 && has_date_time_prefix(s) && s[16] == ':' && all_digits(s, 17, 19) && s[19]
        == '.' && all_digits(s, 20, s.len() as int)
}

/// The recognized cutoff forms and how each one bounds the period.
pub open spec fn cutoff_class(s: Seq<char>) -> Option<CutoffType> {
    if is_year(s) || is_year_month(s) || is_date(s) {
        Some(CutoffType::IncludeEnd)
    } else if is_date_time_minutes(s) || is_date_time_seconds(s) || is_date_time_fractional(s) {
        Some(CutoffType::ExcludeEnd)
    } else {
        None
    }
}

/// All characters of `s` in `[from, to)` are decimal digits.
fn check_digits(s: &str, from: usize, to: usize) -> (r: bool)
    requires
        from <= to <= s@.len(),
    ensures
        r == all_digits(s@, from as int, to as int),
{
    let mut i: usize = from;
    while i < to
        invariant
            from <= i <= to <= s@.len(),
            all_digits(s@, from as int, i as int),
        decreases to - i,
    {
        let c = s.get_char(i);
        if !('0' <= c && c <= '9') {
            return false;
        }
        i += 1;
    }
    true
}

/// Recognizes the cutoff form of `s`, or `None` for a malformed string.
pub fn classify_cutoff(s: &str) -> (r: Option<CutoffType>)
    ensures
        r == cutoff_class(s@),
{
    let n: usize = s.unicode_len();
    if n == 4 {
        if check_digits(s, 0, 4) {
            return Some(CutoffType::IncludeEnd);
        }
        return None;
    }
    if n == 7 {
        if check_digits(s, 0, 4) && s.get_char(4) == '-' && check_digits(s, 5, 7) {
            return Some(CutoffType::IncludeEnd);
        }
        return None;
    }
    if n == 10 {
        if check_digits(s, 0, 4) && s.get_char(4) == '-' && check_digits(s, 5, 7) && s.get_char(7)
            == '-' && check_digits(s, 8, 10) {
            return Some(CutoffType::IncludeEnd);
        }
        return None;
    }
    if n == 16 || n == 19 || n >= 21 {
        let date_part = check_digits(s, 0, 4) && s.get_char(4) == '-' && check_digits(s, 5, 7)
            && s.get_char(7) == '-' && check_digits(s, 8, 10);
        proof {
            assert(s@.take(10).len() == 10);
            assert(forall|i: int| 0 <= i < 10 ==> s@.take(10)[i] == s@[i]);
            assert(all_digits(s@, 0, 4) ==> all_digits(s@.take(10), 0, 4));
            assert(all_digits(s@, 5, 7) ==> all_digits(s@.take(10), 5, 7));
            assert(all_digits(s@, 8, 10) ==> all_digits(s@.take(10), 8, 10));
            assert(all_digits(s@.take(10), 0, 4) ==> all_digits(s@, 0, 4));
            assert(all_digits(s@.take(10), 5, 7) ==> all_digits(s@, 5, 7));
            assert(all_digits(s@.take(10), 8, 10) ==> all_digits(s@, 8, 10));
        }
        let time_part = date_part && s.get_char(10) == ' ' && check_digits(s, 11, 13) && s.get_char(
            13,
        ) == ':' && check_digits(s, 14, 16);
        if !time_part {
            return None;
        }
        if n == 16 {
            return Some(CutoffType::ExcludeEnd);
        }
        let seconds_part = s.get_char(16) == ':' && check_digits(s, 17, 19);
        if !seconds_part {
            return None;
        }
        if n == 19 {
            return Some(CutoffType::ExcludeEnd);
        }
        if s.get_char(19) == '.' && check_digits(s, 20, n) {
            return Some(CutoffType::ExcludeEnd);
        }
        return None;
    }
    None
}

/// Normalizes a cutoff string for lexicographic comparison against
/// timestamps: inclusive forms get a `'z'` appended, which sorts after every
/// digit, so every timestamp with the given prefix stays below the cutoff;
/// exact forms pass through unchanged. A malformed string yields `None`.
pub fn normalize_cutoff(s: &str) -> (r: Option<String>)
    ensures
        r is Some <==> cutoff_class(s@) is Some,
        cutoff_class(s@) == Some(CutoffType::IncludeEnd) ==> r is Some && r->Some_0@ == s@.push(
            'z',
        ),
        cutoff_class(s@) == Some(CutoffType::ExcludeEnd) ==> r is Some && r->Some_0@ == s@,
{
    match classify_cutoff(s) {
        None => None,
        Some(CutoffType::IncludeEnd) => {
            let base = String::from_str(s);
            let out = base.concat("z");
            proof {
                reveal_strlit("z");
                assert(out@ =~= s@.push('z'));
            }
            Some(out)
        },
        Some(CutoffType::ExcludeEnd) => Some(String::from_str(s)),
    }
}

/// The cutoff as shown to the reader: the normalization marker is dropped
/// again from the end, anything else stays as it is.
pub fn display_cutoff(s: &str) -> (r: String)
    ensures
        s@.len() > 0 && s@.last() == 'z' ==> r@ == s@.drop_last(),
        !(s@.len() > 0 && s@.last() == 'z') ==> r@ == s@,
{
    let n: usize = s.unicode_len();
    if n > 0 && s.get_char(n - 1) == 'z' {
        let cut = s.substring_char(0, n - 1);
        proof {
            assert(cut@ =~= s@.drop_last());
        }
        String::from_str(cut)
    } else {
        String::from_str(s)
    }
}

} // verus!
