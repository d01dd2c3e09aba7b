use golfboard::cutoff::{classify_cutoff, display_cutoff, normalize_cutoff, CutoffType};
use golfboard::lexord::{str_eq, str_lex_le, str_lex_lt};
use golfboard::model::{parse_metric, Metric};

#[test]
fn recognizes_inclusive_forms() {
    assert_eq!(classify_cutoff("2025"), Some(CutoffType::IncludeEnd));
    assert_eq!(classify_cutoff("2025-03"), Some(CutoffType::IncludeEnd));
    assert_eq!(classify_cutoff("2025-03-31"), Some(CutoffType::IncludeEnd));
}

#[test]
fn recognizes_exact_forms() {
    assert_eq!(classify_cutoff("2025-03-31 12:15"), Some(CutoffType::ExcludeEnd));
    assert_eq!(classify_cutoff("2025-03-31 12:15:29"), Some(CutoffType::ExcludeEnd));
    assert_eq!(classify_cutoff("2025-03-31 12:15:29.185779"), Some(CutoffType::ExcludeEnd));
    assert_eq!(classify_cutoff("2025-03-31 12:15:29.1"), Some(CutoffType::ExcludeEnd));
}

#[test]
fn rejects_malformed_cutoffs() {
    assert_eq!(classify_cutoff(""), None);
    assert_eq!(classify_cutoff("20x5"), None);
    assert_eq!(classify_cutoff("2025-3"), None);
    assert_eq!(classify_cutoff("2025/03/31"), None);
    assert_eq!(classify_cutoff("2025-03-31T12:15"), None);
    assert_eq!(classify_cutoff("2025-03-31 12:15:29."), None);
    assert_eq!(classify_cutoff("2025-03-31 12:15:29x185779"), None);
    assert_eq!(classify_cutoff("yesterday"), None);
}

#[test]
fn normalization_appends_marker_to_inclusive_forms() {
    assert_eq!(normalize_cutoff("2025").unwrap(), "2025z");
    assert_eq!(normalize_cutoff("2025-03").unwrap(), "2025-03z");
    assert_eq!(normalize_cutoff("2025-03-31").unwrap(), "2025-03-31z");
    assert_eq!(normalize_cutoff("2025-03-31 12:15").unwrap(), "2025-03-31 12:15");
    assert!(normalize_cutoff("not a date").is_none());
}

#[test]
fn normalized_inclusive_cutoff_sorts_after_period() {
    let cut = normalize_cutoff("2025-03").unwrap();
    // Every timestamp within the period stays below the cutoff, the next
    // period's do not.
    assert!(str_lex_le("2025-03-31 23:59:59.999999", &cut));
    assert!(!str_lex_le("2025-04-01 00:00:00.000000", &cut));
}

#[test]
fn display_strips_the_marker() {
    assert_eq!(display_cutoff("2025-03z"), "2025-03");
    assert_eq!(display_cutoff("2025-03-31 12:15"), "2025-03-31 12:15");
    assert_eq!(display_cutoff(""), "");
}

#[test]
fn lexicographic_comparison_is_by_characters() {
    assert!(str_lex_le("", "a"));
    assert!(str_lex_le("abc", "abc"));
    assert!(str_lex_le("abc", "abd"));
    assert!(!str_lex_le("abd", "abc"));
    assert!(str_lex_le("ab", "abc"));
    assert!(!str_lex_le("abc", "ab"));
    assert!(str_lex_lt("ab", "abc"));
    assert!(!str_lex_lt("abc", "abc"));
    assert!(str_eq("abc", "abc"));
    assert!(!str_eq("abc", "abd"));
}

#[test]
fn metric_names_parse_exactly() {
    assert_eq!(parse_metric("bytes"), Some(Metric::Bytes));
    assert_eq!(parse_metric("chars"), Some(Metric::Chars));
    assert_eq!(parse_metric("Bytes"), None);
    assert_eq!(parse_metric(""), None);
    assert_eq!(parse_metric("golf"), None);
}
