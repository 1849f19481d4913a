//! The rewriting passes one by one: word operators, numbers, dates,
//! globs.

use findr::dates::{preprocess_dates, DateDialect};
use findr::errors::FilterError;
use findr::globs::{preprocess_glob_patterns, GlobIgnoreCase};
use findr::numbers::preprocess_numbers;
use findr::words::normalize_word_operators;
use std::path::Path;

fn parse_int(bytes: &[u8]) -> i64 {
    std::str::from_utf8(bytes).unwrap().parse().unwrap()
}

/// Extracts the comma-separated arguments between the first `(` and `)`.
fn call_args(text: &[u8]) -> Vec<i64> {
    let open = text.iter().position(|&b| b == b'(').unwrap();
    let close = text.iter().position(|&b| b == b')').unwrap();
    text[open + 1..close]
        .split(|&b| b == b',')
        .map(parse_int)
        .collect()
}

#[test]
fn words_and_or_not() {
    let out = normalize_word_operators(b"path.is_file and date.after(\"1 jan\")");
    assert_eq!(out, b"path.is_file && date.after(\"1 jan\")".to_vec());
    let out = normalize_word_operators(b"a or b");
    assert_eq!(out, b"a || b".to_vec());
    let out = normalize_word_operators(b"not path.is_dir");
    assert_eq!(out, b"! path.is_dir".to_vec());
}

#[test]
fn words_need_boundaries() {
    let out = normalize_word_operators(b"android lands command");
    assert_eq!(out, b"android lands command".to_vec());
}

#[test]
fn words_in_quotes_stay() {
    let out = normalize_word_operators(b"date.after(\"1 jan and 2 feb\") or x");
    assert_eq!(out, b"date.after(\"1 jan and 2 feb\") || x".to_vec());
}

#[test]
fn numbers_plain_suffixes() {
    assert_eq!(preprocess_numbers(b"256kb").unwrap(), b"262144".to_vec());
    assert_eq!(preprocess_numbers(b"1k").unwrap(), b"1024".to_vec());
    assert_eq!(preprocess_numbers(b"2G").unwrap(), b"2147483648".to_vec());
    assert_eq!(preprocess_numbers(b"3mB").unwrap(), b"3145728".to_vec());
    assert_eq!(preprocess_numbers(b"1KB").unwrap(), b"1024".to_vec());
}

#[test]
fn numbers_decimal_truncates() {
    assert_eq!(preprocess_numbers(b"0.5mb").unwrap(), b"524288".to_vec());
    // 1.3 * 1024 == 1331.2, truncated toward zero
    assert_eq!(preprocess_numbers(b"1.3k").unwrap(), b"1331".to_vec());
}

#[test]
fn numbers_in_context() {
    let out = preprocess_numbers(b"path.size > 1kb").unwrap();
    assert_eq!(out, b"path.size > 1024".to_vec());
}

#[test]
fn numbers_without_suffix_unchanged() {
    assert_eq!(preprocess_numbers(b"123").unwrap(), b"123".to_vec());
    assert_eq!(preprocess_numbers(b"1.5 files").unwrap(), b"1.5 files".to_vec());
}

#[test]
fn numbers_multi_group_is_error() {
    match preprocess_numbers(b"1.2.3k") {
        Err(FilterError::NumberFormat { token }) => assert_eq!(token, b"1.2.3k".to_vec()),
        other => panic!("expected a number format error, got {:?}", other.is_ok()),
    }
}

#[test]
fn numbers_overflow_is_error() {
    match preprocess_numbers(b"99999999999999999999g") {
        Err(FilterError::NumberFormat { token }) => {
            assert_eq!(token, b"99999999999999999999g".to_vec())
        },
        other => panic!("expected a number format error, got {:?}", other.is_ok()),
    }
}

#[test]
fn dates_on_spans_one_day() {
    let out = preprocess_dates(b"date.on(\"1 jan 2020\")", DateDialect::DayFirst).unwrap();
    assert!(out.starts_with(b"date.on("));
    let args = call_args(&out);
    assert_eq!(args.len(), 2);
    assert!(args[0] < args[1]);
    assert_eq!(args[1] - args[0], 86400);
}

#[test]
fn dates_between_keeps_literal_order() {
    let out = preprocess_dates(
        b"date.between(\"1 jan 2021\",\"1 jan 2019\")",
        DateDialect::DayFirst,
    )
    .unwrap();
    assert!(out.starts_with(b"date.between("));
    let args = call_args(&out);
    assert_eq!(args.len(), 2);
    // the chronologically later first date is not reordered
    assert!(args[0] > args[1]);
}

#[test]
fn dates_unknown_method_lists_allowed() {
    match preprocess_dates(b"date.before_yesterday(\"x\")", DateDialect::DayFirst) {
        Err(FilterError::UnknownMethod { receiver, method, allowed }) => {
            assert_eq!(receiver, b"date".to_vec());
            assert_eq!(method, b"before_yesterday".to_vec());
            assert_eq!(
                allowed,
                vec![
                    b"before".to_vec(),
                    b"after".to_vec(),
                    b"since".to_vec(),
                    b"on".to_vec(),
                    b"between".to_vec(),
                ]
            );
        },
        other => panic!("expected an unknown method error, got {:?}", other.is_ok()),
    }
}

#[test]
fn dates_malformed_argument() {
    match preprocess_dates(b"date.after(1 jan)", DateDialect::DayFirst) {
        Err(FilterError::MalformedArgument { receiver }) => {
            assert_eq!(receiver, b"date".to_vec())
        },
        other => panic!("expected a malformed argument error, got {:?}", other.is_ok()),
    }
}

#[test]
fn dates_unterminated_string() {
    match preprocess_dates(b"date.after(\"1 jan", DateDialect::DayFirst) {
        Err(FilterError::UnterminatedString { receiver }) => {
            assert_eq!(receiver, b"date".to_vec())
        },
        other => panic!("expected an unterminated string error, got {:?}", other.is_ok()),
    }
}

#[test]
fn dates_unresolvable_string() {
    match preprocess_dates(b"date.after(\"notadate zz\")", DateDialect::DayFirst) {
        Err(FilterError::DateParse { input }) => assert_eq!(input, b"notadate zz".to_vec()),
        other => panic!("expected a date parse error, got {:?}", other.is_ok()),
    }
}

#[test]
fn dates_identity_without_calls() {
    let out = preprocess_dates(b"path.is_file && path.size > 10", DateDialect::DayFirst).unwrap();
    assert_eq!(out, b"path.is_file && path.size > 10".to_vec());
}

#[test]
fn dates_dialects_disambiguate() {
    // 2/3 is the 2nd of March day-first and the 3rd of February month-first
    let uk = preprocess_dates(b"date.after(\"2/3/2020\")", DateDialect::DayFirst).unwrap();
    let us = preprocess_dates(b"date.after(\"2/3/2020\")", DateDialect::MonthFirst).unwrap();
    let uk_ts = call_args(&uk)[0];
    let us_ts = call_args(&us)[0];
    assert!(uk_ts > us_ts);
}

#[test]
fn globs_index_table_in_order() {
    let (out, table) =
        preprocess_glob_patterns(b"path.matches(\"*.rs\") && path.matches_ignore_case(\"*.md\")")
            .unwrap();
    assert_eq!(
        out,
        b"path.matches(0) && path.matches_ignore_case(1)".to_vec()
    );
    assert_eq!(table.len(), 2);
    assert_eq!(table[0].source, b"*.rs".to_vec());
    assert!(matches!(table[0].case, GlobIgnoreCase::CaseSensitive));
    assert_eq!(table[1].source, b"*.md".to_vec());
    assert!(matches!(table[1].case, GlobIgnoreCase::CaseInsensitive));
}

#[test]
fn globs_whitespace_around_literal_dropped() {
    let (out, table) = preprocess_glob_patterns(b"path.matches( \"*.rs\" )").unwrap();
    assert_eq!(out, b"path.matches(0)".to_vec());
    assert_eq!(table.len(), 1);
}

#[test]
fn globs_bad_pattern_is_error() {
    match preprocess_glob_patterns(b"path.matches(\"a[\")") {
        Err(FilterError::GlobCompile { pattern, .. }) => assert_eq!(pattern, b"a[".to_vec()),
        other => panic!("expected a glob compile error, got {:?}", other.is_ok()),
    }
}

#[test]
fn globs_identity_without_calls() {
    let (out, table) = preprocess_glob_patterns(b"path.size > 10 && path.is_file").unwrap();
    assert_eq!(out, b"path.size > 10 && path.is_file".to_vec());
    assert_eq!(table.len(), 0);
}

#[test]
fn dates_since_resolves_like_after() {
    let out = preprocess_dates(b"date.since(\"1 jan 2020\")", DateDialect::DayFirst).unwrap();
    assert!(out.starts_with(b"date.since("));
    let args = call_args(&out);
    assert_eq!(args.len(), 1);
}

#[test]
fn dates_method_paren_gap_kept() {
    let out = preprocess_dates(b"date.on (\"1 jan 2020\")", DateDialect::DayFirst).unwrap();
    assert!(out.starts_with(b"date.on ("));
    let args = call_args(&out);
    assert_eq!(args.len(), 2);
    assert_eq!(args[1] - args[0], 86400);
}

#[test]
fn dates_non_ascii_literal_rejected() {
    let mut text = b"date.after(\"aa".to_vec();
    text.extend_from_slice("é".as_bytes());
    text.extend_from_slice(b"\")");
    match preprocess_dates(&text, DateDialect::DayFirst) {
        Err(FilterError::DateParse { input }) => {
            let mut expected = b"aa".to_vec();
            expected.extend_from_slice("é".as_bytes());
            assert_eq!(input, expected);
        },
        other => panic!("expected a date parse error, got {:?}", other.is_ok()),
    }
}

#[test]
fn globs_method_paren_gap_kept() {
    let (out, table) = preprocess_glob_patterns(b"path.matches (\"*.rs\")").unwrap();
    assert_eq!(out, b"path.matches (0)".to_vec());
    assert_eq!(table.len(), 1);
}

#[test]
fn globs_table_patterns_really_compiled() {
    let (_, table) =
        preprocess_glob_patterns(b"path.matches(\"*.rs\") && path.matches(\"lib.*\")").unwrap();
    assert!(table[0].pattern.matches_path(Path::new("foo.rs")));
    assert!(!table[0].pattern.matches_path(Path::new("foo.md")));
    assert!(table[1].pattern.matches_path(Path::new("lib.md")));
    assert!(!table[1].pattern.matches_path(Path::new("foo.rs")));
}

#[test]
fn dates_long_digit_run_rejected() {
    match preprocess_dates(b"date.after(\"12345678 seconds ago\")", DateDialect::DayFirst) {
        Err(FilterError::DateParse { input }) => {
            assert_eq!(input, b"12345678 seconds ago".to_vec())
        },
        other => panic!("expected a date parse error, got {:?}", other.is_ok()),
    }
}

#[test]
fn dates_short_digit_runs_still_resolve() {
    let out = preprocess_dates(b"date.after(\"999 days ago\")", DateDialect::DayFirst).unwrap();
    assert!(out.starts_with(b"date.after("));
    assert_eq!(call_args(&out).len(), 1);
}
