//! The whole pipeline and the quick-filter shorthand.

use findr::dates::DateDialect;
use findr::errors::FilterError;
use findr::filter::create_filter;
use findr::globs::GlobIgnoreCase;
use findr::quick::{preprocess_quick_filter, word_rest};

#[test]
fn filter_assembles_fixed_declaration() {
    let (fun, table) = create_filter(
        b"path.is_file and path.size > 1kb",
        b"filter",
        b"path,date,mode",
        DateDialect::DayFirst,
    )
    .unwrap();
    assert_eq!(
        fun,
        b"fn filter(path,date,mode) {\n\tpath.is_file && path.size > 1024\n}\n".to_vec()
    );
    assert_eq!(table.len(), 0);
}

#[test]
fn filter_registers_globs() {
    let (fun, table) = create_filter(
        b"path.matches(\"*.doc\") && path.size > 256kb",
        b"filter",
        b"path,date,mode",
        DateDialect::DayFirst,
    )
    .unwrap();
    assert_eq!(
        fun,
        b"fn filter(path,date,mode) {\n\tpath.matches(0) && path.size > 262144\n}\n".to_vec()
    );
    assert_eq!(table.len(), 1);
    assert_eq!(table[0].source, b"*.doc".to_vec());
    assert!(matches!(table[0].case, GlobIgnoreCase::CaseSensitive));
}

#[test]
fn filter_resolves_dates_last_of_all_literals() {
    let (fun, table) = create_filter(
        b"date.before(\"1 jan 2000\") and path.matches(\"*.rs\")",
        b"filter",
        b"path,date,mode",
        DateDialect::DayFirst,
    )
    .unwrap();
    let text = String::from_utf8(fun).unwrap();
    assert!(text.starts_with("fn filter(path,date,mode) {\n\tdate.before("));
    assert!(text.contains(") && path.matches(0)"));
    assert!(!text.contains("1 jan"));
    assert_eq!(table.len(), 1);
}

#[test]
fn filter_propagates_number_error() {
    match create_filter(b"path.size > 1.2.3k", b"filter", b"p,d,m", DateDialect::DayFirst) {
        Err(FilterError::NumberFormat { token }) => assert_eq!(token, b"1.2.3k".to_vec()),
        other => panic!("expected a number format error, got {:?}", other.is_ok()),
    }
}

#[test]
fn quick_extension_shorthand() {
    let out = preprocess_quick_filter(b".rs", false).unwrap();
    assert_eq!(out, b"path.matches(\"*.rs\")".to_vec());
}

#[test]
fn quick_file_name_ignores_case() {
    let out = preprocess_quick_filter(b"readme.md", true).unwrap();
    assert_eq!(out, b"path.matches_ignore_case(\"*/readme.md\")".to_vec());
}

#[test]
fn quick_size_condition() {
    let out = preprocess_quick_filter(b".doc > 256kb", false).unwrap();
    assert_eq!(out, b"path.matches(\"*.doc\") && path.size > 256kb".to_vec());
    let (fun, table) = create_filter(
        &out,
        b"filter",
        b"path,date,mode",
        DateDialect::DayFirst,
    )
    .unwrap();
    assert_eq!(
        fun,
        b"fn filter(path,date,mode) {\n\tpath.matches(0) && path.size > 262144\n}\n".to_vec()
    );
    assert_eq!(table[0].source, b"*.doc".to_vec());
}

#[test]
fn quick_date_condition() {
    let out = preprocess_quick_filter(b".c after last tues", false).unwrap();
    assert_eq!(
        out,
        b"path.matches(\"*.c\") && date.after(\"last tues\")".to_vec()
    );
}

#[test]
fn quick_semicolon_separator() {
    let out = preprocess_quick_filter(b"*.c;> 1k", false).unwrap();
    assert_eq!(out, b"path.matches(\"*.c\") && path.size > 1k".to_vec());
}

#[test]
fn quick_trailing_slash_stripped() {
    let out = preprocess_quick_filter(b"src/", false).unwrap();
    assert_eq!(out, b"path.matches(\"*/src\")".to_vec());
}

#[test]
fn quick_star_prefix_kept() {
    let out = preprocess_quick_filter(b"*.toml", false).unwrap();
    assert_eq!(out, b"path.matches(\"*.toml\")".to_vec());
}

#[test]
fn quick_empty_glob_is_error() {
    assert!(matches!(
        preprocess_quick_filter(b"", false),
        Err(FilterError::BadSeparator)
    ));
}

#[test]
fn word_rest_splits_and_trims() {
    let (w, r) = word_rest(b"after  last tues", b' ');
    assert_eq!(w, b"after");
    assert_eq!(r, b"last tues");
    let (w, r) = word_rest(b"whole", b' ');
    assert_eq!(w, b"whole");
    assert_eq!(r, b"");
}
