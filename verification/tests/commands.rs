//! Command templates, decimal rendering, the error helpers and the
//! date facade.

use findr::command::{check_pct_closed, command, next_percent, percent_subst};
use findr::dates::DateImpl;
use findr::decimal::{i64_to_dec, u64_to_dec};
use findr::errors::{err_io, io_error, FilterError};

#[test]
fn percent_splits_template() {
    let (before, subst, rest) = next_percent(b"a %(x.y) b").unwrap();
    assert_eq!(before, b"a ");
    assert_eq!(subst, b"x.y");
    assert_eq!(rest, b" b");
    assert!(next_percent(b"plain text").is_none());
}

#[test]
fn percent_subst_builds_concatenation() {
    let out = percent_subst(b"ls %(path.path)");
    assert_eq!(out, b"return \"ls \" + path.path;".to_vec());
}

#[test]
fn percent_subst_quotes_tail_and_escapes() {
    let out = percent_subst(b"say \"hi\" %(x) done");
    assert_eq!(out, b"return \"say \\\"hi\\\" \" + x + \" done\";".to_vec());
}

#[test]
fn command_appends_default_hole() {
    let fun = command(b"ls -l").unwrap();
    assert_eq!(
        fun,
        b"fn cmd(path,date) { return \"ls -l \" + path.path; }".to_vec()
    );
}

#[test]
fn command_keeps_explicit_hole() {
    let fun = command(b"wc %(path.path)").unwrap();
    assert_eq!(
        fun,
        b"fn cmd(path,date) { return \"wc \" + path.path; }".to_vec()
    );
}

#[test]
fn command_empty_is_none() {
    assert!(command(b"").is_none());
}

#[test]
fn decimal_renders_exactly() {
    assert_eq!(u64_to_dec(0), b"0".to_vec());
    assert_eq!(u64_to_dec(262144), b"262144".to_vec());
    assert_eq!(u64_to_dec(u64::MAX), b"18446744073709551615".to_vec());
    assert_eq!(i64_to_dec(-86400), b"-86400".to_vec());
    assert_eq!(i64_to_dec(i64::MIN), b"-9223372036854775808".to_vec());
}

#[test]
fn date_facade_compares_timestamps() {
    let mut d = DateImpl::new(1000);
    assert!(d.before(2000));
    assert!(!d.before(1000));
    assert!(d.after(500));
    assert!(!d.after(1000));
    assert!(d.between(999, 1001));
    assert!(!d.between(1000, 1001));
}

#[test]
fn io_error_carries_message() {
    match io_error(b"bad input") {
        FilterError::Io { message } => assert_eq!(message, b"bad input".to_vec()),
        _ => panic!("expected the free-form error"),
    }
    let r: Result<(), FilterError> = err_io(b"oops");
    match r {
        Err(FilterError::Io { message }) => assert_eq!(message, b"oops".to_vec()),
        _ => panic!("expected the free-form error"),
    }
}

#[test]
fn pct_closed_is_decidable() {
    assert!(check_pct_closed(b"plain text"));
    assert!(check_pct_closed(b"a %(x) and %(y) b"));
    assert!(!check_pct_closed(b"a %(x"));
    assert!(!check_pct_closed(b"%(x) then %(open"));
}
