//! The operator and function assembler: normalizes word operators,
//! runs the rewriting passes in their fixed order — words, numbers,
//! dates, globs — and wraps the rewritten body into a function
//! declaration with the caller's name and parameter list. Any stage's
//! failure aborts the whole pipeline.

use vstd::prelude::*;
use crate::ascii::LPAREN;
use crate::dates::{dates_failed, dates_rewritten, preprocess_dates, DateDialect};
use crate::errors::FilterError;
use crate::globs::{
    globs_failed, globs_rewritten, preprocess_glob_patterns, table_model, table_patterns_compiled,
    GlobEntry, GlobIgnoreCase,
};
use crate::numbers::{preprocess_numbers, spec_expand};
use crate::scan::push_slice;
use crate::tokens::{
    tok_body_close, tok_body_close_vec, tok_body_open, tok_body_open_vec, tok_fn_kw,
    tok_fn_kw_vec,
};
use crate::words::{normalize_word_operators, normalized};

verus! {

/// `body` and `table` are what the fixed pipeline order — word
/// operators, numbers, dates, globs — produces from `filter`.
pub open spec fn pipeline_body(
    filter: Seq<u8>,
    body: Seq<u8>,
    table: Seq<(Seq<u8>, GlobIgnoreCase)>,
) -> bool {
    let worded = normalized(filter, 0, false);
    match spec_expand(worded, 0) {
        Ok(numbered) => dates_then_globs(numbered, body, table),
        Err(_) => false,
    }
}

/// Some date-resolved text lies between the number-expanded text and
/// the glob pass's output.
pub open spec fn dates_then_globs(
    numbered: Seq<u8>,
    body: Seq<u8>,
    table: Seq<(Seq<u8>, GlobIgnoreCase)>,
) -> bool {
    exists|dated: Seq<u8>|
        {
            &&& #[trigger] dates_rewritten(numbered, dated)
            &&& globs_rewritten(dated, body, table)
        }
}

/// The stage that failed reported its own error, after every earlier
/// stage succeeded.
pub open spec fn pipeline_failed(filter: Seq<u8>, e: FilterError) -> bool {
    let worded = normalized(filter, 0, false);
    match spec_expand(worded, 0) {
        Err(token) => e matches FilterError::NumberFormat { token: tk } && tk@ == token,
        Ok(numbered) => dates_failed(numbered, e) || dates_then_glob_err(numbered, e),
    }
}

/// Some date-resolved text lies between the number-expanded text and
/// the glob pass's failure.
pub open spec fn dates_then_glob_err(numbered: Seq<u8>, e: FilterError) -> bool {
    exists|dated: Seq<u8>| #[trigger] dates_rewritten(numbered, dated) && globs_failed(dated, e)
}

/// The generated function source: the fixed declaration syntax around
/// the caller's name, parameter list and the rewritten body.
pub open spec fn assembled(name: Seq<u8>, args: Seq<u8>, body: Seq<u8>) -> Seq<u8> {
    tok_fn_kw() + name + seq![LPAREN] + args + tok_body_open() + body + tok_body_close()
}

/// `fun` is the assembly of `name`, `args` and some body that the
/// pipeline produced from `filter` together with `table`.
pub open spec fn created(
    filter: Seq<u8>,
    fun: Seq<u8>,
    table: Seq<(Seq<u8>, GlobIgnoreCase)>,
    name: Seq<u8>,
    args: Seq<u8>,
) -> bool {
    exists|body: Seq<u8>|
        fun == assembled(name, args, body) && #[trigger] pipeline_body(filter, body, table)
}

/// Turns the surface filter text into the generated function source and
/// the run's pattern table: word operators become symbolic, size
/// suffixes become integers, date arguments become timestamps, glob
/// arguments become table indices, and the result is wrapped into a
/// declaration of `name` with the parameter list `args`.
pub fn create_filter(filter: &[u8], name: &[u8], args: &[u8], dialect: DateDialect) -> (res:
    Result<(Vec<u8>, Vec<GlobEntry>), FilterError>)
    ensures
        match res {
            Ok(ft) => created(filter@, ft.0@, table_model(ft.1@), name@, args@)
                && table_patterns_compiled(ft.1@),
            Err(e) => pipeline_failed(filter@, e),
        },
{
    let worded = normalize_word_operators(filter);
    let numbered = match preprocess_numbers(worded.as_slice()) {
        Ok(n) => n,
        Err(e) => {
            return Err(e);
        },
    };
    let dated = match preprocess_dates(numbered.as_slice(), dialect) {
        Ok(d) => d,
        Err(e) => {
            return Err(e);
        },
    };
    let (body, table) = match preprocess_glob_patterns(dated.as_slice()) {
        Ok(bt) => bt,
        Err(e) => {
            proof {
                assert(dates_then_glob_err(numbered@, e)) by {
                    assert(dates_rewritten(numbered@, dated@) && globs_failed(dated@, e));
                }
                assert(spec_expand(normalized(filter@, 0, false), 0) == Ok::<Seq<u8>, Seq<u8>>(
                    numbered@,
                ));
            }
            return Err(e);
        },
    };
    let mut fun: Vec<u8> = tok_fn_kw_vec();
    push_slice(&mut fun, name);
    fun.push(LPAREN);
    push_slice(&mut fun, args);
    let open = tok_body_open_vec();
    push_slice(&mut fun, open.as_slice());
    push_slice(&mut fun, body.as_slice());
    let close = tok_body_close_vec();
    push_slice(&mut fun, close.as_slice());
    proof {
        assert(fun@ =~= assembled(name@, args@, body@));
        assert(dates_then_globs(numbered@, body@, table_model(table@))) by {
            assert(dates_rewritten(numbered@, dated@) && globs_rewritten(
                dated@,
                body@,
                table_model(table@),
            ));
        }
        assert(spec_expand(normalized(filter@, 0, false), 0) == Ok::<Seq<u8>, Seq<u8>>(numbered@));
        assert(created(filter@, fun@, table_model(table@), name@, args@)) by {
            assert(fun@ == assembled(name@, args@, body@) && pipeline_body(
                filter@,
                body@,
                table_model(table@),
            ));
        }
    }
    Ok((fun, table))
}

} // verus!
