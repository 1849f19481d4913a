//! Command preprocessing: a command template with `%(expr)` holes
//! becomes an expression-language function body that concatenates the
//! quoted fixed parts with the hole expressions. A template with no
//! hole gets the entry's path appended as a default hole.

use vstd::prelude::*;
use crate::ascii::{CARRIAGE, LPAREN, NEWLINE, QUOTE, RPAREN, SEMI, TAB};
use crate::quick::find_byte;
use crate::scan::push_slice;
use crate::tokens::{
    tok_c_default_sub, tok_c_default_sub_vec, tok_c_fn_close, tok_c_fn_close_vec, tok_c_fn_open,
    tok_c_fn_open_vec, tok_c_plus, tok_c_plus_vec, tok_c_return, tok_c_return_vec,
};

verus! {

pub const PERCENT: u8 = 37;

pub const BSLASH: u8 = 92;

pub const ESC_N: u8 = 110;

pub const ESC_T: u8 = 116;

pub const ESC_R: u8 = 114;

/// Position of the first `%(` at or after `i`, or the text length.
pub open spec fn find_pct(t: Seq<u8>, i: int) -> int
    decreases t.len() - i,
{
    if 0 <= i && i + 1 < t.len() {
        if t[i] == PERCENT && t[i + 1] == LPAREN {
            i
        } else {
            find_pct(t, i + 1)
        }
    } else {
        t.len() as int
    }
}

pub proof fn lemma_find_pct(t: Seq<u8>, i: int)
    requires
        0 <= i <= t.len(),
    ensures
        i <= find_pct(t, i) <= t.len(),
        find_pct(t, i) < t.len() ==> find_pct(t, i) + 1 < t.len(),
    decreases t.len() - i,
{
    if i + 1 < t.len() && !(t[i] == PERCENT && t[i + 1] == LPAREN) {
        lemma_find_pct(t, i + 1);
    }
}

/// How one byte is written inside a quoted literal: quotes and
/// backslashes are escaped, as are newline, tab and carriage return;
/// every other byte stands for itself.
pub open spec fn escape_byte(b: u8) -> Seq<u8> {
    if b == QUOTE {
        seq![BSLASH, QUOTE]
    } else if b == BSLASH {
        seq![BSLASH, BSLASH]
    } else if b == NEWLINE {
        seq![BSLASH, ESC_N]
    } else if b == TAB {
        seq![BSLASH, ESC_T]
    } else if b == CARRIAGE {
        seq![BSLASH, ESC_R]
    } else {
        seq![b]
    }
}

pub open spec fn escape_from(s: Seq<u8>, i: int) -> Seq<u8>
    decreases s.len() - i,
{
    if 0 <= i < s.len() {
        escape_byte(s[i]) + escape_from(s, i + 1)
    } else {
        Seq::empty()
    }
}

/// `s` as a double-quoted literal.
pub open spec fn quote_bytes(s: Seq<u8>) -> Seq<u8> {
    seq![QUOTE] + escape_from(s, 0) + seq![QUOTE]
}

/// Every `%(` hole is closed by a `)` before the end of the text.
pub open spec fn pct_closed(s: Seq<u8>) -> bool
    decreases s.len(),
    via pct_closed_decreases
{
    let p = find_pct(s, 0);
    if p >= s.len() {
        true
    } else {
        let q = find_byte(s, RPAREN, p + 2);
        q < s.len() && pct_closed(s.subrange(q + 1, s.len() as int))
    }
}

#[via_fn]
proof fn pct_closed_decreases(s: Seq<u8>) {
    lemma_find_pct(s, 0);
    let p = find_pct(s, 0);
    if p < s.len() {
        crate::quick::lemma_find_byte(s, RPAREN, p + 2);
    }
}

/// The concatenation expression a template denotes: the fixed text
/// before each hole as a quoted literal, the hole's content verbatim,
/// joined by `+`, and the quoted tail if one remains.
pub open spec fn pct_expand(s: Seq<u8>) -> Seq<u8>
    decreases s.len(),
    via pct_expand_decreases
{
    let p = find_pct(s, 0);
    if p >= s.len() {
        if s.len() > 0 {
            quote_bytes(s)
        } else {
            Seq::empty()
        }
    } else {
        let q = find_byte(s, RPAREN, p + 2);
        if q >= s.len() {
            quote_bytes(s)
        } else {
            let rest = s.subrange(q + 1, s.len() as int);
            quote_bytes(s.take(p)) + tok_c_plus() + s.subrange(p + 2, q) + (if rest.len() > 0 {
                tok_c_plus() + pct_expand(rest)
            } else {
                Seq::empty()
            })
        }
    }
}

#[via_fn]
proof fn pct_expand_decreases(s: Seq<u8>) {
    lemma_find_pct(s, 0);
    let p = find_pct(s, 0);
    if p < s.len() {
        crate::quick::lemma_find_byte(s, RPAREN, p + 2);
    }
}

/// The full generated body: `return`, the concatenation, a semicolon.
pub open spec fn spec_percent_subst(s: Seq<u8>) -> Seq<u8> {
    tok_c_return() + pct_expand(s) + seq![SEMI]
}

fn scan_pct(t: &[u8], i: usize) -> (r: usize)
    requires
        i <= t@.len(),
    ensures
        r as int == find_pct(t@, i as int),
        i <= r <= t@.len(),
{
    let mut j: usize = i;
    while t.len() - j > 1
        invariant
            i <= j <= t@.len(),
            find_pct(t@, i as int) == find_pct(t@, j as int),
        decreases t@.len() - j,
    {
        if t[j] == PERCENT && t[j + 1] == LPAREN {
            return j;
        }
        j += 1;
    }
    t.len()
}

/// Splits `s` around its first `%(expr)` hole: the text before it, the
/// hole's content, and the text after the closing parenthesis.
pub fn next_percent<'a>(s: &'a [u8]) -> (r: Option<(&'a [u8], &'a [u8], &'a [u8])>)
    requires
        find_pct(s@, 0) < s@.len() ==> find_byte(s@, RPAREN, find_pct(s@, 0) + 2) < s@.len(),
    ensures
        match r {
            None => find_pct(s@, 0) == s@.len(),
            Some(t) => ({
                let p = find_pct(s@, 0);
                let q = find_byte(s@, RPAREN, p + 2);
                &&& p < s@.len()
                &&& t.0@ == s@.take(p)
                &&& t.1@ == s@.subrange(p + 2, q)
                &&& t.2@ == s@.subrange(q + 1, s@.len() as int)
            }),
        },
{
    let p = scan_pct(s, 0);
    if p >= s.len() {
        return None;
    }
    let q = crate::quick::scan_find_byte(s, RPAREN, p + 2);
    let before = vstd::slice::slice_subrange(s, 0, p);
    let subst = vstd::slice::slice_subrange(s, p + 2, q);
    let rest = vstd::slice::slice_subrange(s, q + 1, s.len());
    proof {
        assert(before@ =~= s@.take(p as int));
    }
    Some((before, subst, rest))
}

/// Appends `s` as a quoted, escaped literal.
fn push_quoted(out: &mut Vec<u8>, s: &[u8])
    ensures
        final(out)@ == old(out)@ + quote_bytes(s@),
{
    out.push(QUOTE);
    let mut i: usize = 0;
    proof {
        assert(out@ + escape_from(s@, 0) =~= old(out)@ + seq![QUOTE] + escape_from(s@, 0));
    }
    while i < s.len()
        invariant
            0 <= i <= s@.len(),
            out@ + escape_from(s@, i as int) == old(out)@ + seq![QUOTE] + escape_from(s@, 0),
        decreases s@.len() - i,
    {
        let b = s[i];
        let ghost out0 = out@;
        if b == QUOTE {
            out.push(BSLASH);
            out.push(QUOTE);
        } else if b == BSLASH {
            out.push(BSLASH);
            out.push(BSLASH);
        } else if b == NEWLINE {
            out.push(BSLASH);
            out.push(ESC_N);
        } else if b == TAB {
            out.push(BSLASH);
            out.push(ESC_T);
        } else if b == CARRIAGE {
            out.push(BSLASH);
            out.push(ESC_R);
        } else {
            out.push(b);
        }
        proof {
            assert(out@ =~= out0 + escape_byte(s@[i as int]));
            assert(escape_from(s@, i as int) == escape_byte(s@[i as int]) + escape_from(
                s@,
                i + 1,
            ));
            assert(out0 + (escape_byte(s@[i as int]) + escape_from(s@, i + 1)) =~= out@
                + escape_from(s@, i + 1));
        }
        i += 1;
    }
    out.push(QUOTE);
    proof {
        assert(escape_from(s@, i as int) =~= Seq::<u8>::empty());
        assert(out@ =~= old(out)@ + quote_bytes(s@));
    }
}

} // verus!

verus! {

/// Builds the expression body for a command template: each fixed part
/// quoted, each `%(expr)` hole inserted verbatim, all joined by `+`.
pub fn percent_subst(s: &[u8]) -> (r: Vec<u8>)
    requires
        pct_closed(s@),
    ensures
        r@ == spec_percent_subst(s@),
{
    let mut out = tok_c_return_vec();
    let mut cur: &[u8] = s;
    let plus = tok_c_plus_vec();
    proof {
        assert(out@ + pct_expand(cur@) =~= tok_c_return() + pct_expand(s@));
    }
    loop
        invariant
            pct_closed(cur@),
            plus@ == tok_c_plus(),
            out@ + pct_expand(cur@) == tok_c_return() + pct_expand(s@),
        decreases cur@.len(),
    {
        let ghost cur0 = cur@;
        let ghost out0 = out@;
        match next_percent(cur) {
            None => {
                if cur.len() > 0 {
                    push_quoted(&mut out, cur);
                }
                out.push(SEMI);
                proof {
                    if cur0.len() > 0 {
                        assert(pct_expand(cur0) == quote_bytes(cur0));
                        assert(out@ =~= out0 + pct_expand(cur0) + seq![SEMI]);
                    } else {
                        assert(pct_expand(cur0) =~= Seq::<u8>::empty());
                        assert(out@ =~= out0 + pct_expand(cur0) + seq![SEMI]);
                    }
                    assert(out@ =~= spec_percent_subst(s@));
                }
                return out;
            },
            Some((before, subst, rest)) => {
                push_quoted(&mut out, before);
                push_slice(&mut out, plus.as_slice());
                push_slice(&mut out, subst);
                if rest.len() > 0 {
                    push_slice(&mut out, plus.as_slice());
                }
                cur = rest;
                proof {
                    let p = find_pct(cur0, 0);
                    lemma_find_pct(cur0, 0);
                    crate::quick::lemma_find_byte(cur0, RPAREN, p + 2);
                    let q = find_byte(cur0, RPAREN, p + 2);
                    assert(q < cur0.len());
                    if cur@.len() > 0 {
                        assert(pct_expand(cur0) == quote_bytes(cur0.take(p)) + tok_c_plus()
                            + cur0.subrange(p + 2, q) + (tok_c_plus() + pct_expand(cur@)));
                        assert(out@ + pct_expand(cur@) =~= out0 + pct_expand(cur0));
                    } else {
                        assert(pct_expand(cur0) == quote_bytes(cur0.take(p)) + tok_c_plus()
                            + cur0.subrange(p + 2, q) + Seq::<u8>::empty());
                        assert(pct_expand(cur@) =~= Seq::<u8>::empty());
                        assert(out@ + pct_expand(cur@) =~= out0 + pct_expand(cur0));
                    }
                    // the remainder is still well formed and shorter
                    assert(pct_closed(cur@));
                    assert(cur@.len() < cur0.len());
                }
            },
        }
    }
}

/// A hole begins somewhere in `s`.
pub open spec fn has_pct(s: Seq<u8>) -> bool {
    find_pct(s, 0) < s.len()
}

/// The template as preprocessed: one with no hole gets the entry's path
/// appended as a default hole.
pub open spec fn effective_command(cmd: Seq<u8>) -> Seq<u8> {
    if has_pct(cmd) {
        cmd
    } else {
        cmd + tok_c_default_sub()
    }
}

/// Turns a non-empty command template into a complete generated
/// function over the entry's path and date; an empty template means no
/// command was given.
pub fn command(cmd: &[u8]) -> (r: Option<Vec<u8>>)
    requires
        pct_closed(effective_command(cmd@)),
    ensures
        match r {
            None => cmd@.len() == 0,
            Some(f) => cmd@.len() > 0 && f@ == tok_c_fn_open() + spec_percent_subst(
                effective_command(cmd@),
            ) + tok_c_fn_close(),
        },
{
    if cmd.len() == 0 {
        return None;
    }
    let mut eff: Vec<u8> = vstd::slice::slice_to_vec(cmd);
    let p = scan_pct(cmd, 0);
    if p >= cmd.len() {
        let sub = tok_c_default_sub_vec();
        push_slice(&mut eff, sub.as_slice());
    }
    proof {
        assert(eff@ == effective_command(cmd@));
    }
    let expr = percent_subst(eff.as_slice());
    let mut fun = tok_c_fn_open_vec();
    push_slice(&mut fun, expr.as_slice());
    let close = tok_c_fn_close_vec();
    push_slice(&mut fun, close.as_slice());
    Some(fun)
}

} // verus!

verus! {

/// Decides the command functions' precondition at run time: whether
/// every `%(` hole in `s` is closed by a `)` before the end.
pub fn check_pct_closed(s: &[u8]) -> (r: bool)
    ensures
        r == pct_closed(s@),
{
    let mut cur: &[u8] = s;
    loop
        invariant
            pct_closed(s@) == pct_closed(cur@),
        decreases cur@.len(),
    {
        let p = scan_pct(cur, 0);
        if p >= cur.len() {
            return true;
        }
        proof {
            lemma_find_pct(cur@, 0);
        }
        let q = crate::quick::scan_find_byte(cur, RPAREN, p + 2);
        if q >= cur.len() {
            return false;
        }
        let next = vstd::slice::slice_subrange(cur, q + 1, cur.len());
        proof {
            assert(pct_closed(cur@) == pct_closed(next@));
            crate::quick::lemma_find_byte(cur@, RPAREN, p + 2);
            assert(next@.len() < cur@.len());
        }
        cur = next;
    }
}

} // verus!
