//! Word-operator normalization: the standalone words `and`, `or` and
//! `not` become `&&`, `||` and `!`. Matching is on word boundaries, so
//! substrings such as `android` stay intact, and text inside
//! double-quoted spans is never touched.

use vstd::prelude::*;
use crate::ascii::{is_word_byte, starts_with_at, QUOTE};
use crate::tokens::{
    tok_op_and, tok_op_or, tok_w_and, tok_w_and_vec, tok_w_not, tok_w_not_vec, tok_w_or,
    tok_w_or_vec,
};

verus! {

pub const BANG: u8 = 33;

pub const AMP: u8 = 38;

pub const PIPE: u8 = 124;

/// The word `w` occurs at `i` in `t` on word boundaries.
pub open spec fn word_at(t: Seq<u8>, i: int, w: Seq<u8>) -> bool {
    &&& starts_with_at(t, i, w)
    &&& (i == 0 || !is_word_byte(t[i - 1]))
    &&& (i + w.len() == t.len() || !is_word_byte(t[i + w.len()]))
}

/// The normalized text from position `i` on, `inq` saying whether `i`
/// lies inside a double-quoted span. A quote toggles the state; outside
/// quotes the three operator words are replaced; all else is copied.
pub open spec fn normalized(t: Seq<u8>, i: int, inq: bool) -> Seq<u8>
    decreases t.len() - i,
{
    if i < 0 || i >= t.len() {
        Seq::empty()
    } else if t[i] == QUOTE {
        seq![QUOTE] + normalized(t, i + 1, !inq)
    } else if !inq && word_at(t, i, tok_w_and()) {
        tok_op_and() + normalized(t, i + 3, inq)
    } else if !inq && word_at(t, i, tok_w_or()) {
        tok_op_or() + normalized(t, i + 2, inq)
    } else if !inq && word_at(t, i, tok_w_not()) {
        seq![BANG] + normalized(t, i + 3, inq)
    } else {
        seq![t[i]] + normalized(t, i + 1, inq)
    }
}

fn check_word_at(t: &[u8], i: usize, w: &[u8]) -> (r: bool)
    requires
        i <= t@.len(),
    ensures
        r == word_at(t@, i as int, w@),
{
    if !crate::ascii::check_starts_with_at(t, i, w) {
        return false;
    }
    if i > 0 && crate::ascii::word_byte(t[i - 1]) {
        return false;
    }
    let after = i + w.len();
    if after < t.len() && crate::ascii::word_byte(t[after]) {
        return false;
    }
    true
}

/// Rewrites the standalone words `and`, `or`, `not` outside quoted spans
/// into the symbolic operators.
pub fn normalize_word_operators(text: &[u8]) -> (out: Vec<u8>)
    ensures
        out@ == normalized(text@, 0, false),
{
    let and_w = tok_w_and_vec();
    let or_w = tok_w_or_vec();
    let not_w = tok_w_not_vec();
    let mut out: Vec<u8> = Vec::new();
    let mut i: usize = 0;
    let mut inq: bool = false;
    proof {
        assert(normalized(text@, 0, false) =~= out@ + normalized(text@, 0, false));
    }
    while i < text.len()
        invariant
            0 <= i <= text@.len(),
            and_w@ == tok_w_and(),
            or_w@ == tok_w_or(),
            not_w@ == tok_w_not(),
            normalized(text@, 0, false) == out@ + normalized(text@, i as int, inq),
        decreases text@.len() - i,
    {
        let ghost out0 = out@;
        let ghost i0 = i as int;
        let ghost inq0 = inq;
        let b = text[i];
        if b == QUOTE {
            out.push(QUOTE);
            inq = !inq;
            i = i + 1;
            proof {
                assert(normalized(text@, i0, inq0) == seq![QUOTE] + normalized(
                    text@,
                    i as int,
                    inq,
                ));
                assert(out0 + normalized(text@, i0, inq0) =~= out@ + normalized(
                    text@,
                    i as int,
                    inq,
                ));
            }
        } else if !inq && check_word_at(text, i, and_w.as_slice()) {
            out.push(AMP);
            out.push(AMP);
            i = i + 3;
            proof {
                assert(normalized(text@, i0, inq) == tok_op_and() + normalized(
                    text@,
                    i as int,
                    inq,
                ));
                assert(out0 + normalized(text@, i0, inq) =~= out@ + normalized(
                    text@,
                    i as int,
                    inq,
                ));
            }
        } else if !inq && check_word_at(text, i, or_w.as_slice()) {
            out.push(PIPE);
            out.push(PIPE);
            i = i + 2;
            proof {
                assert(normalized(text@, i0, inq) == tok_op_or() + normalized(
                    text@,
                    i as int,
                    inq,
                ));
                assert(out0 + normalized(text@, i0, inq) =~= out@ + normalized(
                    text@,
                    i as int,
                    inq,
                ));
            }
        } else if !inq && check_word_at(text, i, not_w.as_slice()) {
            out.push(BANG);
            i = i + 3;
            proof {
                assert(normalized(text@, i0, inq) == seq![BANG] + normalized(
                    text@,
                    i as int,
                    inq,
                ));
                assert(out0 + normalized(text@, i0, inq) =~= out@ + normalized(
                    text@,
                    i as int,
                    inq,
                ));
            }
        } else {
            out.push(b);
            i = i + 1;
            proof {
                assert(normalized(text@, i0, inq) == seq![b] + normalized(text@, i as int, inq));
                assert(out0 + normalized(text@, i0, inq) =~= out@ + normalized(
                    text@,
                    i as int,
                    inq,
                ));
            }
        }
    }
    proof {
        assert(normalized(text@, i as int, inq) =~= Seq::empty());
        assert(out@ + normalized(text@, i as int, inq) =~= out@);
    }
    out
}

} // verus!

verus! {

/// Text with no word-boundary occurrence of `and`, `or` or `not`
/// anywhere is returned unchanged by normalization — in particular,
/// words that merely contain an operator word, such as `android`, are
/// never altered.
pub proof fn lemma_normalize_identity(t: Seq<u8>, i: int, inq: bool)
    requires
        0 <= i <= t.len(),
        forall|j: int| 0 <= j < t.len() ==> !#[trigger] word_at(t, j, tok_w_and()),
        forall|j: int| 0 <= j < t.len() ==> !#[trigger] word_at(t, j, tok_w_or()),
        forall|j: int| 0 <= j < t.len() ==> !#[trigger] word_at(t, j, tok_w_not()),
    ensures
        normalized(t, i, inq) == t.subrange(i, t.len() as int),
    decreases t.len() - i,
{
    if i < t.len() {
        if t[i] == QUOTE {
            lemma_normalize_identity(t, i + 1, !inq);
        } else {
            lemma_normalize_identity(t, i + 1, inq);
        }
        assert(seq![t[i]] + t.subrange(i + 1, t.len() as int) =~= t.subrange(i, t.len() as int));
    } else {
        assert(t.subrange(i, t.len() as int) =~= Seq::<u8>::empty());
    }
}

/// Inside a double-quoted span, normalization copies every byte
/// verbatim up to and including the closing quote, whatever operator
/// words the literal contains; only after the quote does rewriting
/// resume.
pub proof fn lemma_normalize_quoted_span(t: Seq<u8>, i: int)
    requires
        0 <= i <= t.len(),
    ensures
        ({
            let qc = crate::scan::quote_close(t, i);
            if qc < t.len() {
                normalized(t, i, true) == t.subrange(i, qc + 1) + normalized(t, qc + 1, false)
            } else {
                normalized(t, i, true) == t.subrange(i, t.len() as int)
            }
        }),
    decreases t.len() - i,
{
    let qc = crate::scan::quote_close(t, i);
    if i >= t.len() {
        assert(t.subrange(i, t.len() as int) =~= Seq::<u8>::empty());
    } else if t[i] == QUOTE {
        assert(qc == i);
        assert(t.subrange(i, i + 1) =~= seq![QUOTE]);
    } else {
        lemma_normalize_quoted_span(t, i + 1);
        assert(qc == crate::scan::quote_close(t, i + 1));
        crate::scan::lemma_quote_close(t, i + 1);
        if qc < t.len() {
            assert(seq![t[i]] + (t.subrange(i + 1, qc + 1) + normalized(t, qc + 1, false))
                =~= t.subrange(i, qc + 1) + normalized(t, qc + 1, false));
        } else {
            assert(seq![t[i]] + t.subrange(i + 1, t.len() as int) =~= t.subrange(
                i,
                t.len() as int,
            ));
        }
    }
}

} // verus!
