//! The quick-filter synthesizer: a single shorthand string — a glob,
//! optionally followed by a size or date condition — becomes a full
//! filter expression. A `;` separates glob and condition when present;
//! otherwise the first space splits them, unless the glob-looking prefix
//! ends in an extension or a slash (file names may contain spaces). A
//! glob not starting with `*` is prefixed with `*` (extension shorthand
//! like `.rs`) or `*/` (general case); one trailing `/` is stripped.

use vstd::prelude::*;
use crate::ascii::{is_space, DOT, GT, LT, SEMI, SLASH, SPACE, STAR};
use crate::errors::FilterError;
use crate::scan::{push_slice, ws_end};
use crate::tokens::{
    tok_q_close, tok_q_close_vec, tok_q_date_open, tok_q_date_open_vec, tok_q_date_pre,
    tok_q_date_pre_vec, tok_q_matches, tok_q_matches_nc, tok_q_matches_nc_vec, tok_q_matches_vec,
    tok_q_size, tok_q_size_vec, tok_star_slash, tok_star_slash_vec,
};

verus! {

/// Position of the first `c` at or after `i`, or the text length.
pub open spec fn find_byte(t: Seq<u8>, c: u8, i: int) -> int
    decreases t.len() - i,
{
    if 0 <= i < t.len() {
        if t[i] == c {
            i
        } else {
            find_byte(t, c, i + 1)
        }
    } else {
        t.len() as int
    }
}

pub proof fn lemma_find_byte(t: Seq<u8>, c: u8, i: int)
    requires
        0 <= i <= t.len(),
    ensures
        i <= find_byte(t, c, i) <= t.len(),
        find_byte(t, c, i) < t.len() ==> t[find_byte(t, c, i)] == c,
    decreases t.len() - i,
{
    if i < t.len() && t[i] != c {
        lemma_find_byte(t, c, i + 1);
    }
}

pub(crate) fn scan_find_byte(t: &[u8], c: u8, i: usize) -> (r: usize)
    requires
        i <= t@.len(),
    ensures
        r as int == find_byte(t@, c, i as int),
        i <= r <= t@.len(),
        r < t@.len() ==> t@[r as int] == c,
{
    let mut j: usize = i;
    while j < t.len()
        invariant
            i <= j <= t@.len(),
            find_byte(t@, c, i as int) == find_byte(t@, c, j as int),
        decreases t@.len() - j,
    {
        if t[j] == c {
            return j;
        }
        j += 1;
    }
    j
}

fn scan_ws_end(t: &[u8], i: usize) -> (r: usize)
    requires
        i <= t@.len(),
    ensures
        r as int == ws_end(t@, i as int),
        i <= r <= t@.len(),
{
    let mut j: usize = i;
    while j < t.len()
        invariant
            i <= j <= t@.len(),
            ws_end(t@, i as int) == ws_end(t@, j as int),
        decreases t@.len() - j,
    {
        if !crate::ascii::space_byte(t[j]) {
            return j;
        }
        j += 1;
    }
    j
}

/// The split of `t` at the first `sep`: the word before it, and the
/// rest with leading whitespace trimmed; no separator leaves the whole
/// text as the word.
pub open spec fn word_rest_spec(t: Seq<u8>, sep: u8) -> (Seq<u8>, Seq<u8>) {
    let p = find_byte(t, sep, 0);
    if p < t.len() {
        (t.take(p), t.subrange(ws_end(t, p + 1), t.len() as int))
    } else {
        (t, Seq::empty())
    }
}

/// Splits `txt` at the first `sep` into the word before it and the
/// rest, trimmed of leading whitespace; without a separator the whole
/// text is the word and the rest is empty.
pub fn word_rest<'a>(txt: &'a [u8], sep: u8) -> (r: (&'a [u8], &'a [u8]))
    ensures
        (r.0@, r.1@) == word_rest_spec(txt@, sep),
{
    let p = scan_find_byte(txt, sep, 0);
    if p < txt.len() {
        let w = scan_ws_end(txt, p + 1);
        let before = vstd::slice::slice_subrange(txt, 0, p);
        let rest = vstd::slice::slice_subrange(txt, w, txt.len());
        proof {
            assert(txt@.take(p as int) =~= txt@.subrange(0, p as int));
        }
        (before, rest)
    } else {
        let all = vstd::slice::slice_subrange(txt, 0, txt.len());
        proof {
            assert(all@ =~= txt@);
        }
        (all, vstd::slice::slice_subrange(txt, txt.len(), txt.len()))
    }
}

/// The shorthand's glob-looking prefix ends in a file extension (a dot
/// followed only by non-space bytes) or in a slash after a non-space
/// byte, so a space inside it does not separate a condition.
pub open spec fn ends_ext_or_slash(g: Seq<u8>) -> bool {
    ||| exists|p: int|
        0 <= p < g.len() - 1 && g[p] == DOT && (forall|q: int|
            p < q < g.len() ==> !is_space(#[trigger] g[q]))
    ||| (g.len() >= 2 && g[g.len() - 1] == SLASH && !is_space(g[g.len() - 2]))
}

fn nonspace_suffix_start(g: &[u8]) -> (i: usize)
    ensures
        0 <= i <= g@.len(),
        forall|q: int| i <= q < g@.len() ==> !is_space(#[trigger] g@[q]),
        i > 0 ==> is_space(g@[i - 1]),
{
    let mut i: usize = g.len();
    while i > 0
        invariant
            0 <= i <= g@.len(),
            forall|q: int| i <= q < g@.len() ==> !is_space(#[trigger] g@[q]),
        decreases i,
    {
        if crate::ascii::space_byte(g[i - 1]) {
            return i;
        }
        i -= 1;
    }
    i
}

fn check_ends_ext_or_slash(g: &[u8]) -> (r: bool)
    ensures
        r == ends_ext_or_slash(g@),
{
    let n = g.len();
    if n >= 2 && g[n - 1] == SLASH && !crate::ascii::space_byte(g[n - 2]) {
        return true;
    }
    let i = nonspace_suffix_start(g);
    // every byte at or after `i` is non-space; a space stands at i-1 if i > 0
    let mut p: usize = i;
    while p < n
        invariant
            i <= p <= n == g@.len(),
            forall|q: int| i <= q < n ==> !is_space(#[trigger] g@[q]),
            i > 0 ==> is_space(g@[i - 1]),
            forall|q: int| i <= q < p ==> g@[q] != DOT || q >= n - 1,
        decreases n - p,
    {
        if g[p] == DOT && p < n - 1 {
            return true;
        }
        p += 1;
    }
    proof {
        assert forall|pp: int|
            0 <= pp < g@.len() - 1 && g@[pp] == DOT implies !(forall|q: int|
            pp < q < g@.len() ==> !is_space(#[trigger] g@[q])) by {
            if pp >= i {
                assert(g@[pp] != DOT || pp >= n - 1);
            } else {
                // the space at i - 1 breaks the run after the dot
                assert(is_space(g@[i - 1]));
                if pp == i - 1 {
                    assert(!is_space(g@[pp]));
                }
                assert(pp < i - 1 < g@.len());
            }
        }
    }
    false
}

/// The synthesized expression: the glob part becomes a `path.matches`
/// or `path.matches_ignore_case` call on the normalized wildcard, and a
/// trailing condition becomes a size comparison (leading `<` or `>`) or
/// a `date.<word>(...)` call. An empty glob part cannot be split into
/// glob and condition.
pub open spec fn spec_quick(g: Seq<u8>, nocase: bool) -> Result<Seq<u8>, ()> {
    let pair = if find_byte(g, SEMI, 0) >= g.len() {
        if !ends_ext_or_slash(g) {
            word_rest_spec(g, SPACE)
        } else {
            (g, Seq::<u8>::empty())
        }
    } else {
        word_rest_spec(g, SEMI)
    };
    let glob0 = pair.0;
    let rest = pair.1;
    let glob1 = if glob0.len() > 0 && glob0[glob0.len() - 1] == SLASH {
        glob0.drop_last()
    } else {
        glob0
    };
    if glob1.len() == 0 {
        Err(())
    } else {
        let wildcard = if glob1[0] != STAR {
            if glob1[0] == DOT {
                seq![STAR]
            } else {
                tok_star_slash()
            }
        } else {
            Seq::<u8>::empty()
        };
        let head = (if nocase {
            tok_q_matches_nc()
        } else {
            tok_q_matches()
        }) + wildcard + glob1 + tok_q_close();
        if rest.len() > 0 {
            let opr = word_rest_spec(rest, SPACE);
            if opr.0 == seq![LT] || opr.0 == seq![GT] {
                Ok(head + tok_q_size() + opr.0 + seq![SPACE] + opr.1)
            } else {
                Ok(head + tok_q_date_pre() + opr.0 + tok_q_date_open() + opr.1 + tok_q_close())
            }
        } else {
            Ok(head)
        }
    }
}

/// Synthesizes a full filter expression from a shorthand glob with an
/// optional size or date condition; the result is meant to be fed into
/// the full pipeline as if the user had typed it.
#[verifier::rlimit(100)]
pub fn preprocess_quick_filter(glob: &[u8], nocase: bool) -> (res: Result<Vec<u8>, FilterError>)
    ensures
        match res {
            Ok(out) => spec_quick(glob@, nocase) == Ok::<Seq<u8>, ()>(out@),
            Err(e) => e matches FilterError::BadSeparator && spec_quick(glob@, nocase) == Err::<
                Seq<u8>,
                (),
            >(()),
        },
{
    let semi = scan_find_byte(glob, SEMI, 0);
    let (glob0, rest): (&[u8], &[u8]) = if semi >= glob.len() {
        if !check_ends_ext_or_slash(glob) {
            word_rest(glob, SPACE)
        } else {
            let all = vstd::slice::slice_subrange(glob, 0, glob.len());
            let none = vstd::slice::slice_subrange(glob, glob.len(), glob.len());
            proof {
                assert(all@ =~= glob@);
                assert(none@ =~= Seq::<u8>::empty());
            }
            (all, none)
        }
    } else {
        word_rest(glob, SEMI)
    };
    let glob1: &[u8] = if glob0.len() > 0 && glob0[glob0.len() - 1] == SLASH {
        let gg = vstd::slice::slice_subrange(glob0, 0, glob0.len() - 1);
        proof {
            assert(gg@ =~= glob0@.drop_last());
        }
        gg
    } else {
        glob0
    };
    if glob1.len() == 0 {
        return Err(FilterError::BadSeparator);
    }
    let mut out: Vec<u8> = if nocase {
        tok_q_matches_nc_vec()
    } else {
        tok_q_matches_vec()
    };
    if glob1[0] != STAR {
        if glob1[0] == DOT {
            out.push(STAR);
        } else {
            let sl = tok_star_slash_vec();
            push_slice(&mut out, sl.as_slice());
        }
    }
    push_slice(&mut out, glob1);
    let close = tok_q_close_vec();
    push_slice(&mut out, close.as_slice());
    let ghost head = out@;
    if rest.len() > 0 {
        let (op, rest2) = word_rest(rest, SPACE);
        let is_size = op.len() == 1 && (op[0] == LT || op[0] == GT);
        proof {
            assert((op@ == seq![LT] || op@ == seq![GT]) == is_size) by {
                if op@.len() == 1 && (op@[0] == LT || op@[0] == GT) {
                    if op@[0] == LT {
                        assert(op@ =~= seq![LT]);
                    } else {
                        assert(op@ =~= seq![GT]);
                    }
                }
            }
        }
        if is_size {
            let sz = tok_q_size_vec();
            push_slice(&mut out, sz.as_slice());
            push_slice(&mut out, op);
            out.push(SPACE);
            push_slice(&mut out, rest2);
        } else {
            let pre = tok_q_date_pre_vec();
            push_slice(&mut out, pre.as_slice());
            push_slice(&mut out, op);
            let dopen = tok_q_date_open_vec();
            push_slice(&mut out, dopen.as_slice());
            push_slice(&mut out, rest2);
            let close2 = tok_q_close_vec();
            push_slice(&mut out, close2.as_slice());
        }
    }
    proof {
        assert(spec_quick(glob@, nocase) == Ok::<Seq<u8>, ()>(out@)) by {
            assert(spec_quick(glob@, nocase) is Ok);
            let want = spec_quick(glob@, nocase)->Ok_0;
            assert(out@ =~= want);
        }
    }
    Ok(out)
}

} // verus!
