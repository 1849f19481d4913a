//! The shared scanning engine: locates `receiver.method("literal", ...)`
//! call sites in a byte text, validates the method name against an
//! allow-list, and splices caller-supplied replacement text over each
//! quoted argument. Both the date pass and the glob pass are built on it.

use vstd::prelude::*;
use crate::ascii::{
    is_ident_byte, is_space, starts_with_at, COMMA, DOT, LPAREN, QUOTE, RPAREN,
};

verus! {

/// First position at or after `i` whose byte is not an identifier byte.
pub open spec fn ident_end(t: Seq<u8>, i: int) -> int
    decreases t.len() - i,
{
    if 0 <= i < t.len() && is_ident_byte(t[i]) {
        ident_end(t, i + 1)
    } else {
        i
    }
}

/// First position at or after `i` whose byte is not whitespace.
pub open spec fn ws_end(t: Seq<u8>, i: int) -> int
    decreases t.len() - i,
{
    if 0 <= i < t.len() && is_space(t[i]) {
        ws_end(t, i + 1)
    } else {
        i
    }
}

/// Position of the first `"` at or after `i`, or the text length if none.
pub open spec fn quote_close(t: Seq<u8>, i: int) -> int
    decreases t.len() - i,
{
    if 0 <= i < t.len() {
        if t[i] == QUOTE {
            i
        } else {
            quote_close(t, i + 1)
        }
    } else {
        t.len() as int
    }
}

pub proof fn lemma_ident_end(t: Seq<u8>, i: int)
    requires
        0 <= i <= t.len(),
    ensures
        i <= ident_end(t, i) <= t.len(),
    decreases t.len() - i,
{
    if i < t.len() && is_ident_byte(t[i]) {
        lemma_ident_end(t, i + 1);
    }
}

pub proof fn lemma_ws_end(t: Seq<u8>, i: int)
    requires
        0 <= i <= t.len(),
    ensures
        i <= ws_end(t, i) <= t.len(),
    decreases t.len() - i,
{
    if i < t.len() && is_space(t[i]) {
        lemma_ws_end(t, i + 1);
    }
}

pub proof fn lemma_quote_close(t: Seq<u8>, i: int)
    requires
        0 <= i <= t.len(),
    ensures
        i <= quote_close(t, i) <= t.len(),
        quote_close(t, i) < t.len() ==> t[quote_close(t, i)] == QUOTE,
    decreases t.len() - i,
{
    if i < t.len() && t[i] != QUOTE {
        lemma_quote_close(t, i + 1);
    }
}

/// A call of some method on the receiver `r` begins at position `i`:
/// the receiver name, a dot, a nonempty identifier, then (after optional
/// whitespace) an opening parenthesis.
pub open spec fn call_at(t: Seq<u8>, r: Seq<u8>, i: int) -> bool {
    &&& starts_with_at(t, i, r)
    &&& i + r.len() < t.len()
    &&& t[i + r.len()] == DOT
    &&& ident_end(t, i + r.len() + 1) > i + r.len() + 1
    &&& {
        let p = ws_end(t, ident_end(t, i + r.len() + 1));
        p < t.len() && t[p] == LPAREN
    }
}

/// One located call site, as positions into the scanned text: the
/// receiver starts at `start`, the method name occupies
/// `[m_start, m_end)`, the opening parenthesis stands just before
/// `p_end`, the quoted literal arguments have inner spans `args`, and
/// the whole call ends just past the closing parenthesis, at `end`.
pub ghost struct SiteModel {
    pub start: int,
    pub m_start: int,
    pub m_end: int,
    pub p_end: int,
    pub args: Seq<(int, int)>,
    pub end: int,
}

/// Why a scan failed.
pub ghost enum ScanIssue {
    /// The method name is not in the allow-list.
    UnknownMethod { method: Seq<u8> },
    /// An argument is not a double-quoted string literal.
    Malformed,
    /// An opening quote is never closed.
    Unterminated,
}

/// The outcome of parsing an argument list from just after `(`.
pub ghost enum ArgsOut {
    Parsed { spans: Seq<(int, int)>, end: int },
    Malformed,
    Unterminated,
}

/// Parses a comma-separated list of double-quoted literals followed by
/// `)`, starting at `i` (just past `(` or past a comma). Yields the
/// inner span of each literal and the position just past `)`.
pub open spec fn parse_args(t: Seq<u8>, i: int) -> ArgsOut
    decreases t.len() - i,
    via parse_args_decreases
{
    if !(0 <= i <= t.len()) {
        ArgsOut::Malformed
    } else {
        let j = ws_end(t, i);
        if j >= t.len() || t[j] != QUOTE {
            ArgsOut::Malformed
        } else {
            let k = quote_close(t, j + 1);
            if k >= t.len() {
                ArgsOut::Unterminated
            } else {
                let j2 = ws_end(t, k + 1);
                if j2 >= t.len() {
                    ArgsOut::Malformed
                } else if t[j2] == RPAREN {
                    ArgsOut::Parsed { spans: seq![(j + 1, k)], end: j2 + 1 }
                } else if t[j2] == COMMA {
                    match parse_args(t, j2 + 1) {
                        ArgsOut::Parsed { spans, end } => ArgsOut::Parsed {
                            spans: seq![(j + 1, k)] + spans,
                            end,
                        },
                        e => e,
                    }
                } else {
                    ArgsOut::Malformed
                }
            }
        }
    }
}

#[via_fn]
proof fn parse_args_decreases(t: Seq<u8>, i: int) {
    if 0 <= i <= t.len() {
        lemma_ws_end(t, i);
        let j = ws_end(t, i);
        if j < t.len() && t[j] == QUOTE {
            lemma_quote_close(t, j + 1);
            let k = quote_close(t, j + 1);
            if k < t.len() {
                lemma_ws_end(t, k + 1);
            }
        }
    }
}

/// Bounds of a successful argument parse: it consumes at least one byte,
/// stays within the text, and every literal span lies inside it.
pub proof fn lemma_parse_args_wf(t: Seq<u8>, i: int)
    requires
        0 <= i <= t.len(),
    ensures
        parse_args(t, i) matches ArgsOut::Parsed { spans, end } ==> {
            &&& i < end <= t.len()
            &&& spans.len() >= 1
            &&& forall|k: int|
                0 <= k < spans.len() ==> i < (#[trigger] spans[k]).0 <= spans[k].1 < end
        },
    decreases t.len() - i,
{
    lemma_ws_end(t, i);
    let j = ws_end(t, i);
    if j < t.len() && t[j] == QUOTE {
        lemma_quote_close(t, j + 1);
        let k = quote_close(t, j + 1);
        if k < t.len() {
            lemma_ws_end(t, k + 1);
            let j2 = ws_end(t, k + 1);
            if j2 < t.len() && t[j2] == COMMA {
                lemma_parse_args_wf(t, j2 + 1);
            }
        }
    }
}

/// Scans `t` from position `i` for call sites of receiver `r`, left to
/// right. A method outside `allowed` or a bad argument list stops the
/// scan with the corresponding issue; text inside an accepted call is
/// not rescanned.
pub open spec fn spec_scan(t: Seq<u8>, r: Seq<u8>, allowed: Seq<Seq<u8>>, i: int) -> Result<
    Seq<SiteModel>,
    ScanIssue,
>
    decreases t.len() - i,
    via spec_scan_decreases
{
    if !(0 <= i < t.len()) {
        Ok(Seq::empty())
    } else if call_at(t, r, i) {
        let ms = i + r.len() + 1;
        let me = ident_end(t, ms);
        let method = t.subrange(ms, me);
        if !allowed.contains(method) {
            Err(ScanIssue::UnknownMethod { method })
        } else {
            let p = ws_end(t, me);
            match parse_args(t, p + 1) {
                ArgsOut::Malformed => Err(ScanIssue::Malformed),
                ArgsOut::Unterminated => Err(ScanIssue::Unterminated),
                ArgsOut::Parsed { spans, end } => match spec_scan(t, r, allowed, end) {
                    Err(e) => Err(e),
                    Ok(rest) => Ok(
                        seq![
                            SiteModel {
                                start: i,
                                m_start: ms,
                                m_end: me,
                                p_end: p + 1,
                                args: spans,
                                end,
                            },
                        ] + rest,
                    ),
                },
            }
        }
    } else {
        spec_scan(t, r, allowed, i + 1)
    }
}

#[via_fn]
proof fn spec_scan_decreases(t: Seq<u8>, r: Seq<u8>, allowed: Seq<Seq<u8>>, i: int) {
    if 0 <= i < t.len() && call_at(t, r, i) {
        let ms = i + r.len() + 1;
        lemma_ident_end(t, ms);
        let me = ident_end(t, ms);
        lemma_ws_end(t, me);
        let p = ws_end(t, me);
        if p < t.len() {
            lemma_parse_args_wf(t, p + 1);
        }
    }
}

/// One site's spans are ordered and lie within the text.
pub open spec fn site_wf(t: Seq<u8>, s: SiteModel) -> bool {
    &&& 0 <= s.start <= s.m_start <= s.m_end < s.p_end < s.end <= t.len()
    &&& forall|k: int|
        0 <= k < s.args.len() ==> s.m_end < (#[trigger] s.args[k]).0 <= s.args[k].1 < s.end
}

/// The sites are each well formed, start at or after `lo`, and do not
/// overlap, listed left to right.
pub open spec fn sites_wf(t: Seq<u8>, sites: Seq<SiteModel>, lo: int) -> bool {
    &&& forall|k: int| 0 <= k < sites.len() ==> site_wf(t, #[trigger] sites[k])
    &&& forall|k: int| 0 <= k < sites.len() ==> lo <= (#[trigger] sites[k]).start
    &&& forall|k: int|
        0 <= k && k + 1 < sites.len() ==> (#[trigger] sites[k]).end <= sites[k + 1].start
}

/// Everything the scan reports is well formed.
pub proof fn lemma_spec_scan_wf(t: Seq<u8>, r: Seq<u8>, allowed: Seq<Seq<u8>>, i: int)
    requires
        0 <= i <= t.len(),
    ensures
        spec_scan(t, r, allowed, i) matches Ok(sites) ==> sites_wf(t, sites, i),
    decreases t.len() - i,
{
    if !(0 <= i < t.len()) {
    } else if call_at(t, r, i) {
        let ms = i + r.len() + 1;
        lemma_ident_end(t, ms);
        let me = ident_end(t, ms);
        let method = t.subrange(ms, me);
        if allowed.contains(method) {
            lemma_ws_end(t, me);
            let p = ws_end(t, me);
            if p < t.len() {
                lemma_parse_args_wf(t, p + 1);
                match parse_args(t, p + 1) {
                    ArgsOut::Parsed { spans, end } => {
                        lemma_spec_scan_wf(t, r, allowed, end);
                        match spec_scan(t, r, allowed, end) {
                            Ok(rest) => {
                                let s0 = SiteModel {
                                    start: i,
                                    m_start: ms,
                                    m_end: me,
                                    p_end: p + 1,
                                    args: spans,
                                    end,
                                };
                                assert(site_wf(t, s0));
                                let sites = seq![s0] + rest;
                                assert forall|k: int| 0 <= k < sites.len() implies site_wf(
                                    t,
                                    #[trigger] sites[k],
                                ) by {
                                    if k > 0 {
                                        assert(sites[k] == rest[k - 1]);
                                    }
                                }
                                assert forall|k: int| 0 <= k < sites.len() implies i <= (
                                #[trigger] sites[k]).start by {
                                    if k > 0 {
                                        assert(sites[k] == rest[k - 1]);
                                    }
                                }
                                assert forall|k: int| 0 <= k && k + 1 < sites.len() implies (
                                #[trigger] sites[k]).end <= sites[k + 1].start by {
                                    if k > 0 {
                                        assert(sites[k] == rest[k - 1]);
                                        assert(sites[k + 1] == rest[k]);
                                    } else {
                                        assert(sites[1] == rest[0]);
                                    }
                                }
                            },
                            Err(_) => {},
                        }
                    },
                    _ => {},
                }
            }
        }
    } else {
        lemma_spec_scan_wf(t, r, allowed, i + 1);
        match spec_scan(t, r, allowed, i + 1) {
            Ok(sites) => {
                assert(spec_scan(t, r, allowed, i) == Ok::<Seq<SiteModel>, ScanIssue>(sites));
            },
            Err(_) => {},
        }
    }
}

/// Text in which no call of the receiver begins anywhere scans to no
/// call sites at all, so every rewriting pass built on the scanner
/// returns such text unchanged.
pub proof fn lemma_scan_identity(t: Seq<u8>, r: Seq<u8>, allowed: Seq<Seq<u8>>, i: int)
    requires
        0 <= i <= t.len(),
        forall|j: int| i <= j < t.len() ==> !call_at(t, r, j),
    ensures
        spec_scan(t, r, allowed, i) == Ok::<Seq<SiteModel>, ScanIssue>(Seq::<SiteModel>::empty()),
    decreases t.len() - i,
{
    if i < t.len() {
        lemma_scan_identity(t, r, allowed, i + 1);
    }
}

/// The replacement text for one call site: the receiver, the dot, then
/// the input's own bytes from the method name through the opening
/// parenthesis (any whitespace written there stays), then the
/// replacement arguments joined by commas, and the closing parenthesis.
pub open spec fn render(t: Seq<u8>, r: Seq<u8>, s: SiteModel, reps: Seq<Seq<u8>>) -> Seq<u8> {
    r + seq![DOT] + t.subrange(s.m_start, s.p_end) + join_commas(reps) + seq![RPAREN]
}

/// Joins replacement argument texts with commas.
pub open spec fn join_commas(reps: Seq<Seq<u8>>) -> Seq<u8>
    decreases reps.len(),
{
    if reps.len() == 0 {
        Seq::empty()
    } else if reps.len() == 1 {
        reps[0]
    } else {
        reps[0] + seq![COMMA] + join_commas(reps.skip(1))
    }
}

/// The text from `pos` on with each site replaced by its rendering:
/// the bytes between call sites are kept as they are.
pub open spec fn splice(
    t: Seq<u8>,
    r: Seq<u8>,
    sites: Seq<SiteModel>,
    reps: Seq<Seq<Seq<u8>>>,
    pos: int,
) -> Seq<u8>
    decreases sites.len(),
{
    if sites.len() == 0 {
        t.subrange(pos, t.len() as int)
    } else {
        t.subrange(pos, sites[0].start) + render(t, r, sites[0], reps[0]) + splice(
            t,
            r,
            sites.skip(1),
            reps.skip(1),
            sites[0].end,
        )
    }
}

/// `lit` is the text of one literal argument of one of the call sites.
pub open spec fn some_literal_of(input: Seq<u8>, sites: Seq<SiteModel>, lit: Seq<u8>) -> bool {
    exists|k: int, j: int|
        {
            &&& 0 <= k < sites.len()
            &&& 0 <= j < sites[k].args.len()
            &&& lit == input.subrange((#[trigger] sites[k].args[j]).0, sites[k].args[j].1)
        }
}

/// Splicing no sites is the identity.
pub proof fn lemma_splice_identity(t: Seq<u8>, r: Seq<u8>, reps: Seq<Seq<Seq<u8>>>)
    ensures
        splice(t, r, Seq::empty(), reps, 0) == t,
{
    assert(splice(t, r, Seq::empty(), reps, 0) =~= t);
}

} // verus!

verus! {

/// One located call site, as executable positions into the scanned text.
pub struct CallSite {
    pub start: usize,
    pub m_start: usize,
    pub m_end: usize,
    pub p_end: usize,
    pub args: Vec<(usize, usize)>,
    pub end: usize,
}

impl View for CallSite {
    type V = SiteModel;

    open spec fn view(&self) -> SiteModel {
        SiteModel {
            start: self.start as int,
            m_start: self.m_start as int,
            m_end: self.m_end as int,
            p_end: self.p_end as int,
            args: spans_model(self.args@),
            end: self.end as int,
        }
    }
}

pub open spec fn spans_model(s: Seq<(usize, usize)>) -> Seq<(int, int)> {
    s.map_values(|p: (usize, usize)| (p.0 as int, p.1 as int))
}

pub open spec fn sites_model(s: Seq<CallSite>) -> Seq<SiteModel> {
    s.map_values(|c: CallSite| c@)
}

/// The byte sequences of a list of byte vectors.
pub open spec fn seqs_of(s: Seq<Vec<u8>>) -> Seq<Seq<u8>> {
    s.map_values(|x: Vec<u8>| x@)
}

/// The nested byte sequences of a per-site list of replacement texts.
pub open spec fn reps_model(s: Seq<Vec<Vec<u8>>>) -> Seq<Seq<Seq<u8>>> {
    s.map_values(|v: Vec<Vec<u8>>| seqs_of(v@))
}

/// Why an executable scan failed.
pub enum ScanError {
    UnknownMethod { method: Vec<u8> },
    MalformedArgument,
    UnterminatedString,
}

pub open spec fn issue_of(e: ScanError) -> ScanIssue {
    match e {
        ScanError::UnknownMethod { method } => ScanIssue::UnknownMethod { method: method@ },
        ScanError::MalformedArgument => ScanIssue::Malformed,
        ScanError::UnterminatedString => ScanIssue::Unterminated,
    }
}

pub open spec fn args_issue_of(e: ScanError) -> ArgsOut {
    match e {
        ScanError::UnknownMethod { method: _ } => ArgsOut::Malformed,
        ScanError::MalformedArgument => ArgsOut::Malformed,
        ScanError::UnterminatedString => ArgsOut::Unterminated,
    }
}

fn scan_ident_end(t: &[u8], i: usize) -> (r: usize)
    requires
        i <= t@.len(),
    ensures
        r as int == ident_end(t@, i as int),
        i <= r <= t@.len(),
{
    let mut j: usize = i;
    while j < t.len()
        invariant
            i <= j <= t@.len(),
            ident_end(t@, i as int) == ident_end(t@, j as int),
        decreases t@.len() - j,
    {
        if !crate::ascii::ident_byte(t[j]) {
            return j;
        }
        j += 1;
    }
    j
}

fn scan_ws_end(t: &[u8], i: usize) -> (r: usize)
    requires
        i <= t@.len(),
    ensures
        r as int == ws_end(t@, i as int),
        i <= r <= t@.len(),
{
    let mut j: usize = i;
    while j < t.len()
        invariant
            i <= j <= t@.len(),
            ws_end(t@, i as int) == ws_end(t@, j as int),
        decreases t@.len() - j,
    {
        if !crate::ascii::space_byte(t[j]) {
            return j;
        }
        j += 1;
    }
    j
}

fn scan_quote_close(t: &[u8], i: usize) -> (r: usize)
    requires
        i <= t@.len(),
    ensures
        r as int == quote_close(t@, i as int),
        i <= r <= t@.len(),
{
    let mut j: usize = i;
    while j < t.len()
        invariant
            i <= j <= t@.len(),
            quote_close(t@, i as int) == quote_close(t@, j as int),
        decreases t@.len() - j,
    {
        if t[j] == QUOTE {
            return j;
        }
        j += 1;
    }
    j
}

/// Byte-for-byte equality of two slices.
pub fn eq_bytes(a: &[u8], b: &[u8]) -> (r: bool)
    ensures
        r == (a@ == b@),
{
    if a.len() != b.len() {
        return false;
    }
    let mut k: usize = 0;
    while k < a.len()
        invariant
            0 <= k <= a@.len(),
            a@.len() == b@.len(),
            forall|j: int| 0 <= j < k ==> a@[j] == b@[j],
        decreases a@.len() - k,
    {
        if a[k] != b[k] {
            return false;
        }
        k += 1;
    }
    proof {
        assert(a@ =~= b@);
    }
    true
}

fn contains_bytes(allowed: &Vec<Vec<u8>>, m: &[u8]) -> (r: bool)
    ensures
        r == seqs_of(allowed@).contains(m@),
{
    let mut k: usize = 0;
    while k < allowed.len()
        invariant
            0 <= k <= allowed@.len(),
            forall|j: int| 0 <= j < k ==> seqs_of(allowed@)[j] != m@,
        decreases allowed@.len() - k,
    {
        if eq_bytes(allowed[k].as_slice(), m) {
            proof {
                assert(seqs_of(allowed@)[k as int] == m@);
            }
            return true;
        }
        k += 1;
    }
    proof {
        assert forall|j: int| 0 <= j < seqs_of(allowed@).len() implies seqs_of(allowed@)[j]
            != m@ by {}
    }
    false
}

fn check_call_at(t: &[u8], r: &[u8], i: usize) -> (res: bool)
    requires
        i <= t@.len(),
    ensures
        res == call_at(t@, r@, i as int),
{
    if !crate::ascii::check_starts_with_at(t, i, r) {
        return false;
    }
    let n = t.len();
    proof {
        assert(i + r@.len() <= n);
    }
    let d = i + r.len();
    if d >= t.len() {
        return false;
    }
    if t[d] != DOT {
        return false;
    }
    let ms = d + 1;
    let me = scan_ident_end(t, ms);
    if me <= ms {
        return false;
    }
    let p = scan_ws_end(t, me);
    if p >= t.len() {
        return false;
    }
    if t[p] != LPAREN {
        return false;
    }
    true
}

fn parse_args_exec(t: &[u8], i: usize) -> (res: Result<(Vec<(usize, usize)>, usize), ScanError>)
    requires
        i <= t@.len(),
    ensures
        match res {
            Ok(se) => parse_args(t@, i as int) == (ArgsOut::Parsed {
                spans: spans_model(se.0@),
                end: se.1 as int,
            }) && se.1 <= t@.len(),
            Err(e) => parse_args(t@, i as int) == args_issue_of(e) && !(e matches
            ScanError::UnknownMethod { .. }),
        },
{
    let mut cur: usize = i;
    let mut acc: Vec<(usize, usize)> = Vec::new();
    loop
        invariant
            i <= cur <= t@.len(),
            parse_args(t@, i as int) == (match parse_args(t@, cur as int) {
                ArgsOut::Parsed { spans, end } => ArgsOut::Parsed {
                    spans: spans_model(acc@) + spans,
                    end,
                },
                e => e,
            }),
        decreases t@.len() - cur,
    {
        let ghost cur0 = cur as int;
        let ghost acc0 = acc@;
        let j = scan_ws_end(t, cur);
        if j >= t.len() {
            return Err(ScanError::MalformedArgument);
        }
        if t[j] != QUOTE {
            return Err(ScanError::MalformedArgument);
        }
        let k = scan_quote_close(t, j + 1);
        if k >= t.len() {
            return Err(ScanError::UnterminatedString);
        }
        let j2 = scan_ws_end(t, k + 1);
        if j2 >= t.len() {
            return Err(ScanError::MalformedArgument);
        }
        if t[j2] == RPAREN {
            acc.push((j + 1, k));
            proof {
                assert(parse_args(t@, cur0) == (ArgsOut::Parsed {
                    spans: seq![(j + 1 as int, k as int)],
                    end: j2 + 1 as int,
                }));
                assert(spans_model(acc0) + seq![(j + 1 as int, k as int)] =~= spans_model(acc@));
            }
            return Ok((acc, j2 + 1));
        } else if t[j2] == COMMA {
            acc.push((j + 1, k));
            cur = j2 + 1;
            proof {
                match parse_args(t@, cur as int) {
                    ArgsOut::Parsed { spans, end } => {
                        assert(parse_args(t@, cur0) == (ArgsOut::Parsed {
                            spans: seq![(j + 1 as int, k as int)] + spans,
                            end,
                        }));
                        assert(spans_model(acc0) + (seq![(j + 1 as int, k as int)] + spans)
                            =~= spans_model(acc@) + spans);
                    },
                    _ => {},
                }
            }
        } else {
            return Err(ScanError::MalformedArgument);
        }
    }
}

/// Finds every call site of the receiver `r` in `t`, left to right,
/// failing on a method outside `allowed` or on a bad argument list,
/// exactly as the scanning specification says.
pub fn scan_calls(t: &[u8], r: &[u8], allowed: &Vec<Vec<u8>>) -> (res: Result<
    Vec<CallSite>,
    ScanError,
>)
    ensures
        match res {
            Ok(sites) => spec_scan(t@, r@, seqs_of(allowed@), 0) == Ok::<_, ScanIssue>(
                sites_model(sites@),
            ),
            Err(e) => spec_scan(t@, r@, seqs_of(allowed@), 0) == Err::<Seq<SiteModel>, _>(
                issue_of(e),
            ),
        },
{
    let ghost aseq = seqs_of(allowed@);
    let mut i: usize = 0;
    let mut acc: Vec<CallSite> = Vec::new();
    proof {
        assert(sites_model(acc@) =~= Seq::<SiteModel>::empty());
    }
    while i < t.len()
        invariant
            0 <= i <= t@.len(),
            aseq == seqs_of(allowed@),
            spec_scan(t@, r@, aseq, 0) == (match spec_scan(t@, r@, aseq, i as int) {
                Ok(rest) => Ok::<Seq<SiteModel>, ScanIssue>(sites_model(acc@) + rest),
                Err(e) => Err::<Seq<SiteModel>, ScanIssue>(e),
            }),
        decreases t@.len() - i,
    {
        let ghost i0 = i as int;
        let ghost acc0 = acc@;
        if check_call_at(t, r, i) {
            let ms = i + r.len() + 1;
            let me = scan_ident_end(t, ms);
            proof {
                assert(ms <= t@.len()) by {
                    if ms > t@.len() {
                        assert(ident_end(t@, ms as int) == ms as int);
                    }
                }
            }
            let m_slice = vstd::slice::slice_subrange(t, ms, me);
            if !contains_bytes(allowed, m_slice) {
                let method = vstd::slice::slice_to_vec(m_slice);
                return Err(ScanError::UnknownMethod { method });
            }
            let p = scan_ws_end(t, me);
            match parse_args_exec(t, p + 1) {
                Err(e) => {
                    return Err(e);
                },
                Ok((spans, end)) => {
                    proof {
                        lemma_parse_args_wf(t@, p + 1 as int);
                    }
                    let site = CallSite {
                        start: i,
                        m_start: ms,
                        m_end: me,
                        p_end: p + 1,
                        args: spans,
                        end,
                    };
                    acc.push(site);
                    i = end;
                    proof {
                        match spec_scan(t@, r@, aseq, i as int) {
                            Ok(rest) => {
                                assert(sites_model(acc0) + (seq![site@] + rest) =~= sites_model(
                                    acc@,
                                ) + rest);
                            },
                            Err(_) => {},
                        }
                    }
                },
            }
        } else {
            i += 1;
        }
    }
    proof {
        assert(spec_scan(t@, r@, aseq, i as int) == Ok::<Seq<SiteModel>, ScanIssue>(Seq::empty()));
        assert(sites_model(acc@) + Seq::<SiteModel>::empty() =~= sites_model(acc@));
    }
    Ok(acc)
}

} // verus!

verus! {

/// Appends `t[a..b]` to `out`.
pub fn push_range(out: &mut Vec<u8>, t: &[u8], a: usize, b: usize)
    requires
        a <= b <= t@.len(),
    ensures
        final(out)@ == old(out)@ + t@.subrange(a as int, b as int),
{
    let mut j: usize = a;
    proof {
        assert(out@ =~= old(out)@ + t@.subrange(a as int, a as int));
    }
    while j < b
        invariant
            a <= j <= b <= t@.len(),
            out@ == old(out)@ + t@.subrange(a as int, j as int),
        decreases b - j,
    {
        out.push(t[j]);
        j += 1;
        proof {
            assert(old(out)@ + t@.subrange(a as int, j - 1) + seq![t@[j - 1]] =~= old(out)@
                + t@.subrange(a as int, j as int));
        }
    }
}

/// Appends all of `p` to `out`.
pub fn push_slice(out: &mut Vec<u8>, p: &[u8])
    ensures
        final(out)@ == old(out)@ + p@,
{
    let mut j: usize = 0;
    proof {
        assert(out@ =~= old(out)@ + p@.subrange(0, 0));
    }
    while j < p.len()
        invariant
            0 <= j <= p@.len(),
            out@ == old(out)@ + p@.subrange(0, j as int),
        decreases p@.len() - j,
    {
        out.push(p[j]);
        j += 1;
        proof {
            assert(old(out)@ + p@.subrange(0, j - 1) + seq![p@[j - 1]] =~= old(out)@ + p@.subrange(
                0,
                j as int,
            ));
        }
    }
    proof {
        assert(p@.subrange(0, p@.len() as int) =~= p@);
    }
}

/// Appending one more replacement extends a comma join at the end.
proof fn lemma_join_push(s: Seq<Seq<u8>>, x: Seq<u8>)
    ensures
        s.len() == 0 ==> join_commas(s.push(x)) == x,
        s.len() >= 1 ==> join_commas(s.push(x)) == join_commas(s) + seq![COMMA] + x,
    decreases s.len(),
{
    if s.len() == 0 {
        assert(s.push(x)[0] =~= x);
        assert(join_commas(s.push(x)) == x);
    } else {
        assert(s.push(x).skip(1) =~= s.skip(1).push(x));
        lemma_join_push(s.skip(1), x);
        if s.len() == 1 {
            assert(s.skip(1).len() == 0);
            assert(join_commas(s.push(x)) == s[0] + seq![COMMA] + x);
            assert(join_commas(s) == s[0]);
        } else {
            assert(join_commas(s.push(x)) == s[0] + seq![COMMA] + (join_commas(s.skip(1))
                + seq![COMMA] + x));
            assert(s[0] + seq![COMMA] + (join_commas(s.skip(1)) + seq![COMMA] + x) =~= (s[0]
                + seq![COMMA] + join_commas(s.skip(1))) + seq![COMMA] + x);
        }
    }
}

/// Appends the replacement arguments joined by commas.
fn push_join(out: &mut Vec<u8>, reps: &Vec<Vec<u8>>)
    ensures
        final(out)@ == old(out)@ + join_commas(seqs_of(reps@)),
{
    let ghost full = seqs_of(reps@);
    let mut j: usize = 0;
    proof {
        assert(out@ =~= old(out)@ + join_commas(full.take(0)));
    }
    while j < reps.len()
        invariant
            0 <= j <= reps@.len(),
            full == seqs_of(reps@),
            out@ == old(out)@ + join_commas(full.take(j as int)),
        decreases reps@.len() - j,
    {
        let ghost before = out@;
        if j > 0 {
            out.push(COMMA);
        }
        push_slice(out, reps[j].as_slice());
        j += 1;
        proof {
            assert(full.take(j - 1).push(full[j - 1]) =~= full.take(j as int));
            lemma_join_push(full.take(j - 1), full[j - 1]);
            if j - 1 == 0 {
                assert(out@ =~= old(out)@ + join_commas(full.take(j as int)));
            } else {
                assert(out@ =~= old(out)@ + (join_commas(full.take(j - 1)) + seq![COMMA] + full[j
                    - 1]));
            }
        }
    }
    proof {
        assert(full.take(reps@.len() as int) =~= full);
    }
}

/// Rewrites `t` by replacing each site's parenthesized arguments with
/// the given replacement texts, keeping everything between sites.
#[verifier::rlimit(100)]
pub fn substitute(t: &[u8], r: &[u8], sites: &Vec<CallSite>, reps: &Vec<Vec<Vec<u8>>>) -> (out:
    Vec<u8>)
    requires
        sites_wf(t@, sites_model(sites@), 0),
        reps@.len() == sites@.len(),
    ensures
        out@ == splice(t@, r@, sites_model(sites@), reps_model(reps@), 0),
{
    let ghost sm = sites_model(sites@);
    let ghost rm = reps_model(reps@);
    let mut out: Vec<u8> = Vec::new();
    let mut pos: usize = 0;
    let mut k: usize = 0;
    proof {
        assert(sm.skip(0) =~= sm);
        assert(rm.skip(0) =~= rm);
        assert(out@ =~= Seq::<u8>::empty() + out@);
        assert(splice(t@, r@, sm, rm, 0) =~= out@ + splice(t@, r@, sm.skip(0), rm.skip(0), 0));
    }
    while k < sites.len()
        invariant
            0 <= k <= sites@.len(),
            reps@.len() == sites@.len(),
            sm == sites_model(sites@),
            rm == reps_model(reps@),
            sites_wf(t@, sm, 0),
            pos <= t@.len(),
            k < sites@.len() ==> pos <= sm[k as int].start,
            splice(t@, r@, sm, rm, 0) == out@ + splice(
                t@,
                r@,
                sm.skip(k as int),
                rm.skip(k as int),
                pos as int,
            ),
        decreases sites@.len() - k,
    {
        let ghost out0 = out@;
        let ghost pos0 = pos as int;
        let ghost k0 = k as int;
        let site = &sites[k];
        proof {
            assert(site_wf(t@, sm[k0]));
            assert(sm[k0] == sites@[k0]@);
        }
        push_range(&mut out, t, pos, site.start);
        push_slice(&mut out, r);
        out.push(DOT);
        push_range(&mut out, t, site.m_start, site.p_end);
        push_join(&mut out, &reps[k]);
        out.push(RPAREN);
        pos = site.end;
        k += 1;
        proof {
            let s0 = sm[k0];
            let rend = render(t@, r@, s0, rm[k0]);
            assert(rm[k0] == seqs_of(reps@[k0]@));
            assert(out@ =~= out0 + t@.subrange(pos0, s0.start) + rend);
            assert(sm.skip(k0)[0] == s0);
            assert(rm.skip(k0)[0] == rm[k0]);
            assert(sm.skip(k0).skip(1) =~= sm.skip(k as int));
            assert(rm.skip(k0).skip(1) =~= rm.skip(k as int));
            assert(splice(t@, r@, sm.skip(k0), rm.skip(k0), pos0) == t@.subrange(pos0, s0.start)
                + rend + splice(t@, r@, sm.skip(k as int), rm.skip(k as int), s0.end));
            assert(out0 + (t@.subrange(pos0, s0.start) + rend + splice(
                t@,
                r@,
                sm.skip(k as int),
                rm.skip(k as int),
                s0.end,
            )) =~= (out0 + t@.subrange(pos0, s0.start) + rend) + splice(
                t@,
                r@,
                sm.skip(k as int),
                rm.skip(k as int),
                s0.end,
            ));
            if k < sites.len() {
                assert(sm[k as int].start >= sm[k0].end);
            }
        }
    }
    push_range(&mut out, t, pos, t.len());
    proof {
        assert(sm.skip(k as int) =~= Seq::<SiteModel>::empty());
        assert(splice(t@, r@, sm.skip(k as int), rm.skip(k as int), pos as int) == t@.subrange(
            pos as int,
            t@.len() as int,
        ));
    }
    out
}

} // verus!
