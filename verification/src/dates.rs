//! The natural-language date resolver: arguments of `date.before`,
//! `date.after`, `date.since`, `date.on` and `date.between` are resolved
//! against the current local time and replaced by Unix timestamps. An
//! `on` argument expands into two comma-separated timestamps spanning
//! exactly one calendar day of 86 400 seconds, so that `on` and
//! `between` share the same two-argument shape downstream.

use vstd::prelude::*;
use crate::ascii::COMMA;
use crate::decimal::{dec_int, i64_to_dec};
use crate::errors::FilterError;
use crate::scan::{
    lemma_spec_scan_wf, lemma_splice_identity, scan_calls, seqs_of, sites_model, some_literal_of,
    spec_scan, splice, substitute, CallSite, ScanError, ScanIssue, SiteModel,
};
use crate::tokens::{
    tok_date_recv, tok_date_recv_vec, tok_m_after, tok_m_after_vec, tok_m_before,
    tok_m_before_vec, tok_m_between, tok_m_between_vec, tok_m_on, tok_m_on_vec, tok_m_since,
    tok_m_since_vec,
};

verus! {

/// Whether ambiguous numeric dates read day-first or month-first.
#[derive(Clone, Copy, PartialEq, Eq, Structural)]
pub enum DateDialect {
    DayFirst,
    MonthFirst,
}

/// The date-comparison methods the resolver accepts.
pub open spec fn date_methods() -> Seq<Seq<u8>> {
    seq![tok_m_before(), tok_m_after(), tok_m_since(), tok_m_on(), tok_m_between()]
}

pub fn date_methods_vec() -> (r: Vec<Vec<u8>>)
    ensures
        seqs_of(r@) == date_methods(),
{
    let mut r: Vec<Vec<u8>> = Vec::new();
    r.push(tok_m_before_vec());
    r.push(tok_m_after_vec());
    r.push(tok_m_since_vec());
    r.push(tok_m_on_vec());
    r.push(tok_m_between_vec());
    proof {
        assert(seqs_of(r@) =~= date_methods());
    }
    r
}

/// The replacement for one `on` argument: the day's start and the next
/// day's start, comma-separated.
pub open spec fn on_rep(ds: i64) -> Seq<u8> {
    dec_int(ds as int) + seq![COMMA] + dec_int(ds as int + 86400)
}

/// An `on` replacement is exactly two comma-separated integers, the
/// earlier first, one calendar day of 86 400 seconds apart.
pub proof fn lemma_on_rep_day_span(ds: i64)
    ensures
        exists|t1: int, t2: int|
            on_rep(ds) == dec_int(t1) + seq![COMMA] + dec_int(t2) && t1 < t2 && t2 - t1 == 86400,
{
    let t1 = ds as int;
    let t2 = ds as int + 86400;
    assert(on_rep(ds) == dec_int(t1) + seq![COMMA] + dec_int(t2) && t1 < t2 && t2 - t1 == 86400);
}

/// A `between` call's two arguments are resolved independently and the
/// replacement keeps them in the literal order given, whatever their
/// chronological order.
pub proof fn lemma_between_keeps_order(t: Seq<u8>, s: SiteModel, vals: Seq<(i64, i64)>)
    requires
        s.args.len() == 2,
        vals.len() == 2,
        t.subrange(s.m_start, s.m_end) == tok_m_between(),
    ensures
        crate::scan::join_commas(date_site_reps(t, s, vals)) == dec_int(vals[0].0 as int) + seq![
            COMMA,
        ] + dec_int(vals[1].0 as int),
{
    let reps = date_site_reps(t, s, vals);
    assert(tok_m_between() != tok_m_on()) by {
        assert(tok_m_between().len() != tok_m_on().len());
    }
    assert(reps[0] == dec_int(vals[0].0 as int));
    assert(reps[1] == dec_int(vals[1].0 as int));
    assert(reps.skip(1).len() == 1);
    assert(reps.skip(1)[0] == reps[1]);
    assert(crate::scan::join_commas(reps.skip(1)) == reps[1]);
    assert(crate::scan::join_commas(reps) == reps[0] + seq![COMMA] + reps[1]);
}

/// The replacement texts of one date call site, from the resolved
/// values `vals[j] == (timestamp, day start)` of its literals: an `on`
/// site gets the two-timestamp day span, every other site the plain
/// timestamp.
pub open spec fn date_site_reps(t: Seq<u8>, s: SiteModel, vals: Seq<(i64, i64)>) -> Seq<Seq<u8>> {
    Seq::new(
        s.args.len(),
        |j: int|
            if t.subrange(s.m_start, s.m_end) == tok_m_on() {
                on_rep(vals[j].1)
            } else {
                dec_int(vals[j].0 as int)
            },
    )
}

pub open spec fn date_reps(t: Seq<u8>, sites: Seq<SiteModel>, vals: Seq<Seq<(i64, i64)>>) -> Seq<
    Seq<Seq<u8>>,
> {
    Seq::new(sites.len(), |k: int| date_site_reps(t, sites[k], vals[k]))
}

/// What a successful date pass guarantees: the scan of `input` for
/// `date` calls succeeded, and `out` is `input` with every literal
/// argument replaced by resolved timestamps, `on` arguments by a
/// one-day span.
pub open spec fn dates_rewritten(input: Seq<u8>, out: Seq<u8>) -> bool {
    match spec_scan(input, tok_date_recv(), date_methods(), 0) {
        Ok(sites) => exists|vals: Seq<Seq<(i64, i64)>>|
            {
                &&& vals.len() == sites.len()
                &&& (forall|k: int|
                    0 <= k < sites.len() ==> (#[trigger] vals[k]).len() == sites[k].args.len())
                &&& out == splice(input, tok_date_recv(), sites, date_reps(input, sites, vals), 0)
            },
        Err(_) => false,
    }
}

/// What a failed date pass guarantees: a scanning failure is reported
/// as the matching error with the `date` receiver and its allow-list,
/// and a resolution failure reports one of the literal arguments.
pub open spec fn dates_failed(input: Seq<u8>, e: FilterError) -> bool {
    match spec_scan(input, tok_date_recv(), date_methods(), 0) {
        Err(issue) => match issue {
            ScanIssue::UnknownMethod { method } => e matches FilterError::UnknownMethod {
                receiver,
                method: m2,
                allowed,
            } && receiver@ == tok_date_recv() && m2@ == method && seqs_of(allowed@)
                == date_methods(),
            ScanIssue::Malformed => e matches FilterError::MalformedArgument { receiver }
                && receiver@ == tok_date_recv(),
            ScanIssue::Unterminated => e matches FilterError::UnterminatedString { receiver }
                && receiver@ == tok_date_recv(),
        },
        Ok(sites) => e matches FilterError::DateParse { input: lit } && some_literal_of(
            input,
            sites,
            lit@,
        ),
    }
}

/// The last second of the year 9999: the largest anchor the resolver
/// accepts, far past any sane clock but comfortably inside chrono's own
/// range even after the largest relative jump a bounded literal can ask
/// for.
pub const MAX_ANCHOR: i64 = 253402300799;

/// Every run of decimal digits in `s` is at most six bytes long, so
/// every numeric component a date string can carry is below a million.
pub open spec fn short_digit_runs(s: Seq<u8>) -> bool {
    forall|i: int| 0 <= i <= s.len() ==> crate::numbers::digits_end(s, i) <= i + 6
}

fn check_digit_runs(s: &[u8]) -> (r: bool)
    ensures
        r == short_digit_runs(s@),
{
    let mut i: usize = 0;
    while i < s.len()
        invariant
            0 <= i <= s@.len(),
            forall|j: int| 0 <= j < i ==> crate::numbers::digits_end(s@, j) <= j + 6,
        decreases s@.len() - i,
    {
        let d = crate::numbers::scan_digits_end(s, i);
        if d - i > 6 {
            return false;
        }
        i += 1;
    }
    proof {
        assert(crate::numbers::digits_end(s@, s@.len() as int) == s@.len() as int);
    }
    true
}

/// Relies on `chrono::Local::now`: the current instant as Unix seconds.
/// The date pass reads it once, so every literal of one pass resolves
/// against the same anchor; nothing is assumed of the clock's value.
#[verifier::external_body]
fn now_timestamp() -> (r: i64) {
    chrono::Local::now().timestamp()
}

/// Relies on `chrono_english::parse_date_string`, anchored at the given
/// instant (rebuilt as a local `chrono` time): resolves a
/// natural-language date string against that anchor and the given
/// dialect, returning the instant's Unix timestamp together with the
/// timestamp of the same local time with hour and minute zeroed (the
/// day's start). The result depends on the machine's time zone, so
/// nothing is assumed about the returned values; a string
/// chrono-english cannot parse, an anchor the zone cannot place, or a
/// day start the zone does not have, is reported as the error. The
/// preconditions exclude the callee's reachable aborts: it slices the
/// first one or three bytes off identifier tokens, which panics on a
/// multi-byte character, so the input must be ASCII; its meridiem and
/// zone-offset arithmetic is unchecked 32-bit, safe once every numeric
/// component is below a million, so digit runs are capped at six; and
/// an anchor at most the year 9999 keeps the largest bounded relative
/// jump inside chrono's calendar.
#[verifier::external_body]
fn resolve_date_str(s: &[u8], dialect: DateDialect, anchor: i64) -> (r: Result<(i64, i64), ()>)
    requires
        crate::ascii::all_ascii(s@),
        short_digit_runs(s@),
        0 <= anchor <= MAX_ANCHOR,
{
    let text = std::str::from_utf8(s).map_err(|_| ())?;
    let now = match chrono::TimeZone::timestamp_opt(&chrono::Local, anchor, 0) {
        chrono::LocalResult::Single(t) => t,
        _ => return Err(()),
    };
    let d = match dialect {
        DateDialect::DayFirst => chrono_english::Dialect::Uk,
        DateDialect::MonthFirst => chrono_english::Dialect::Us,
    };
    let dt = chrono_english::parse_date_string(text, now, d).map_err(|_| ())?;
    let hour = chrono::Timelike::with_hour(&dt, 0).ok_or(())?;
    let start = chrono::Timelike::with_minute(&hour, 0).ok_or(())?;
    Ok((dt.timestamp(), start.timestamp()))
}

/// A resolution failure on the literal at site `kk`, argument `jj`, is
/// a correctly reported date-parse failure.
#[verifier::rlimit(50)]
proof fn lemma_dates_parse_failed(
    input: Seq<u8>,
    e: FilterError,
    sm: Seq<SiteModel>,
    kk: int,
    jj: int,
)
    requires
        spec_scan(input, tok_date_recv(), date_methods(), 0) == Ok::<Seq<SiteModel>, ScanIssue>(
            sm,
        ),
        0 <= kk < sm.len(),
        0 <= jj < sm[kk].args.len(),
        e matches FilterError::DateParse { input: lit } && lit@ == input.subrange(
            (sm[kk].args[jj]).0,
            sm[kk].args[jj].1,
        ),
    ensures
        dates_failed(input, e),
{
    match e {
        FilterError::DateParse { input: lit } => {
            assert(some_literal_of(input, sm, lit@)) by {
                assert(0 <= kk < sm.len() && 0 <= jj < sm[kk].args.len() && lit@ == input.subrange(
                    (#[trigger] sm[kk].args[jj]).0,
                    sm[kk].args[jj].1,
                ));
            }
        },
        _ => {
            assert(false);
        },
    }
}

/// Resolves every `date.<method>("...")` argument in `text` into Unix
/// timestamps; text with no such call is returned unchanged. The "now"
/// anchor is read from the clock once, before the first literal, so
/// every literal of one pass resolves against the same instant. A
/// literal with a non-ASCII byte or with a run of more than six digits
/// is rejected as unresolvable before the resolver is called (its
/// grammar matches neither, and it cannot be handed them safely).
pub fn preprocess_dates(text: &[u8], dialect: DateDialect) -> (res: Result<Vec<u8>, FilterError>)
    ensures
        match res {
            Ok(out) => dates_rewritten(text@, out@),
            Err(e) => dates_failed(text@, e),
        },
        spec_scan(text@, tok_date_recv(), date_methods(), 0) == Ok::<Seq<SiteModel>, ScanIssue>(
            Seq::<SiteModel>::empty(),
        ) ==> (res matches Ok(out) && out@ == text@),
{
    let receiver = tok_date_recv_vec();
    let methods = date_methods_vec();
    let sites: Vec<CallSite> = match scan_calls(text, receiver.as_slice(), &methods) {
        Err(ScanError::UnknownMethod { method }) => {
            return Err(
                FilterError::UnknownMethod { receiver, method, allowed: methods },
            );
        },
        Err(ScanError::MalformedArgument) => {
            return Err(FilterError::MalformedArgument { receiver });
        },
        Err(ScanError::UnterminatedString) => {
            return Err(FilterError::UnterminatedString { receiver });
        },
        Ok(s) => s,
    };
    let ghost sm = sites_model(sites@);
    proof {
        lemma_spec_scan_wf(text@, tok_date_recv(), date_methods(), 0);
    }
    let on_w = tok_m_on_vec();
    let now = now_timestamp();
    let anchor: i64 = if now < 0 {
        0
    } else if now > MAX_ANCHOR {
        MAX_ANCHOR
    } else {
        now
    };
    let mut reps: Vec<Vec<Vec<u8>>> = Vec::new();
    let ghost mut vals: Seq<Seq<(i64, i64)>> = Seq::empty();
    let mut k: usize = 0;
    while k < sites.len()
        invariant
            0 <= k <= sites@.len(),
            sm == sites_model(sites@),
            spec_scan(text@, tok_date_recv(), date_methods(), 0) == Ok::<Seq<SiteModel>, ScanIssue>(
                sm,
            ),
            crate::scan::sites_wf(text@, sm, 0),
            on_w@ == tok_m_on(),
            0 <= anchor <= MAX_ANCHOR,
            reps@.len() == k,
            vals.len() == k,
            forall|x: int|
                0 <= x < k ==> (#[trigger] vals[x]).len() == sm[x].args.len(),
            forall|x: int|
                0 <= x < k ==> seqs_of((#[trigger] reps@[x])@) == date_site_reps(
                    text@,
                    sm[x],
                    vals[x],
                ),
        decreases sites@.len() - k,
    {
        let site = &sites[k];
        proof {
            assert(crate::scan::site_wf(text@, sm[k as int]));
            assert(sm[k as int] == sites@[k as int]@);
        }
        let m_slice = vstd::slice::slice_subrange(text, site.m_start, site.m_end);
        let is_on = crate::scan::eq_bytes(m_slice, on_w.as_slice());
        let mut srep: Vec<Vec<u8>> = Vec::new();
        let ghost mut sv: Seq<(i64, i64)> = Seq::empty();
        let mut j: usize = 0;
        while j < site.args.len()
            invariant
                0 <= j <= site.args@.len(),
                sm == sites_model(sites@),
                spec_scan(text@, tok_date_recv(), date_methods(), 0) == Ok::<
                    Seq<SiteModel>,
                    ScanIssue,
                >(sm),
                0 <= k < sites@.len(),
                site == &sites@[k as int],
                crate::scan::site_wf(text@, sm[k as int]),
                sm[k as int] == sites@[k as int]@,
                is_on == (text@.subrange(sm[k as int].m_start, sm[k as int].m_end)
                    == tok_m_on()),
                0 <= anchor <= MAX_ANCHOR,
                srep@.len() == j,
                sv.len() == j,
                forall|y: int|
                    0 <= y < j ==> (#[trigger] srep@[y])@ == date_site_reps(
                        text@,
                        sm[k as int],
                        sv,
                    )[y],
            decreases site.args@.len() - j,
        {
            let (a0, a1) = site.args[j];
            proof {
                assert(sm[k as int].args[j as int] == (a0 as int, a1 as int));
            }
            let lit = vstd::slice::slice_to_vec(vstd::slice::slice_subrange(text, a0, a1));
            if !crate::ascii::ascii_bytes(lit.as_slice()) || !check_digit_runs(lit.as_slice()) {
                let err = FilterError::DateParse { input: lit };
                proof {
                    lemma_dates_parse_failed(text@, err, sm, k as int, j as int);
                }
                return Err(err);
            }
            match resolve_date_str(lit.as_slice(), dialect, anchor) {
                Err(_) => {
                    let err = FilterError::DateParse { input: lit };
                    proof {
                        lemma_dates_parse_failed(text@, err, sm, k as int, j as int);
                    }
                    return Err(err);
                },
                Ok((ts, ds)) => {
                    let ghost sv0 = sv;
                    let rep: Vec<u8> = if is_on {
                        if ds > i64::MAX - 86400 {
                            let err = FilterError::DateParse { input: lit };
                            proof {
                                lemma_dates_parse_failed(text@, err, sm, k as int, j as int);
                            }
                            return Err(err);
                        }
                        let mut r = i64_to_dec(ds);
                        r.push(COMMA);
                        let second = i64_to_dec(ds + 86400);
                        crate::scan::push_slice(&mut r, second.as_slice());
                        proof {
                            assert(r@ =~= on_rep(ds));
                        }
                        r
                    } else {
                        i64_to_dec(ts)
                    };
                    srep.push(rep);
                    proof {
                        sv = sv.push((ts, ds));
                        assert forall|y: int| 0 <= y < j + 1 implies (#[trigger] srep@[y])@
                            == date_site_reps(text@, sm[k as int], sv)[y] by {
                            if y < j {
                                assert(date_site_reps(text@, sm[k as int], sv0)[y]
                                    == date_site_reps(text@, sm[k as int], sv)[y]);
                            }
                        }
                    }
                    j += 1;
                },
            }
        }
        reps.push(srep);
        proof {
            let ghost vals0 = vals;
            vals = vals.push(sv);
            assert forall|x: int| 0 <= x < k + 1 implies seqs_of((#[trigger] reps@[x])@)
                == date_site_reps(text@, sm[x], vals[x]) by {
            if x < k {
                assert(reps@[x] == reps@.subrange(0, k as int)[x]);
            } else {
                assert(seqs_of(reps@[x]@) =~= date_site_reps(text@, sm[x], vals[x]));
            }
        }
        }
        k += 1;
    }
    let out = substitute(text, receiver.as_slice(), &sites, &reps);
    proof {
        assert(crate::scan::reps_model(reps@) =~~= date_reps(text@, sm, vals));
        assert(dates_rewritten(text@, out@));
        if sm.len() == 0 {
            assert(sm =~= Seq::<SiteModel>::empty());
            lemma_splice_identity(text@, tok_date_recv(), crate::scan::reps_model(reps@));
        }
    }
    Ok(out)
}

/// The timestamp facade that the expression engine calls the date
/// comparison methods on: one entry's modification time in Unix seconds.
#[derive(Clone)]
pub struct DateImpl {
    pub tstamp: i64,
}

impl DateImpl {
    /// Wraps a modification time, reinterpreting the unsigned seconds
    /// as a signed timestamp.
    pub fn new(tstamp: u64) -> (r: DateImpl)
        ensures
            r.tstamp == tstamp as i64,
    {
        DateImpl { tstamp: #[verifier::truncate] (tstamp as i64) }
    }

    /// The entry is older than `t`.
    pub fn before(&mut self, t: i64) -> (r: bool)
        ensures
            r == (old(self).tstamp < t),
            *final(self) == *old(self),
    {
        self.tstamp < t
    }

    /// The entry is newer than `t`.
    pub fn after(&mut self, t: i64) -> (r: bool)
        ensures
            r == (old(self).tstamp > t),
            *final(self) == *old(self),
    {
        self.tstamp > t
    }

    /// The entry lies strictly between `t1` and `t2`.
    pub fn between(&mut self, t1: i64, t2: i64) -> (r: bool)
        ensures
            r == (old(self).tstamp > t1 && old(self).tstamp < t2),
            *final(self) == *old(self),
    {
        self.tstamp > t1 && self.tstamp < t2
    }
}

} // verus!
