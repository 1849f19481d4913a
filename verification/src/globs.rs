//! The glob pattern registrar: arguments of `path.matches` and
//! `path.matches_ignore_case` are compiled into glob patterns, appended
//! to an ordered table in first-seen, left-to-right order, and each
//! literal is replaced by the decimal index of its table entry, which
//! the evaluation engine uses to look the pattern up at run time.

use vstd::prelude::*;
use crate::decimal::{dec_digits, u64_to_dec};
use crate::errors::FilterError;
use crate::scan::{
    lemma_spec_scan_wf, lemma_splice_identity, scan_calls, seqs_of, sites_model, some_literal_of,
    spec_scan, splice, substitute, CallSite, ScanError, ScanIssue, SiteModel,
};
use crate::tokens::{
    tok_m_matches, tok_m_matches_nc, tok_m_matches_nc_vec, tok_m_matches_vec, tok_path_recv,
    tok_path_recv_vec,
};

verus! {

/// Whether a pattern is matched case-sensitively; a facade for the
/// match options the glob crate is eventually called with.
#[derive(Clone, Copy, Debug, PartialEq, Eq, Structural)]
pub enum GlobIgnoreCase {
    CaseSensitive,
    CaseInsensitive,
}

#[verifier::external_type_specification]
#[verifier::external_body]
pub struct ExPattern(glob::Pattern);

pub assume_specification[ <glob::Pattern as Clone>::clone ](p: &glob::Pattern) -> glob::Pattern;

/// Whether `glob::Pattern::new` accepts these bytes as a pattern: a
/// function of the bytes alone, named here because wildcard validity
/// takes the glob crate's grammar to state.
pub uninterp spec fn glob_ok(s: Seq<u8>) -> bool;

/// The pattern object `glob::Pattern::new` compiles from these bytes:
/// also a function of the bytes alone, named so that contracts can tie
/// each table entry's pattern to the source text it came from.
pub uninterp spec fn compiled_of(s: Seq<u8>) -> glob::Pattern;

/// Relies on `glob::Pattern::new`: compiles shell-style wildcard
/// syntax. Compilation is a pure function of the pattern bytes:
/// whether it succeeds is named by `glob_ok`, and the compiled object
/// by `compiled_of`; a failure carries the position and message that
/// the glob crate reports, or nothing when the bytes are not UTF-8.
#[verifier::external_body]
fn compile_glob(s: &[u8]) -> (r: Result<glob::Pattern, Option<(usize, Vec<u8>)>>)
    ensures
        r is Ok <==> glob_ok(s@),
        r matches Ok(p) ==> p == compiled_of(s@),
{
    let text = match std::str::from_utf8(s) {
        Ok(t) => t,
        Err(_) => return Err(None),
    };
    match glob::Pattern::new(text) {
        Ok(p) => Ok(p),
        Err(e) => Err(Some((e.pos, e.msg.as_bytes().to_vec()))),
    }
}

/// One entry of the run's pattern table: the compiled pattern (always
/// `compiled_of` its source), the source text it was compiled from, and
/// its case mode.
#[derive(Clone)]
pub struct GlobEntry {
    pub pattern: glob::Pattern,
    pub source: Vec<u8>,
    pub case: GlobIgnoreCase,
}

/// The table as sources and case modes.
pub open spec fn table_model(t: Seq<GlobEntry>) -> Seq<(Seq<u8>, GlobIgnoreCase)> {
    t.map_values(|e: GlobEntry| (e.source@, e.case))
}

/// Every entry's pattern object is the compilation of its own source
/// text: what the evaluator will match with is what the literal said.
pub open spec fn table_patterns_compiled(t: Seq<GlobEntry>) -> bool {
    forall|n: int| 0 <= n < t.len() ==> (#[trigger] t[n]).pattern == compiled_of(t[n].source@)
}

/// The path methods the registrar accepts.
pub open spec fn path_methods() -> Seq<Seq<u8>> {
    seq![tok_m_matches_nc(), tok_m_matches()]
}

pub fn path_methods_vec() -> (r: Vec<Vec<u8>>)
    ensures
        seqs_of(r@) == path_methods(),
{
    let mut r: Vec<Vec<u8>> = Vec::new();
    r.push(tok_m_matches_nc_vec());
    r.push(tok_m_matches_vec());
    proof {
        assert(seqs_of(r@) =~= path_methods());
    }
    r
}

/// The case mode a method name selects.
pub open spec fn case_of_method(m: Seq<u8>) -> GlobIgnoreCase {
    if m == tok_m_matches_nc() {
        GlobIgnoreCase::CaseInsensitive
    } else {
        GlobIgnoreCase::CaseSensitive
    }
}

/// The literal texts of one site with that site's case mode.
pub open spec fn site_lits(t: Seq<u8>, s: SiteModel) -> Seq<(Seq<u8>, GlobIgnoreCase)> {
    Seq::new(
        s.args.len(),
        |j: int|
            (
                t.subrange((s.args[j]).0, s.args[j].1),
                case_of_method(t.subrange(s.m_start, s.m_end)),
            ),
    )
}

/// All sites' literals, flattened in first-seen, left-to-right order:
/// exactly the contents of the pattern table.
pub open spec fn flat_lits(t: Seq<u8>, sites: Seq<SiteModel>) -> Seq<(Seq<u8>, GlobIgnoreCase)>
    decreases sites.len(),
{
    if sites.len() == 0 {
        Seq::empty()
    } else {
        site_lits(t, sites[0]) + flat_lits(t, sites.skip(1))
    }
}

/// How many literal arguments stand before site `k`.
pub open spec fn args_before(sites: Seq<SiteModel>, k: int) -> int
    decreases k,
{
    if k <= 0 {
        0
    } else {
        args_before(sites, k - 1) + sites[k - 1].args.len()
    }
}

/// The replacement texts: the decimal table index of each literal, in
/// first-seen order.
pub open spec fn index_reps(sites: Seq<SiteModel>) -> Seq<Seq<Seq<u8>>> {
    Seq::new(
        sites.len(),
        |k: int|
            Seq::new(
                sites[k].args.len(),
                |j: int| dec_digits((args_before(sites, k) + j) as nat),
            ),
    )
}

/// Flattening one more site appends its literals.
proof fn lemma_flat_lits_push(t: Seq<u8>, sites: Seq<SiteModel>, x: SiteModel)
    ensures
        flat_lits(t, sites.push(x)) == flat_lits(t, sites) + site_lits(t, x),
    decreases sites.len(),
{
    if sites.len() == 0 {
        assert(sites.push(x)[0] == x);
        assert(sites.push(x).skip(1) =~= Seq::<SiteModel>::empty());
        assert(flat_lits(t, Seq::<SiteModel>::empty()) =~= Seq::<(Seq<u8>, GlobIgnoreCase)>::empty());
        assert(flat_lits(t, sites.push(x)) =~= flat_lits(t, sites) + site_lits(t, x));
    } else {
        assert(sites.push(x).skip(1) =~= sites.skip(1).push(x));
        lemma_flat_lits_push(t, sites.skip(1), x);
        assert(sites.push(x)[0] == sites[0]);
        assert(site_lits(t, sites[0]) + (flat_lits(t, sites.skip(1)) + site_lits(t, x))
            =~= (site_lits(t, sites[0]) + flat_lits(t, sites.skip(1))) + site_lits(t, x));
    }
}

/// `args_before` over a prefix equals the flattened prefix's length.
proof fn lemma_args_before_len(t: Seq<u8>, sites: Seq<SiteModel>, k: int)
    requires
        0 <= k <= sites.len(),
    ensures
        args_before(sites, k) == flat_lits(t, sites.take(k)).len(),
    decreases k,
{
    if k == 0 {
        assert(sites.take(0) =~= Seq::<SiteModel>::empty());
    } else {
        lemma_args_before_len(t, sites, k - 1);
        assert(sites.take(k) =~= sites.take(k - 1).push(sites[k - 1]));
        lemma_flat_lits_push(t, sites.take(k - 1), sites[k - 1]);
    }
}

/// What a successful glob pass guarantees: the scan of `input` for
/// `path` calls succeeded; the table holds exactly the literal texts in
/// first-seen, left-to-right order, each a valid glob, case-insensitive
/// exactly for `matches_ignore_case` sites; and `out` is `input` with
/// each literal replaced by its decimal table index.
pub open spec fn globs_rewritten(
    input: Seq<u8>,
    out: Seq<u8>,
    table: Seq<(Seq<u8>, GlobIgnoreCase)>,
) -> bool {
    match spec_scan(input, tok_path_recv(), path_methods(), 0) {
        Ok(sites) => {
            &&& table == flat_lits(input, sites)
            &&& (forall|n: int| 0 <= n < table.len() ==> glob_ok((#[trigger] table[n]).0))
            &&& out == splice(input, tok_path_recv(), sites, index_reps(sites), 0)
        },
        Err(_) => false,
    }
}

/// What a failed glob pass guarantees: a scanning failure is reported
/// as the matching error with the `path` receiver and its allow-list; a
/// compilation failure reports a literal argument that is not a valid
/// glob.
pub open spec fn globs_failed(input: Seq<u8>, e: FilterError) -> bool {
    match spec_scan(input, tok_path_recv(), path_methods(), 0) {
        Err(issue) => match issue {
            ScanIssue::UnknownMethod { method } => e matches FilterError::UnknownMethod {
                receiver,
                method: m2,
                allowed,
            } && receiver@ == tok_path_recv() && m2@ == method && seqs_of(allowed@)
                == path_methods(),
            ScanIssue::Malformed => e matches FilterError::MalformedArgument { receiver }
                && receiver@ == tok_path_recv(),
            ScanIssue::Unterminated => e matches FilterError::UnterminatedString { receiver }
                && receiver@ == tok_path_recv(),
        },
        Ok(sites) => e matches FilterError::GlobCompile { pattern, pos, cause } && !glob_ok(
            pattern@,
        ) && some_literal_of(input, sites, pattern@),
    }
}

/// All the literals that the scan of `input` finds compile as globs.
pub open spec fn all_globs_ok(input: Seq<u8>) -> bool {
    match spec_scan(input, tok_path_recv(), path_methods(), 0) {
        Ok(sites) => forall|n: int|
            0 <= n < flat_lits(input, sites).len() ==> glob_ok(
                (#[trigger] flat_lits(input, sites)[n]).0,
            ),
        Err(_) => false,
    }
}

} // verus!

verus! {

/// `args_before` looks past the first site once `k` is positive.
proof fn lemma_args_before_skip(sites: Seq<SiteModel>, k: int)
    requires
        1 <= k <= sites.len(),
    ensures
        args_before(sites, k) == sites[0].args.len() + args_before(sites.skip(1), k - 1),
    decreases k,
{
    if k > 1 {
        lemma_args_before_skip(sites, k - 1);
        assert(sites.skip(1)[k - 2] == sites[k - 1]);
    } else {
        assert(args_before(sites, 0) == 0);
        assert(args_before(sites.skip(1), 0) == 0);
    }
}

/// The literal at site `k`, argument `j`, stands in the flattened table
/// at index `args_before(sites, k) + j`.
proof fn lemma_flat_lits_index(t: Seq<u8>, sites: Seq<SiteModel>, k: int, j: int)
    requires
        0 <= k < sites.len(),
        0 <= j < sites[k].args.len(),
    ensures
        0 <= args_before(sites, k) + j < flat_lits(t, sites).len(),
        flat_lits(t, sites)[args_before(sites, k) + j] == site_lits(t, sites[k])[j],
    decreases k,
{
    lemma_args_before_len(t, sites, k);
    if k == 0 {
        assert(flat_lits(t, sites) == site_lits(t, sites[0]) + flat_lits(t, sites.skip(1)));
    } else {
        lemma_flat_lits_index(t, sites.skip(1), k - 1, j);
        lemma_args_before_skip(sites, k);
        assert(sites.skip(1)[k - 1] == sites[k]);
        assert(flat_lits(t, sites) == site_lits(t, sites[0]) + flat_lits(t, sites.skip(1)));
    }
}

/// A compilation failure on the literal at site `kk`, argument `jj`, is
/// a correctly reported glob failure.
proof fn lemma_globs_compile_failed(
    input: Seq<u8>,
    e: FilterError,
    sm: Seq<SiteModel>,
    kk: int,
    jj: int,
)
    requires
        spec_scan(input, tok_path_recv(), path_methods(), 0) == Ok::<Seq<SiteModel>, ScanIssue>(
            sm,
        ),
        0 <= kk < sm.len(),
        0 <= jj < sm[kk].args.len(),
        e matches FilterError::GlobCompile { pattern, pos, cause } && pattern@ == input.subrange(
            (sm[kk].args[jj]).0,
            sm[kk].args[jj].1,
        ) && !glob_ok(pattern@),
    ensures
        globs_failed(input, e),
        !all_globs_ok(input),
{
    match e {
        FilterError::GlobCompile { pattern, pos, cause } => {
            assert(some_literal_of(input, sm, pattern@)) by {
                assert(0 <= kk < sm.len() && 0 <= jj < sm[kk].args.len() && pattern@
                    == input.subrange((#[trigger] sm[kk].args[jj]).0, sm[kk].args[jj].1));
            }
            lemma_flat_lits_index(input, sm, kk, jj);
            let n = args_before(sm, kk) + jj;
            assert(flat_lits(input, sm)[n].0 == site_lits(input, sm[kk])[jj].0);
            assert(site_lits(input, sm[kk])[jj].0 == pattern@);
            assert(!glob_ok(flat_lits(input, sm)[n].0));
        },
        _ => {
            assert(false);
        },
    }
}

fn bad_utf8_vec() -> Vec<u8> {
    let r: Vec<u8> = vec![105, 110, 118, 97, 108, 105, 100, 32, 117, 116, 102, 45, 56];
    r
}

/// Compiles every `path.matches*("...")` argument in `text` into the
/// run's pattern table and replaces each literal with its decimal table
/// index; text with no such call is returned unchanged, with an empty
/// table. It succeeds exactly when the scan succeeds and every literal
/// is a valid glob.
pub fn preprocess_glob_patterns(text: &[u8]) -> (res: Result<
    (Vec<u8>, Vec<GlobEntry>),
    FilterError,
>)
    ensures
        match res {
            Ok(ot) => globs_rewritten(text@, ot.0@, table_model(ot.1@)) && table_patterns_compiled(
                ot.1@,
            ),
            Err(e) => globs_failed(text@, e),
        },
        all_globs_ok(text@) ==> res is Ok,
        spec_scan(text@, tok_path_recv(), path_methods(), 0) == Ok::<Seq<SiteModel>, ScanIssue>(
            Seq::<SiteModel>::empty(),
        ) ==> (res matches Ok(ot) && ot.0@ == text@ && ot.1@.len() == 0),
{
    let receiver = tok_path_recv_vec();
    let methods = path_methods_vec();
    let sites: Vec<CallSite> = match scan_calls(text, receiver.as_slice(), &methods) {
        Err(ScanError::UnknownMethod { method }) => {
            return Err(FilterError::UnknownMethod { receiver, method, allowed: methods });
        },
        Err(ScanError::MalformedArgument) => {
            return Err(FilterError::MalformedArgument { receiver });
        },
        Err(ScanError::UnterminatedString) => {
            return Err(FilterError::UnterminatedString { receiver });
        },
        Ok(s) => s,
    };
    let ghost sm = sites_model(sites@);
    proof {
        lemma_spec_scan_wf(text@, tok_path_recv(), path_methods(), 0);
    }
    let nc_w = tok_m_matches_nc_vec();
    let mut table: Vec<GlobEntry> = Vec::new();
    let mut reps: Vec<Vec<Vec<u8>>> = Vec::new();
    let mut k: usize = 0;
    proof {
        assert(sm.take(0) =~= Seq::<SiteModel>::empty());
        assert(table_model(table@) =~= flat_lits(text@, sm.take(0)));
    }
    while k < sites.len()
        invariant
            0 <= k <= sites@.len(),
            sm == sites_model(sites@),
            spec_scan(text@, tok_path_recv(), path_methods(), 0) == Ok::<
                Seq<SiteModel>,
                ScanIssue,
            >(sm),
            crate::scan::sites_wf(text@, sm, 0),
            nc_w@ == tok_m_matches_nc(),
            reps@.len() == k,
            table@.len() == args_before(sm, k as int),
            table_model(table@) == flat_lits(text@, sm.take(k as int)),
            table_patterns_compiled(table@),
            forall|n: int|
                0 <= n < table@.len() ==> glob_ok((#[trigger] table_model(table@)[n]).0),
            forall|x: int|
                0 <= x < k ==> seqs_of((#[trigger] reps@[x])@) == index_reps(sm)[x],
        decreases sites@.len() - k,
    {
        let ghost k0 = k as int;
        let site = &sites[k];
        proof {
            assert(crate::scan::site_wf(text@, sm[k0]));
            assert(sm[k0] == sites@[k0]@);
        }
        let m_slice = vstd::slice::slice_subrange(text, site.m_start, site.m_end);
        let is_nc = crate::scan::eq_bytes(m_slice, nc_w.as_slice());
        let mut srep: Vec<Vec<u8>> = Vec::new();
        let mut j: usize = 0;
        proof {
            assert(site_lits(text@, sm[k0]).take(0) =~= Seq::<(Seq<u8>, GlobIgnoreCase)>::empty());
            assert(flat_lits(text@, sm.take(k0)) + site_lits(text@, sm[k0]).take(0)
                =~= table_model(table@));
        }
        while j < site.args.len()
            invariant
                0 <= j <= site.args@.len(),
                sm == sites_model(sites@),
                spec_scan(text@, tok_path_recv(), path_methods(), 0) == Ok::<
                    Seq<SiteModel>,
                    ScanIssue,
                >(sm),
                0 <= k0 < sites@.len(),
                k0 == k,
                site == &sites@[k0],
                crate::scan::site_wf(text@, sm[k0]),
                sm[k0] == sites@[k0]@,
                is_nc == (text@.subrange(sm[k0].m_start, sm[k0].m_end) == tok_m_matches_nc()),
                srep@.len() == j,
                table@.len() == args_before(sm, k0) + j,
                table_model(table@) == flat_lits(text@, sm.take(k0)) + site_lits(
                    text@,
                    sm[k0],
                ).take(j as int),
                table_patterns_compiled(table@),
                forall|n: int|
                    0 <= n < table@.len() ==> glob_ok((#[trigger] table_model(table@)[n]).0),
                forall|y: int|
                    0 <= y < j ==> (#[trigger] srep@[y])@ == index_reps(sm)[k0][y],
            decreases site.args@.len() - j,
        {
            let ghost j0 = j as int;
            let (a0, a1) = site.args[j];
            proof {
                assert(sm[k0].args[j0] == (a0 as int, a1 as int));
            }
            let lit = vstd::slice::slice_to_vec(vstd::slice::slice_subrange(text, a0, a1));
            match compile_glob(lit.as_slice()) {
                Err(opt) => {
                    let pc: (usize, Vec<u8>) = match opt {
                        Some(pc) => pc,
                        None => (0, bad_utf8_vec()),
                    };
                    let err = FilterError::GlobCompile {
                        pattern: lit,
                        pos: pc.0,
                        cause: pc.1,
                    };
                    proof {
                        lemma_globs_compile_failed(text@, err, sm, k0, j0);
                    }
                    return Err(err);
                },
                Ok(p) => {
                    let ghost table0 = table@;
                    let ghost srep0 = srep@;
                    let case = if is_nc {
                        GlobIgnoreCase::CaseInsensitive
                    } else {
                        GlobIgnoreCase::CaseSensitive
                    };
                    let idx = table.len();
                    let ghost litv = lit@;
                    let entry = GlobEntry { pattern: p, source: lit, case };
                    table.push(entry);
                    let rep = u64_to_dec(idx as u64);
                    srep.push(rep);
                    j += 1;
                    proof {
                        assert(table_model(table@) =~= table_model(table0).push((litv, case)));
                        assert forall|n: int| 0 <= n < table@.len() implies (#[trigger] table@[n])
                            .pattern == compiled_of(table@[n].source@) by {
                            if n < table0.len() {
                                assert(table@[n] == table0[n]);
                            }
                        }
                        assert(site_lits(text@, sm[k0])[j0] == (litv, case));
                        assert(site_lits(text@, sm[k0]).take(j as int) =~= site_lits(
                            text@,
                            sm[k0],
                        ).take(j0).push(site_lits(text@, sm[k0])[j0]));
                        assert(flat_lits(text@, sm.take(k0)) + site_lits(text@, sm[k0]).take(
                            j as int,
                        ) =~= (flat_lits(text@, sm.take(k0)) + site_lits(text@, sm[k0]).take(j0))
                            .push(site_lits(text@, sm[k0])[j0]));
                        assert(rep@ == dec_digits((args_before(sm, k0) + j0) as nat));
                        assert(index_reps(sm)[k0][j0] == dec_digits(
                            (args_before(sm, k0) + j0) as nat,
                        ));
                        assert forall|y: int| 0 <= y < j implies (#[trigger] srep@[y])@
                            == index_reps(sm)[k0][y] by {
                            if y < j0 {
                                assert(srep@[y] == srep0[y]);
                            }
                        }
                    }
                },
            }
        }
        reps.push(srep);
        k += 1;
        proof {
            assert(sm.take(k as int) =~= sm.take(k0).push(sm[k0]));
            lemma_flat_lits_push(text@, sm.take(k0), sm[k0]);
            assert(site_lits(text@, sm[k0]).take(site.args@.len() as int) =~= site_lits(
                text@,
                sm[k0],
            ));
            assert(table_model(table@) == flat_lits(text@, sm.take(k as int)));
            assert(seqs_of(reps@[k0]@) =~= index_reps(sm)[k0]);
            assert forall|x: int| 0 <= x < k implies seqs_of((#[trigger] reps@[x])@)
                == index_reps(sm)[x] by {}
        }
    }
    let out = substitute(text, receiver.as_slice(), &sites, &reps);
    proof {
        assert(sm.take(sm.len() as int) =~= sm);
        assert(crate::scan::reps_model(reps@) =~~= index_reps(sm));
        assert(globs_rewritten(text@, out@, table_model(table@)));
        if sm.len() == 0 {
            assert(sm =~= Seq::<SiteModel>::empty());
            lemma_splice_identity(text@, tok_path_recv(), crate::scan::reps_model(reps@));
        }
    }
    Ok((out, table))
}

} // verus!
