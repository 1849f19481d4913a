//! The numeric literal expander: a number with a byte-size suffix
//! (`k`, `m` or `g`, any case, with optional trailing `b`s) becomes the
//! plain integer it denotes, multiplied by 1024, 1024² or 1024³. The
//! numeric part may have one decimal fraction; the product is truncated
//! toward zero. Everything else is copied unchanged.

use vstd::prelude::*;
use vstd::arithmetic::div_mod::{
    lemma_div_denominator, lemma_div_is_ordered, lemma_div_multiples_vanish, lemma_div_pos_is_pos,
    lemma_hoist_over_denominator,
};
use vstd::arithmetic::mul::{lemma_mul_inequality, lemma_mul_nonnegative, lemma_mul_upper_bound};
use crate::ascii::{is_digit, DIGIT_0, DOT};
use crate::decimal::{
    all_digits, dec_digits, digits_val, lemma_digits_val_lower, lemma_digits_val_prepend,
    lemma_digits_val_push, lemma_digits_val_skip_zero, lemma_digits_val_upper,
    lemma_pow10_increases, lemma_pow10_pos, lemma_pow10_values, pow10,
};

verus! {

pub const LOWER_K: u8 = 107;

pub const UPPER_K: u8 = 75;

pub const LOWER_M: u8 = 109;

pub const UPPER_M: u8 = 77;

pub const LOWER_G: u8 = 103;

pub const UPPER_G: u8 = 71;

pub const LOWER_B: u8 = 98;

pub const UPPER_B: u8 = 66;

pub const KIB: u64 = 1024;

pub const MIB: u64 = 1048576;

pub const GIB: u64 = 1073741824;

/// A byte-size suffix letter.
pub open spec fn is_size_suffix(b: u8) -> bool {
    b == LOWER_K || b == UPPER_K || b == LOWER_M || b == UPPER_M || b == LOWER_G || b == UPPER_G
}

/// The multiplier a suffix letter stands for.
pub open spec fn suffix_mult(b: u8) -> int {
    if b == LOWER_K || b == UPPER_K {
        KIB as int
    } else if b == LOWER_M || b == UPPER_M {
        MIB as int
    } else if b == LOWER_G || b == UPPER_G {
        GIB as int
    } else {
        0
    }
}

/// First position at or after `i` whose byte is not a digit.
pub open spec fn digits_end(t: Seq<u8>, i: int) -> int
    decreases t.len() - i,
{
    if 0 <= i < t.len() && is_digit(t[i]) {
        digits_end(t, i + 1)
    } else {
        i
    }
}

pub proof fn lemma_digits_end(t: Seq<u8>, i: int)
    requires
        0 <= i <= t.len(),
    ensures
        i <= digits_end(t, i) <= t.len(),
        all_digits(t.subrange(i, digits_end(t, i))),
    decreases t.len() - i,
{
    if i < t.len() && is_digit(t[i]) {
        lemma_digits_end(t, i + 1);
        assert forall|k: int| 0 <= k < digits_end(t, i) - i implies is_digit(
            #[trigger] t.subrange(i, digits_end(t, i))[k],
        ) by {
            if k > 0 {
                assert(t.subrange(i + 1, digits_end(t, i + 1))[k - 1] == t.subrange(
                    i,
                    digits_end(t, i),
                )[k]);
            }
        }
    }
}

/// A decimal fraction group (a dot followed by at least one digit)
/// begins at `i`.
pub open spec fn group_at(t: Seq<u8>, i: int) -> bool {
    0 <= i < t.len() && t[i] == DOT && digits_end(t, i + 1) > i + 1
}

/// End of the run of fraction groups beginning at `i`.
pub open spec fn groups_end(t: Seq<u8>, i: int) -> int
    decreases t.len() - i,
    via groups_end_decreases
{
    if group_at(t, i) {
        groups_end(t, digits_end(t, i + 1))
    } else {
        i
    }
}

#[via_fn]
proof fn groups_end_decreases(t: Seq<u8>, i: int) {
    if group_at(t, i) {
        lemma_digits_end(t, i + 1);
    }
}

pub proof fn lemma_groups_end(t: Seq<u8>, i: int)
    requires
        0 <= i <= t.len(),
    ensures
        i <= groups_end(t, i) <= t.len(),
    decreases t.len() - i,
{
    if group_at(t, i) {
        lemma_digits_end(t, i + 1);
        lemma_groups_end(t, digits_end(t, i + 1));
    }
}

/// End of the run of `b`/`B` bytes at `i` that trail a suffix letter.
pub open spec fn b_run_end(t: Seq<u8>, i: int) -> int
    decreases t.len() - i,
{
    if 0 <= i < t.len() && (t[i] == LOWER_B || t[i] == UPPER_B) {
        b_run_end(t, i + 1)
    } else {
        i
    }
}

pub proof fn lemma_b_run_end(t: Seq<u8>, i: int)
    requires
        0 <= i <= t.len(),
    ensures
        i <= b_run_end(t, i) <= t.len(),
    decreases t.len() - i,
{
    if i < t.len() && (t[i] == LOWER_B || t[i] == UPPER_B) {
        lemma_b_run_end(t, i + 1);
    }
}

/// The numeric part starting at `i` (whose digits end at `d`) has two or
/// more fraction groups, so it is not a plain decimal number.
pub open spec fn multi_group(t: Seq<u8>, d: int) -> bool {
    group_at(t, d) && group_at(t, digits_end(t, d + 1))
}

/// The value denoted by a size-suffixed token: integer digits in
/// `[i, d)`, an optional single fraction group ending at `groups_end`,
/// and multiplier `m`; the fraction's contribution is truncated.
pub open spec fn token_value(t: Seq<u8>, i: int, d: int, m: int) -> int {
    let ip = digits_val(t.subrange(i, d)) as int;
    if group_at(t, d) {
        let g1 = digits_end(t, d + 1);
        let frac = t.subrange(d + 1, g1);
        ip * m + (digits_val(frac) as int * m) / (pow10((g1 - d - 1) as nat) as int)
    } else {
        ip * m
    }
}

/// The expansion of `t` from position `i` on: every size-suffixed number
/// token is replaced by its decimal integer value, other bytes are
/// copied, and a token whose numeric part has several fraction groups or
/// whose value does not fit in 64 bits is the reported error.
pub open spec fn spec_expand(t: Seq<u8>, i: int) -> Result<Seq<u8>, Seq<u8>>
    decreases t.len() - i,
    via spec_expand_decreases
{
    if !(0 <= i < t.len()) {
        Ok(Seq::empty())
    } else if is_digit(t[i]) {
        let d = digits_end(t, i);
        let g = groups_end(t, d);
        if g < t.len() && is_size_suffix(t[g]) {
            let e = b_run_end(t, g + 1);
            let token = t.subrange(i, e);
            if multi_group(t, d) {
                Err(token)
            } else {
                let v = token_value(t, i, d, suffix_mult(t[g]));
                if v > u64::MAX {
                    Err(token)
                } else {
                    match spec_expand(t, e) {
                        Err(x) => Err(x),
                        Ok(rest) => Ok(dec_digits(v as nat) + rest),
                    }
                }
            }
        } else {
            match spec_expand(t, g) {
                Err(x) => Err(x),
                Ok(rest) => Ok(t.subrange(i, g) + rest),
            }
        }
    } else {
        match spec_expand(t, i + 1) {
            Err(x) => Err(x),
            Ok(rest) => Ok(seq![t[i]] + rest),
        }
    }
}

#[via_fn]
proof fn spec_expand_decreases(t: Seq<u8>, i: int) {
    if 0 <= i < t.len() && is_digit(t[i]) {
        lemma_digits_end(t, i + 1);
        assert(digits_end(t, i) == digits_end(t, i + 1));
        let d = digits_end(t, i);
        lemma_groups_end(t, d);
        let g = groups_end(t, d);
        if g < t.len() && is_size_suffix(t[g]) {
            lemma_b_run_end(t, g + 1);
        }
    }
}

} // verus!

verus! {

pub(crate) fn scan_digits_end(t: &[u8], i: usize) -> (r: usize)
    requires
        i <= t@.len(),
    ensures
        r as int == digits_end(t@, i as int),
        i <= r <= t@.len(),
{
    let mut j: usize = i;
    while j < t.len()
        invariant
            i <= j <= t@.len(),
            digits_end(t@, i as int) == digits_end(t@, j as int),
        decreases t@.len() - j,
    {
        if !crate::ascii::digit_byte(t[j]) {
            return j;
        }
        j += 1;
    }
    j
}

fn scan_b_end(t: &[u8], i: usize) -> (r: usize)
    requires
        i <= t@.len(),
    ensures
        r as int == b_run_end(t@, i as int),
        i <= r <= t@.len(),
{
    let mut j: usize = i;
    while j < t.len()
        invariant
            i <= j <= t@.len(),
            b_run_end(t@, i as int) == b_run_end(t@, j as int),
        decreases t@.len() - j,
    {
        if t[j] != LOWER_B && t[j] != UPPER_B {
            return j;
        }
        j += 1;
    }
    j
}

fn check_group_at(t: &[u8], i: usize) -> (r: bool)
    requires
        i <= t@.len(),
    ensures
        r == group_at(t@, i as int),
{
    if i >= t.len() {
        return false;
    }
    if t[i] != DOT {
        return false;
    }
    let de = scan_digits_end(t, i + 1);
    de > i + 1
}

fn scan_groups_end(t: &[u8], i: usize) -> (r: usize)
    requires
        i <= t@.len(),
    ensures
        r as int == groups_end(t@, i as int),
        i <= r <= t@.len(),
{
    let mut j: usize = i;
    while j < t.len()
        invariant
            i <= j <= t@.len(),
            groups_end(t@, i as int) == groups_end(t@, j as int),
        decreases t@.len() - j,
    {
        if !check_group_at(t, j) {
            return j;
        }
        let de = scan_digits_end(t, j + 1);
        j = de;
    }
    j
}

fn suffix_of(b: u8) -> (m: u64)
    ensures
        is_size_suffix(b) ==> m as int == suffix_mult(b) && 1024 <= m <= 1073741824,
        !is_size_suffix(b) ==> m == 0,
{
    if b == LOWER_K || b == UPPER_K {
        KIB
    } else if b == LOWER_M || b == UPPER_M {
        MIB
    } else if b == LOWER_G || b == UPPER_G {
        GIB
    } else {
        0
    }
}

fn skip_zeros(t: &[u8], i: usize, d: usize) -> (z: usize)
    requires
        i <= d <= t@.len(),
    ensures
        i <= z <= d,
        digits_val(t@.subrange(i as int, d as int)) == digits_val(t@.subrange(z as int, d as int)),
        z < d ==> t@[z as int] != DIGIT_0,
{
    let mut z: usize = i;
    while z < d
        invariant
            i <= z <= d <= t@.len(),
            digits_val(t@.subrange(i as int, d as int)) == digits_val(
                t@.subrange(z as int, d as int),
            ),
        decreases d - z,
    {
        if t[z] != DIGIT_0 {
            return z;
        }
        proof {
            lemma_digits_val_skip_zero(t@.subrange(z as int, d as int));
            assert(t@.subrange(z as int, d as int).skip(1) =~= t@.subrange(z + 1, d as int));
        }
        z += 1;
    }
    z
}

/// Computes the value of one size-suffixed token exactly, or reports
/// that it does not fit in 64 bits.
fn token_value_exec(t: &[u8], i: usize, d: usize, m: u64) -> (res: Option<u64>)
    requires
        i < d <= t@.len(),
        d as int == digits_end(t@, i as int),
        is_digit(t@[i as int]),
        !multi_group(t@, d as int),
        1024 <= m <= 1073741824,
    ensures
        ({
            let v = token_value(t@, i as int, d as int, m as int);
            match res {
                Some(x) => v == x as int,
                None => v > u64::MAX,
            }
        }),
{
    proof {
        lemma_digits_end(t@, i as int);
        lemma_pow10_values();
    }
    let ghost ip = digits_val(t@.subrange(i as int, d as int)) as int;
    let z = skip_zeros(t, i, d);
    proof {
        assert forall|k: int| 0 <= k < d - z implies is_digit(
            #[trigger] t@.subrange(z as int, d as int)[k],
        ) by {
            assert(t@.subrange(i as int, d as int)[k + z - i] == t@.subrange(
                z as int,
                d as int,
            )[k]);
        }
    }
    // the fraction's contribution is nonnegative, and so is the product
    proof {
        if group_at(t@, d as int) {
            let g1 = digits_end(t@, d + 1 as int);
            let frac = t@.subrange(d + 1 as int, g1);
            lemma_pow10_pos((g1 - d - 1) as nat);
            lemma_mul_nonnegative(digits_val(frac) as int, m as int);
            lemma_div_pos_is_pos(digits_val(frac) as int * m as int, pow10((g1 - d - 1) as nat) as int);
        }
    }
    if d - z > 20 {
        proof {
            let s = t@.subrange(z as int, d as int);
            lemma_digits_val_lower(s);
            lemma_pow10_increases(20, (s.len() - 1) as nat);
            lemma_mul_inequality(1, m as int, ip);
            assert(ip * 1 == ip) by (nonlinear_arith);
            assert(ip * m as int >= ip) by {
                assert(1 * ip <= m as int * ip);
                assert(m as int * ip == ip * m as int) by (nonlinear_arith);
                assert(1 * ip == ip) by (nonlinear_arith);
            }
        }
        return None;
    }
    let mut acc: u128 = 0;
    let mut j: usize = z;
    proof {
        assert(t@.subrange(z as int, z as int).len() == 0);
        assert(pow10(0) == 1);
    }
    while j < d
        invariant
            z <= j <= d <= t@.len(),
            d - z <= 20,
            all_digits(t@.subrange(z as int, d as int)),
            acc == digits_val(t@.subrange(z as int, j as int)),
            acc < pow10((j - z) as nat),
            pow10(20) == 100000000000000000000,
        decreases d - j,
    {
        proof {
            assert(is_digit(t@.subrange(z as int, d as int)[j - z]));
            lemma_pow10_increases((j - z) as nat, 20);
        }
        let dig = t[j] - DIGIT_0;
        acc = acc * 10 + dig as u128;
        j += 1;
        proof {
            assert(t@.subrange(z as int, j as int) =~= t@.subrange(z as int, j - 1).push(
                t@[j - 1],
            ));
            lemma_digits_val_push(t@.subrange(z as int, j - 1), t@[j - 1]);
            assert forall|k: int| 0 <= k < j - z implies is_digit(
                #[trigger] t@.subrange(z as int, j as int)[k],
            ) by {
                assert(t@.subrange(z as int, d as int)[k] == t@.subrange(z as int, j as int)[k]);
            }
            lemma_digits_val_upper(t@.subrange(z as int, j as int));
        }
    }
    let mut fr: u64 = 0;
    let n = t.len();
    if check_group_at(t, d) {
        proof {
            assert(d < n);
        }
        let g1 = scan_digits_end(t, d + 1);
        proof {
            lemma_digits_end(t@, d + 1 as int);
            assert(t@.subrange(g1 as int, g1 as int).len() == 0);
            assert(digits_val(t@.subrange(g1 as int, g1 as int)) == 0);
            assert(pow10(0) == 1);
            assert(0int * (m as int) == 0) by (nonlinear_arith);
            assert((0int) / 1int == 0);
        }
        let mut j2: usize = g1;
        while j2 > d + 1
            invariant
                d + 1 <= j2 <= g1 <= t@.len(),
                g1 as int == digits_end(t@, d + 1 as int),
                all_digits(t@.subrange(d + 1 as int, g1 as int)),
                1024 <= m <= 1073741824,
                fr <= m,
                fr as int == (digits_val(t@.subrange(j2 as int, g1 as int)) as int * m as int) / (
                pow10((g1 - j2) as nat) as int),
            decreases j2,
        {
            j2 -= 1;
            proof {
                assert(is_digit(t@.subrange(d + 1 as int, g1 as int)[j2 - d - 1]));
                assert(is_digit(t@[j2 as int]));
            }
            let dig = t[j2] - DIGIT_0;
            proof {
                lemma_mul_upper_bound(dig as int, 9, m as int, 1073741824);
            }
            let ghost sfx = t@.subrange(j2 + 1, g1 as int);
            let ghost kk = (g1 - j2 - 1) as nat;
            let ghost fr0 = fr as int;
            fr = (dig as u64) * m + fr;
            fr = fr / 10;
            proof {
                let dgi = (t@[j2 as int] - DIGIT_0) as int;
                let vj = digits_val(sfx) as int;
                let cc = pow10(kk) as int;
                let mi = m as int;
                lemma_pow10_pos(kk);
                assert(t@.subrange(j2 as int, g1 as int) =~= seq![t@[j2 as int]] + sfx);
                lemma_digits_val_prepend(t@[j2 as int], sfx);
                assert(digits_val(t@.subrange(j2 as int, g1 as int)) == dgi * cc + vj);
                lemma_mul_nonnegative(vj, mi);
                lemma_mul_nonnegative(dgi, mi);
                lemma_mul_nonnegative(dgi * mi, cc);
                lemma_hoist_over_denominator(vj * mi, dgi * mi, pow10(kk));
                assert((vj * mi) / cc + dgi * mi == (vj * mi + (dgi * mi) * cc) / cc);
                lemma_div_denominator(vj * mi + (dgi * mi) * cc, cc, 10);
                assert(((vj * mi + (dgi * mi) * cc) / cc) / 10 == (vj * mi + (dgi * mi) * cc) / (cc
                    * 10));
                assert((dgi * cc + vj) * mi == vj * mi + (dgi * mi) * cc) by (nonlinear_arith);
                assert(pow10((kk + 1) as nat) == 10 * cc);
                assert(cc * 10 == 10 * cc);
                assert(fr as int == (dgi * mi + fr0) / 10);
                assert(fr as int == (digits_val(t@.subrange(j2 as int, g1 as int)) as int * mi) / (
                pow10((kk + 1) as nat) as int));
                assert((g1 - j2) as nat == (kk + 1) as nat);
                // the running value stays at most the multiplier
                assert(dgi <= 9);
                lemma_mul_inequality(dgi, 9, mi);
                lemma_div_is_ordered(dgi * mi + fr0, 10 * mi, 10);
                lemma_div_multiples_vanish(mi, 10);
            }
        }
    }
    proof {
        lemma_pow10_values();
        lemma_pow10_increases((d - z) as nat, 20);
        lemma_mul_upper_bound(acc as int, 100000000000000000000 - 1, m as int, 1073741824);
    }
    let total: u128 = acc * (m as u128) + (fr as u128);
    proof {
        assert(ip == acc as int);
        assert(token_value(t@, i as int, d as int, m as int) == total as int);
    }
    if total > 0xFFFFFFFFFFFFFFFFu128 {
        return None;
    }
    Some(total as u64)
}

} // verus!

verus! {

/// Expands every size-suffixed number in `text` into its plain integer
/// value and leaves all other bytes unchanged, exactly as the expansion
/// specification says; the error carries the offending token.
pub fn preprocess_numbers(text: &[u8]) -> (res: Result<Vec<u8>, crate::errors::FilterError>)
    ensures
        match res {
            Ok(out) => spec_expand(text@, 0) == Ok::<Seq<u8>, Seq<u8>>(out@),
            Err(e) => e matches crate::errors::FilterError::NumberFormat { token } && spec_expand(
                text@,
                0,
            ) == Err::<Seq<u8>, Seq<u8>>(token@),
        },
{
    let mut i: usize = 0;
    let mut out: Vec<u8> = Vec::new();
    proof {
        assert(out@ =~= Seq::<u8>::empty());
    }
    while i < text.len()
        invariant
            0 <= i <= text@.len(),
            spec_expand(text@, 0) == (match spec_expand(text@, i as int) {
                Ok(rest) => Ok::<Seq<u8>, Seq<u8>>(out@ + rest),
                Err(x) => Err::<Seq<u8>, Seq<u8>>(x),
            }),
        decreases text@.len() - i,
    {
        let ghost i0 = i as int;
        let ghost out0 = out@;
        let b = text[i];
        if crate::ascii::digit_byte(b) {
            let d = scan_digits_end(text, i);
            proof {
                lemma_digits_end(text@, i0 + 1);
                assert(digits_end(text@, i0) == digits_end(text@, i0 + 1));
                assert(d > i);
            }
            let g = scan_groups_end(text, d);
            let m = if g < text.len() {
                suffix_of(text[g])
            } else {
                0
            };
            if g < text.len() && m > 0 {
                let e = scan_b_end(text, g + 1);
                let multi = if check_group_at(text, d) {
                    let g1 = scan_digits_end(text, d + 1);
                    check_group_at(text, g1)
                } else {
                    false
                };
                if multi {
                    let token = vstd::slice::slice_to_vec(
                        vstd::slice::slice_subrange(text, i, e),
                    );
                    return Err(crate::errors::FilterError::NumberFormat { token });
                }
                match token_value_exec(text, i, d, m) {
                    None => {
                        let token = vstd::slice::slice_to_vec(
                            vstd::slice::slice_subrange(text, i, e),
                        );
                        return Err(crate::errors::FilterError::NumberFormat { token });
                    },
                    Some(v) => {
                        let dec = crate::decimal::u64_to_dec(v);
                        crate::scan::push_slice(&mut out, dec.as_slice());
                        i = e;
                        proof {
                            match spec_expand(text@, i as int) {
                                Ok(rest) => {
                                    assert(out0 + (dec_digits(v as nat) + rest) =~= out@ + rest);
                                },
                                Err(_) => {},
                            }
                        }
                    },
                }
            } else {
                crate::scan::push_range(&mut out, text, i, g);
                i = g;
                proof {
                    assert(!((g as int) < text@.len() && is_size_suffix(text@[g as int])));
                    match spec_expand(text@, i as int) {
                        Ok(rest) => {
                            assert(out0 + (text@.subrange(i0, g as int) + rest) =~= out@ + rest);
                        },
                        Err(_) => {},
                    }
                }
            }
        } else {
            out.push(b);
            i += 1;
            proof {
                match spec_expand(text@, i as int) {
                    Ok(rest) => {
                        assert(out0 + (seq![b] + rest) =~= out@ + rest);
                    },
                    Err(_) => {},
                }
            }
        }
    }
    proof {
        assert(spec_expand(text@, i as int) == Ok::<Seq<u8>, Seq<u8>>(Seq::empty()));
        assert(out@ + Seq::<u8>::empty() =~= out@);
    }
    Ok(out)
}

} // verus!

verus! {

/// A run of digits over `[i, e)` that stops at `e` ends there.
pub proof fn lemma_digits_run(t: Seq<u8>, i: int, e: int)
    requires
        0 <= i <= e <= t.len(),
        forall|j: int| i <= j < e ==> is_digit(#[trigger] t[j]),
        e < t.len() ==> !is_digit(t[e]),
    ensures
        digits_end(t, i) == e,
    decreases e - i,
{
    if i < e {
        lemma_digits_run(t, i + 1, e);
    }
}

/// A run of `b`/`B` bytes over `[i, e)` that stops at `e` ends there.
pub proof fn lemma_b_run(t: Seq<u8>, i: int, e: int)
    requires
        0 <= i <= e <= t.len(),
        forall|j: int| i <= j < e ==> (#[trigger] t[j] == LOWER_B || t[j] == UPPER_B),
        e < t.len() ==> !(t[e] == LOWER_B || t[e] == UPPER_B),
    ensures
        b_run_end(t, i) == e,
    decreases e - i,
{
    if i < e {
        lemma_b_run(t, i + 1, e);
    }
}

/// An integer with a size suffix, in any case and with any number of
/// trailing `b`s, expands to exactly the bare integer `n × 1024^rank`,
/// whenever that value fits in 64 bits.
pub proof fn lemma_expand_suffixed_integer(d: Seq<u8>, c: u8, b: Seq<u8>)
    requires
        d.len() >= 1,
        all_digits(d),
        is_size_suffix(c),
        forall|j: int| 0 <= j < b.len() ==> (#[trigger] b[j] == LOWER_B || b[j] == UPPER_B),
        digits_val(d) * suffix_mult(c) <= u64::MAX,
    ensures
        spec_expand(d + seq![c] + b, 0) == Ok::<Seq<u8>, Seq<u8>>(
            dec_digits((digits_val(d) * suffix_mult(c)) as nat),
        ),
{
    let t = d + seq![c] + b;
    assert(t.subrange(0, t.len() as int) =~= t);
    lemma_expand_suffixed_integer_at(t, 0, d, c, b);
    assert(spec_expand(t, t.len() as int) == Ok::<Seq<u8>, Seq<u8>>(Seq::empty()));
    let m = suffix_mult(c);
    assert(dec_digits((digits_val(d) * m) as nat) + Seq::<u8>::empty() =~= dec_digits(
        (digits_val(d) * m) as nat,
    ));
}

/// A decimal number with a size suffix expands to the bare integer
/// `(whole + fraction) × 1024^rank`, truncated toward zero, whenever
/// that value fits in 64 bits.
pub proof fn lemma_expand_suffixed_decimal(d: Seq<u8>, f: Seq<u8>, c: u8, b: Seq<u8>)
    requires
        d.len() >= 1,
        all_digits(d),
        f.len() >= 1,
        all_digits(f),
        is_size_suffix(c),
        forall|j: int| 0 <= j < b.len() ==> (#[trigger] b[j] == LOWER_B || b[j] == UPPER_B),
        digits_val(d) * suffix_mult(c) + (digits_val(f) * suffix_mult(c)) as int / (pow10(
            f.len(),
        ) as int) <= u64::MAX,
    ensures
        spec_expand(d + seq![DOT] + f + seq![c] + b, 0) == Ok::<Seq<u8>, Seq<u8>>(
            dec_digits(
                (digits_val(d) * suffix_mult(c) + (digits_val(f) * suffix_mult(c)) as int / (
                pow10(f.len()) as int)) as nat,
            ),
        ),
{
    let t = d + seq![DOT] + f + seq![c] + b;
    assert(t.subrange(0, t.len() as int) =~= t);
    lemma_expand_suffixed_decimal_at(t, 0, d, f, c, b);
    assert(spec_expand(t, t.len() as int) == Ok::<Seq<u8>, Seq<u8>>(Seq::empty()));
    let m = suffix_mult(c);
    let v = digits_val(d) * m + (digits_val(f) * m) as int / (pow10(f.len()) as int);
    assert(dec_digits(v as nat) + Seq::<u8>::empty() =~= dec_digits(v as nat));
}

/// A number with no size suffix is left exactly as it is.
pub proof fn lemma_plain_number_unchanged(d: Seq<u8>)
    requires
        d.len() >= 1,
        all_digits(d),
    ensures
        spec_expand(d, 0) == Ok::<Seq<u8>, Seq<u8>>(d),
{
    lemma_digits_run(d, 0, d.len() as int);
    assert(!group_at(d, d.len() as int));
    assert(groups_end(d, d.len() as int) == d.len());
    assert(spec_expand(d, d.len() as int) == Ok::<Seq<u8>, Seq<u8>>(Seq::empty()));
    assert(is_digit(d[0]));
    assert(d.subrange(0, d.len() as int) + Seq::<u8>::empty() =~= d);
    assert(spec_expand(d, 0) == Ok::<Seq<u8>, Seq<u8>>(d));
}

} // verus!

verus! {

/// A stretch of non-digit bytes is copied unchanged, in order, and
/// scanning continues after it: no token begins inside it.
pub proof fn lemma_expand_copies_nondigits(t: Seq<u8>, i: int, e: int)
    requires
        0 <= i <= e <= t.len(),
        forall|j: int| i <= j < e ==> !is_digit(#[trigger] t[j]),
    ensures
        spec_expand(t, i) == (match spec_expand(t, e) {
            Ok(rest) => Ok::<Seq<u8>, Seq<u8>>(t.subrange(i, e) + rest),
            Err(x) => Err::<Seq<u8>, Seq<u8>>(x),
        }),
    decreases e - i,
{
    if i < e {
        lemma_expand_copies_nondigits(t, i + 1, e);
        match spec_expand(t, e) {
            Ok(rest) => {
                assert(seq![t[i]] + (t.subrange(i + 1, e) + rest) =~= t.subrange(i, e) + rest);
            },
            Err(_) => {},
        }
    } else {
        match spec_expand(t, e) {
            Ok(rest) => {
                assert(t.subrange(i, e) + rest =~= rest);
            },
            Err(_) => {},
        }
    }
}

/// A size-suffixed integer standing at position `i` of a larger text
/// expands to exactly its bare value there, and scanning continues just
/// past its trailing `b`s.
pub proof fn lemma_expand_suffixed_integer_at(t: Seq<u8>, i: int, d: Seq<u8>, c: u8, b: Seq<u8>)
    requires
        0 <= i,
        i + d.len() + 1 + b.len() <= t.len(),
        t.subrange(i, i + d.len() + 1 + b.len()) == d + seq![c] + b,
        d.len() >= 1,
        all_digits(d),
        is_size_suffix(c),
        forall|j: int| 0 <= j < b.len() ==> (#[trigger] b[j] == LOWER_B || b[j] == UPPER_B),
        i + d.len() + 1 + b.len() < t.len() ==> !(t[i + d.len() + 1 + b.len()] == LOWER_B || t[i
            + d.len() + 1 + b.len()] == UPPER_B),
        digits_val(d) * suffix_mult(c) <= u64::MAX,
    ensures
        ({
            let e = i + d.len() + 1 + b.len();
            spec_expand(t, i) == (match spec_expand(t, e) {
                Ok(rest) => Ok::<Seq<u8>, Seq<u8>>(
                    dec_digits((digits_val(d) * suffix_mult(c)) as nat) + rest,
                ),
                Err(x) => Err::<Seq<u8>, Seq<u8>>(x),
            })
        }),
{
    let tok = d + seq![c] + b;
    let dl = d.len() as int;
    let e = i + dl + 1 + b.len() as int;
    assert forall|j: int| i <= j < i + dl implies is_digit(#[trigger] t[j]) by {
        assert(t[j] == t.subrange(i, e)[j - i]);
        assert(tok[j - i] == d[j - i]);
    }
    assert(t[i + dl] == tok[dl]);
    assert(t[i + dl] == c);
    assert(!is_digit(c));
    lemma_digits_run(t, i, i + dl);
    assert(!group_at(t, i + dl));
    assert(groups_end(t, i + dl) == i + dl);
    assert forall|j: int| i + dl + 1 <= j < e implies (#[trigger] t[j] == LOWER_B || t[j]
        == UPPER_B) by {
        assert(t[j] == tok[j - i]);
        assert(tok[j - i] == b[j - i - dl - 1]);
    }
    lemma_b_run(t, i + dl + 1, e);
    assert(!multi_group(t, i + dl));
    assert(t.subrange(i, i + dl) =~= d) by {
        assert forall|j: int| 0 <= j < dl implies t.subrange(i, i + dl)[j] == d[j] by {
            assert(t.subrange(i, i + dl)[j] == t[i + j]);
            assert(t[i + j] == tok[j]);
        }
    }
    let m = suffix_mult(c);
    assert(token_value(t, i, i + dl, m) == digits_val(d) * m);
    lemma_mul_nonnegative(digits_val(d) as int, m);
    assert(is_digit(t[i]));
}

/// A size-suffixed decimal standing at position `i` of a larger text
/// expands to exactly its truncated value there.
pub proof fn lemma_expand_suffixed_decimal_at(
    t: Seq<u8>,
    i: int,
    d: Seq<u8>,
    f: Seq<u8>,
    c: u8,
    b: Seq<u8>,
)
    requires
        0 <= i,
        i + d.len() + 1 + f.len() + 1 + b.len() <= t.len(),
        t.subrange(i, i + d.len() + 1 + f.len() + 1 + b.len()) == d + seq![DOT] + f + seq![c] + b,
        d.len() >= 1,
        all_digits(d),
        f.len() >= 1,
        all_digits(f),
        is_size_suffix(c),
        forall|j: int| 0 <= j < b.len() ==> (#[trigger] b[j] == LOWER_B || b[j] == UPPER_B),
        i + d.len() + 1 + f.len() + 1 + b.len() < t.len() ==> !(t[i + d.len() + 1 + f.len() + 1
            + b.len()] == LOWER_B || t[i + d.len() + 1 + f.len() + 1 + b.len()] == UPPER_B),
        digits_val(d) * suffix_mult(c) + (digits_val(f) * suffix_mult(c)) as int / (pow10(
            f.len(),
        ) as int) <= u64::MAX,
    ensures
        ({
            let e = i + d.len() + 1 + f.len() + 1 + b.len();
            let v = digits_val(d) * suffix_mult(c) + (digits_val(f) * suffix_mult(c)) as int / (
            pow10(f.len()) as int);
            spec_expand(t, i) == (match spec_expand(t, e) {
                Ok(rest) => Ok::<Seq<u8>, Seq<u8>>(dec_digits(v as nat) + rest),
                Err(x) => Err::<Seq<u8>, Seq<u8>>(x),
            })
        }),
{
    let tok = d + seq![DOT] + f + seq![c] + b;
    let dl = d.len() as int;
    let g1 = i + dl + 1 + f.len() as int;
    let e = g1 + 1 + b.len() as int;
    assert forall|j: int| i <= j < i + dl implies is_digit(#[trigger] t[j]) by {
        assert(t[j] == t.subrange(i, e)[j - i]);
        assert(tok[j - i] == d[j - i]);
    }
    assert(t[i + dl] == tok[dl]);
    assert(t[i + dl] == DOT);
    assert(!is_digit(DOT));
    lemma_digits_run(t, i, i + dl);
    assert forall|j: int| i + dl + 1 <= j < g1 implies is_digit(#[trigger] t[j]) by {
        assert(t[j] == tok[j - i]);
        assert(tok[j - i] == f[j - i - dl - 1]);
    }
    assert(t[g1] == tok[g1 - i]);
    assert(t[g1] == c);
    assert(!is_digit(c));
    lemma_digits_run(t, i + dl + 1, g1);
    assert(group_at(t, i + dl));
    assert(!group_at(t, g1));
    assert(groups_end(t, g1) == g1);
    assert(groups_end(t, i + dl) == g1);
    assert(!multi_group(t, i + dl));
    assert forall|j: int| g1 + 1 <= j < e implies (#[trigger] t[j] == LOWER_B || t[j]
        == UPPER_B) by {
        assert(t[j] == tok[j - i]);
        assert(tok[j - i] == b[j - g1 - 1]);
    }
    lemma_b_run(t, g1 + 1, e);
    assert(t.subrange(i, i + dl) =~= d) by {
        assert forall|j: int| 0 <= j < dl implies t.subrange(i, i + dl)[j] == d[j] by {
            assert(t.subrange(i, i + dl)[j] == t[i + j]);
            assert(t[i + j] == tok[j]);
        }
    }
    assert(t.subrange(i + dl + 1, g1) =~= f) by {
        assert forall|j: int| 0 <= j < f.len() implies t.subrange(i + dl + 1, g1)[j] == f[j] by {
            assert(t.subrange(i + dl + 1, g1)[j] == t[i + dl + 1 + j]);
            assert(t[i + dl + 1 + j] == tok[dl + 1 + j]);
        }
    }
    let m = suffix_mult(c);
    let v = digits_val(d) * m + (digits_val(f) * m) as int / (pow10(f.len()) as int);
    assert(token_value(t, i, i + dl, m) == v);
    lemma_mul_nonnegative(digits_val(d) as int, m);
    lemma_mul_nonnegative(digits_val(f) as int, m);
    lemma_pow10_pos(f.len());
    lemma_div_pos_is_pos(digits_val(f) as int * m, pow10(f.len()) as int);
    assert(v >= 0);
    assert(is_digit(t[i]));
}

/// A digit run at position `i` with no fraction group and no size
/// suffix after it is copied unchanged, and scanning continues after it.
pub proof fn lemma_plain_number_unchanged_at(t: Seq<u8>, i: int, d: Seq<u8>)
    requires
        0 <= i,
        i + d.len() <= t.len(),
        t.subrange(i, i + d.len() as int) == d,
        d.len() >= 1,
        all_digits(d),
        i + d.len() < t.len() ==> !is_digit(t[i + d.len()]),
        !group_at(t, i + d.len() as int),
        i + d.len() < t.len() ==> !is_size_suffix(t[i + d.len()]),
    ensures
        spec_expand(t, i) == (match spec_expand(t, i + d.len() as int) {
            Ok(rest) => Ok::<Seq<u8>, Seq<u8>>(d + rest),
            Err(x) => Err::<Seq<u8>, Seq<u8>>(x),
        }),
{
    let dl = d.len() as int;
    assert forall|j: int| i <= j < i + dl implies is_digit(#[trigger] t[j]) by {
        assert(t[j] == t.subrange(i, i + dl)[j - i]);
    }
    lemma_digits_run(t, i, i + dl);
    assert(groups_end(t, i + dl) == i + dl);
    assert(is_digit(t[i]));
}

/// A size-suffixed integer anywhere in a text — preceded by digit-free
/// text, followed by anything that does not extend its trailing `b`s —
/// expands to exactly the bare integer `n × 1024^rank`; the preceding
/// text is copied unchanged and scanning continues after the token.
pub proof fn lemma_expand_number_in_text(
    u: Seq<u8>,
    d: Seq<u8>,
    c: u8,
    b: Seq<u8>,
    v: Seq<u8>,
)
    requires
        forall|j: int| 0 <= j < u.len() ==> !is_digit(#[trigger] u[j]),
        d.len() >= 1,
        all_digits(d),
        is_size_suffix(c),
        forall|j: int| 0 <= j < b.len() ==> (#[trigger] b[j] == LOWER_B || b[j] == UPPER_B),
        v.len() > 0 ==> !(v[0] == LOWER_B || v[0] == UPPER_B),
        digits_val(d) * suffix_mult(c) <= u64::MAX,
    ensures
        ({
            let t = u + (d + seq![c] + b) + v;
            let e = u.len() + d.len() + 1 + b.len();
            spec_expand(t, 0) == (match spec_expand(t, e as int) {
                Ok(rest) => Ok::<Seq<u8>, Seq<u8>>(
                    u + dec_digits((digits_val(d) * suffix_mult(c)) as nat) + rest,
                ),
                Err(x) => Err::<Seq<u8>, Seq<u8>>(x),
            })
        }),
{
    let tok = d + seq![c] + b;
    let t = u + tok + v;
    let i = u.len() as int;
    let e = i + tok.len() as int;
    assert forall|j: int| 0 <= j < i implies !is_digit(#[trigger] t[j]) by {
        assert(t[j] == u[j]);
    }
    lemma_expand_copies_nondigits(t, 0, i);
    assert(t.subrange(i, e) =~= tok) by {
        assert forall|j: int| 0 <= j < tok.len() implies t.subrange(i, e)[j] == tok[j] by {
            assert(t.subrange(i, e)[j] == t[i + j]);
        }
    }
    if e < t.len() {
        assert(t[e] == v[0]);
    }
    lemma_expand_suffixed_integer_at(t, i, d, c, b);
    assert(t.subrange(0, i) =~= u);
    let dec = dec_digits((digits_val(d) * suffix_mult(c)) as nat);
    match spec_expand(t, e) {
        Ok(rest) => {
            assert(spec_expand(t, i) == Ok::<Seq<u8>, Seq<u8>>(dec + rest));
            assert(u + (dec + rest) =~= u + dec + rest);
        },
        Err(_) => {},
    }
}

/// A size-suffixed decimal anywhere in a text expands in place to its
/// truncated integer value, with the digit-free text before it copied
/// unchanged and scanning continuing after the token.
pub proof fn lemma_expand_decimal_in_text(
    u: Seq<u8>,
    d: Seq<u8>,
    f: Seq<u8>,
    c: u8,
    b: Seq<u8>,
    v: Seq<u8>,
)
    requires
        forall|j: int| 0 <= j < u.len() ==> !is_digit(#[trigger] u[j]),
        d.len() >= 1,
        all_digits(d),
        f.len() >= 1,
        all_digits(f),
        is_size_suffix(c),
        forall|j: int| 0 <= j < b.len() ==> (#[trigger] b[j] == LOWER_B || b[j] == UPPER_B),
        v.len() > 0 ==> !(v[0] == LOWER_B || v[0] == UPPER_B),
        digits_val(d) * suffix_mult(c) + (digits_val(f) * suffix_mult(c)) as int / (pow10(
            f.len(),
        ) as int) <= u64::MAX,
    ensures
        ({
            let t = u + (d + seq![DOT] + f + seq![c] + b) + v;
            let e = u.len() + d.len() + 1 + f.len() + 1 + b.len();
            let val = digits_val(d) * suffix_mult(c) + (digits_val(f) * suffix_mult(c)) as int / (
            pow10(f.len()) as int);
            spec_expand(t, 0) == (match spec_expand(t, e as int) {
                Ok(rest) => Ok::<Seq<u8>, Seq<u8>>(u + dec_digits(val as nat) + rest),
                Err(x) => Err::<Seq<u8>, Seq<u8>>(x),
            })
        }),
{
    let tok = d + seq![DOT] + f + seq![c] + b;
    let t = u + tok + v;
    let i = u.len() as int;
    let e = i + tok.len() as int;
    assert forall|j: int| 0 <= j < i implies !is_digit(#[trigger] t[j]) by {
        assert(t[j] == u[j]);
    }
    lemma_expand_copies_nondigits(t, 0, i);
    assert(t.subrange(i, e) =~= tok) by {
        assert forall|j: int| 0 <= j < tok.len() implies t.subrange(i, e)[j] == tok[j] by {
            assert(t.subrange(i, e)[j] == t[i + j]);
        }
    }
    if e < t.len() {
        assert(t[e] == v[0]);
    }
    lemma_expand_suffixed_decimal_at(t, i, d, f, c, b);
    assert(t.subrange(0, i) =~= u);
    let val = digits_val(d) * suffix_mult(c) + (digits_val(f) * suffix_mult(c)) as int / (pow10(
        f.len(),
    ) as int);
    let dec = dec_digits(val as nat);
    match spec_expand(t, e) {
        Ok(rest) => {
            assert(spec_expand(t, i) == Ok::<Seq<u8>, Seq<u8>>(dec + rest));
            assert(u + (dec + rest) =~= u + dec + rest);
        },
        Err(_) => {},
    }
}

} // verus!
