//! Decimal digit sequences: rendering integers as decimal byte text and
//! the value of a run of digit bytes.

use vstd::prelude::*;
use crate::ascii::{is_digit, DIGIT_0, MINUS};

verus! {

/// The decimal digit bytes of `n`, most significant first, with no sign
/// and no leading zero (`0` itself is the single byte `48`).
pub open spec fn dec_digits(n: nat) -> Seq<u8>
    decreases n,
{
    if n < 10 {
        seq![(n + 48) as u8]
    } else {
        dec_digits(n / 10) + seq![((n % 10) + 48) as u8]
    }
}

/// The decimal byte text of a possibly negative integer.
pub open spec fn dec_int(v: int) -> Seq<u8> {
    if v < 0 {
        seq![MINUS] + dec_digits((-v) as nat)
    } else {
        dec_digits(v as nat)
    }
}

/// Every byte of `s` is a decimal digit.
pub open spec fn all_digits(s: Seq<u8>) -> bool {
    forall|i: int| 0 <= i < s.len() ==> is_digit(#[trigger] s[i])
}

/// The numeric value of a run of digit bytes, most significant first.
pub open spec fn digits_val(s: Seq<u8>) -> nat
    decreases s.len(),
{
    if s.len() == 0 {
        0
    } else {
        digits_val(s.drop_last()) * 10 + (s.last() - DIGIT_0) as nat
    }
}

pub open spec fn pow10(k: nat) -> nat
    decreases k,
{
    if k == 0 {
        1
    } else {
        10 * pow10((k - 1) as nat)
    }
}

/// The value of a digit run is below `10^len`.
pub proof fn lemma_digits_val_upper(s: Seq<u8>)
    requires
        all_digits(s),
    ensures
        digits_val(s) < pow10(s.len()),
    decreases s.len(),
{
    if s.len() > 0 {
        lemma_digits_val_upper(s.drop_last());
        assert(is_digit(s[s.len() - 1]));
    }
}

/// A digit run with a nonzero leading digit has value at least `10^(len-1)`.
pub proof fn lemma_digits_val_lower(s: Seq<u8>)
    requires
        all_digits(s),
        s.len() >= 1,
        s[0] != DIGIT_0,
    ensures
        digits_val(s) >= pow10((s.len() - 1) as nat),
    decreases s.len(),
{
    if s.len() == 1 {
        assert(is_digit(s[0]));
    } else {
        lemma_digits_val_lower(s.drop_last());
    }
}

pub proof fn lemma_pow10_increases(a: nat, b: nat)
    requires
        a <= b,
    ensures
        pow10(a) <= pow10(b),
    decreases b,
{
    if a < b && b > 0 {
        lemma_pow10_increases(a, (b - 1) as nat);
    }
}

/// Appending a digit multiplies the value by ten and adds the digit.
pub proof fn lemma_digits_val_push(s: Seq<u8>, d: u8)
    requires
        is_digit(d),
    ensures
        digits_val(s.push(d)) == digits_val(s) * 10 + (d - DIGIT_0),
{
    assert(s.push(d).drop_last() =~= s);
}

/// Renders `n` in decimal.
pub fn u64_to_dec(n: u64) -> (r: Vec<u8>)
    ensures
        r@ == dec_digits(n as nat),
{
    let mut out: Vec<u8> = Vec::new();
    if n == 0 {
        out.push(DIGIT_0);
        assert(out@ =~= dec_digits(0));
        return out;
    }
    let mut m: u64 = n;
    proof {
        assert(dec_digits(n as nat) =~= dec_digits(m as nat) + out@);
    }
    while m > 0
        invariant
            m > 0 ==> dec_digits(n as nat) == dec_digits(m as nat) + out@,
            m == 0 ==> dec_digits(n as nat) == out@,
        decreases m,
    {
        let ghost out0 = out@;
        let ghost m0 = m as nat;
        let d: u8 = (m % 10) as u8 + 48;
        out.insert(0, d);
        m = m / 10;
        proof {
            assert(out@ =~= seq![d] + out0);
            if m0 < 10 {
                assert(dec_digits(m0) =~= seq![d]);
                assert(dec_digits(n as nat) =~= out@);
            } else {
                assert(dec_digits(m0) == dec_digits(m0 / 10) + seq![d]);
                assert(dec_digits(m0) + out0 =~= dec_digits(m0 / 10) + (seq![d] + out0));
                assert(dec_digits(n as nat) =~= dec_digits(m as nat) + out@);
            }
        }
    }
    out
}

/// Renders `v` in decimal, with a leading minus sign when negative.
pub fn i64_to_dec(v: i64) -> (r: Vec<u8>)
    ensures
        r@ == dec_int(v as int),
{
    if v >= 0 {
        let r = u64_to_dec(v as u64);
        return r;
    }
    let mag: u64 = if v == i64::MIN {
        9223372036854775808u64
    } else {
        (-v) as u64
    };
    let mut r = u64_to_dec(mag);
    r.insert(0, MINUS);
    proof {
        assert(mag as nat == (-(v as int)) as nat);
        assert(r@ =~= dec_int(v as int));
    }
    r
}

} // verus!

verus! {

/// A leading zero does not change a digit run's value.
pub proof fn lemma_digits_val_skip_zero(s: Seq<u8>)
    requires
        s.len() >= 1,
        s[0] == DIGIT_0,
    ensures
        digits_val(s) == digits_val(s.skip(1)),
    decreases s.len(),
{
    if s.len() == 1 {
        assert(digits_val(Seq::<u8>::empty()) == 0);
        assert(s.drop_last() =~= Seq::<u8>::empty());
        assert(s.skip(1) =~= Seq::<u8>::empty());
        assert(digits_val(s) == 0);
    } else {
        assert(s.drop_last()[0] == s[0]);
        lemma_digits_val_skip_zero(s.drop_last());
        assert(s.drop_last().skip(1) =~= s.skip(1).drop_last());
        assert(s.skip(1).last() == s.last());
        assert(digits_val(s) == digits_val(s.drop_last()) * 10 + (s.last() - DIGIT_0) as nat);
        assert(digits_val(s.skip(1)) == digits_val(s.skip(1).drop_last()) * 10 + (s.skip(1).last()
            - DIGIT_0) as nat);
    }
}

/// Prepending a digit adds it at the highest place value.
pub proof fn lemma_digits_val_prepend(d0: u8, s: Seq<u8>)
    requires
        is_digit(d0),
    ensures
        digits_val(seq![d0] + s) == (d0 - DIGIT_0) * pow10(s.len()) + digits_val(s),
    decreases s.len(),
{
    let full = seq![d0] + s;
    if s.len() == 0 {
        assert(full =~= seq![d0]);
        assert(digits_val(Seq::<u8>::empty()) == 0);
        assert(full.drop_last() =~= Seq::<u8>::empty());
        assert(digits_val(full) == (d0 - DIGIT_0) as nat);
        assert(pow10(0) == 1);
        assert(digits_val(s) == 0);
        assert((d0 - DIGIT_0) * pow10(s.len()) == (d0 - DIGIT_0) as int) by (nonlinear_arith)
            requires
                pow10(s.len()) == 1,
        ;
        assert(digits_val(full) == (d0 - DIGIT_0) * pow10(s.len()) + digits_val(s));
    } else {
        assert(full.drop_last() =~= seq![d0] + s.drop_last());
        lemma_digits_val_prepend(d0, s.drop_last());
        assert(full.last() == s.last());
        let a = (d0 - DIGIT_0) as int;
        let p = pow10((s.len() - 1) as nat) as int;
        let w = digits_val(s.drop_last()) as int;
        assert(digits_val(full) == digits_val(full.drop_last()) * 10 + (full.last()
            - DIGIT_0) as nat);
        assert(digits_val(full.drop_last()) == a * p + w);
        assert((a * p + w) * 10 == a * (p * 10) + w * 10) by (nonlinear_arith);
        assert(pow10(s.len()) == 10 * pow10((s.len() - 1) as nat));
        assert(digits_val(s) == w * 10 + (s.last() - DIGIT_0) as nat);
        assert(a * (10 * p) == a * (p * 10)) by (nonlinear_arith);
        assert(a * pow10(s.len()) == a * (10 * p)) by {
            assert(pow10(s.len()) as int == 10 * p);
        }
        assert(digits_val(full) == a * pow10(s.len()) + digits_val(s));
    }
}

pub proof fn lemma_pow10_pos(k: nat)
    ensures
        pow10(k) >= 1,
    decreases k,
{
    if k > 0 {
        lemma_pow10_pos((k - 1) as nat);
    }
}

/// Concrete powers of ten used as overflow cut-offs.
pub proof fn lemma_pow10_values()
    ensures
        pow10(20) == 100000000000000000000,
        pow10(21) == 1000000000000000000000,
{
    reveal_with_fuel(pow10, 22);
}

} // verus!
