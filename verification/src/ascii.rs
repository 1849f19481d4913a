//! Byte values and classification helpers shared by the scanning passes.

use vstd::prelude::*;

verus! {

pub const DIGIT_0: u8 = 48;

pub const DIGIT_9: u8 = 57;

pub const LOWER_A: u8 = 97;

pub const LOWER_Z: u8 = 122;

pub const UPPER_A: u8 = 65;

pub const UPPER_Z: u8 = 90;

pub const UNDERSCORE: u8 = 95;

pub const SPACE: u8 = 32;

pub const TAB: u8 = 9;

pub const NEWLINE: u8 = 10;

pub const CARRIAGE: u8 = 13;

pub const QUOTE: u8 = 34;

pub const LPAREN: u8 = 40;

pub const RPAREN: u8 = 41;

pub const COMMA: u8 = 44;

pub const DOT: u8 = 46;

pub const MINUS: u8 = 45;

pub const SLASH: u8 = 47;

pub const SEMI: u8 = 59;

pub const STAR: u8 = 42;

pub const LT: u8 = 60;

pub const GT: u8 = 62;

/// A decimal digit byte.
pub open spec fn is_digit(b: u8) -> bool {
    DIGIT_0 <= b && b <= DIGIT_9
}

/// A byte that can appear in a method identifier: ASCII letters and `_`.
pub open spec fn is_ident_byte(b: u8) -> bool {
    (LOWER_A <= b && b <= LOWER_Z) || (UPPER_A <= b && b <= UPPER_Z) || b == UNDERSCORE
}

/// A word byte for word-boundary checks: letters, digits and `_`.
pub open spec fn is_word_byte(b: u8) -> bool {
    is_ident_byte(b) || is_digit(b)
}

/// ASCII whitespace.
pub open spec fn is_space(b: u8) -> bool {
    b == SPACE || b == TAB || b == NEWLINE || b == CARRIAGE
}

pub fn digit_byte(b: u8) -> (r: bool)
    ensures
        r == is_digit(b),
{
    DIGIT_0 <= b && b <= DIGIT_9
}

pub fn ident_byte(b: u8) -> (r: bool)
    ensures
        r == is_ident_byte(b),
{
    (LOWER_A <= b && b <= LOWER_Z) || (UPPER_A <= b && b <= UPPER_Z) || b == UNDERSCORE
}

pub fn word_byte(b: u8) -> (r: bool)
    ensures
        r == is_word_byte(b),
{
    digit_byte(b) || ident_byte(b)
}

pub fn space_byte(b: u8) -> (r: bool)
    ensures
        r == is_space(b),
{
    b == SPACE || b == TAB || b == NEWLINE || b == CARRIAGE
}

/// `p` occurs in `t` starting at index `i`.
pub open spec fn starts_with_at(t: Seq<u8>, i: int, p: Seq<u8>) -> bool {
    0 <= i && i + p.len() <= t.len() && t.subrange(i, i + p.len()) == p
}

pub fn check_starts_with_at(t: &[u8], i: usize, p: &[u8]) -> (r: bool)
    requires
        i <= t@.len(),
    ensures
        r == starts_with_at(t@, i as int, p@),
{
    let n: usize = t.len();
    if n - i < p.len() {
        assert(!starts_with_at(t@, i as int, p@));
        return false;
    }
    let mut k: usize = 0;
    while k < p.len()
        invariant
            0 <= k <= p@.len(),
            n == t@.len(),
            i + p@.len() <= n,
            forall|j: int| 0 <= j < k ==> t@[i + j] == p@[j],
        decreases p@.len() - k,
    {
        if t[i + k] != p[k] {
            assert(t@.subrange(i as int, i + p@.len())[k as int] != p@[k as int]);
            return false;
        }
        k += 1;
    }
    assert(t@.subrange(i as int, i + p@.len()) =~= p@);
    true
}

} // verus!

verus! {

/// Every byte of `s` is ASCII.
pub open spec fn all_ascii(s: Seq<u8>) -> bool {
    forall|i: int| 0 <= i < s.len() ==> (#[trigger] s[i]) < 128
}

pub fn ascii_bytes(s: &[u8]) -> (r: bool)
    ensures
        r == all_ascii(s@),
{
    let mut k: usize = 0;
    while k < s.len()
        invariant
            0 <= k <= s@.len(),
            forall|j: int| 0 <= j < k ==> (#[trigger] s@[j]) < 128,
        decreases s@.len() - k,
    {
        if s[k] >= 128 {
            return false;
        }
        k += 1;
    }
    true
}

} // verus!
