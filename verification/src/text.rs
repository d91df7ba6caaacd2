//! Decimal rendering of integers and small string helpers shared by the
//! lexer's error messages and the assembly emitter.

use vstd::prelude::*;
use vstd::string::*;

verus! {

/// The ASCII digit for `d` (meaningful for `d < 10`).
pub open spec fn digit_char(d: nat) -> char {
    (48 + d) as char
}

/// The decimal rendering of a natural number, most significant digit first,
/// with no leading zeros (zero is rendered as `0`).
pub open spec fn dec_nat(n: nat) -> Seq<char>
    decreases n,
{
    if n < 10 {
        seq![digit_char(n)]
    } else {
        dec_nat(n / 10).push(digit_char(n % 10))
    }
}

/// The decimal rendering of an integer: a `-` before the digits of its
/// absolute value when it is negative.
pub open spec fn dec_int(i: int) -> Seq<char> {
    if i < 0 {
        seq!['-'] + dec_nat((-i) as nat)
    } else {
        dec_nat(i as nat)
    }
}

/// Appends one character to a string. Trusted: it calls `String::push`, and
/// its contract claims only that `c` now ends the string, after the old text.
#[verifier::external_body]
pub(crate) fn push_char(s: &mut String, c: char)
    ensures
        final(s)@ == old(s)@.push(c),
{
    s.push(c);
}

fn digit(d: u64) -> (c: char)
    requires
        d < 10,
    ensures
        c == digit_char(d as nat),
{
    let b: u8 = 48u8 + (d as u8);
    b as char
}

/// Appends the decimal rendering of `n` to `s`.
pub fn append_u64(s: &mut String, n: u64)
    ensures
        final(s)@ == old(s)@ + dec_nat(n as nat),
    decreases n,
{
    if n < 10 {
        let c = digit(n);
        push_char(s, c);
        assert(dec_nat(n as nat) == seq![digit_char(n as nat)]);
    } else {
        append_u64(s, n / 10);
        let c = digit(n % 10);
        push_char(s, c);
    }
}

/// Appends the decimal rendering of `n` (with a leading `-` when negative) to `s`.
pub fn append_i64(s: &mut String, n: i64)
    ensures
        final(s)@ == old(s)@ + dec_int(n as int),
{
    if n < 0 {
        push_char(s, '-');
        let m: u64 = (-(n as i128)) as u64;
        append_u64(s, m);
    } else {
        append_u64(s, n as u64);
    }
}

/// Appends the decimal rendering of `n` to `s`.
pub fn append_u128(s: &mut String, n: u128)
    ensures
        final(s)@ == old(s)@ + dec_nat(n as nat),
    decreases n,
{
    if n < 10 {
        let c = digit(n as u64);
        push_char(s, c);
    } else {
        append_u128(s, n / 10);
        let c = digit((n % 10) as u64);
        push_char(s, c);
    }
}

} // verus!
