//! Arbitrary-precision integers. The library computes with GMP integers
//! through the `rug` crate; this module holds the trusted interface to them:
//! each function below makes one call into `rug` and states what that call
//! returns, in terms of the mathematical value an `Integer` holds.

use rug::ops::DivRounding;
use rug::Integer;
use vstd::prelude::*;
use vstd::arithmetic::power2::pow2;

verus! {

/// `rug::Integer`, a GMP integer of any size, declared so that it can be
/// stored and passed around by verified code.
#[verifier::external_type_specification]
#[verifier::external_body]
pub struct ExInteger(rug::Integer);

/// The mathematical value that a `rug::Integer` holds: its contents.
pub uninterp spec fn integer_value(x: Integer) -> int;

/// Floor of `a / b` (rounding towards negative infinity), for `b != 0`.
pub open spec fn floor_div(a: int, b: int) -> int {
    if b > 0 {
        a / b
    } else {
        (-a) / (-b)
    }
}

/// Calls `rug::Integer::new`, which is documented to return zero.
#[verifier::external_body]
pub(crate) fn int_zero() -> (r: Integer)
    ensures
        integer_value(r) == 0,
{
    Integer::new()
}

/// Calls `rug::Integer::from::<i64>`, which holds the same value.
#[verifier::external_body]
pub(crate) fn int_from_i64(v: i64) -> (r: Integer)
    ensures
        integer_value(r) == v,
{
    Integer::from(v)
}

/// Calls `rug::Integer::clone`, which copies the value.
#[verifier::external_body]
pub(crate) fn int_clone(x: &Integer) -> (r: Integer)
    ensures
        integer_value(r) == integer_value(*x),
{
    x.clone()
}

/// Calls `&Integer + &Integer` (`rug`'s exact addition) and completes it.
#[verifier::external_body]
pub(crate) fn int_add(a: &Integer, b: &Integer) -> (r: Integer)
    ensures
        integer_value(r) == integer_value(*a) + integer_value(*b),
{
    Integer::from(a + b)
}

/// Calls `&Integer - &Integer` (`rug`'s exact subtraction) and completes it.
#[verifier::external_body]
pub(crate) fn int_sub(a: &Integer, b: &Integer) -> (r: Integer)
    ensures
        integer_value(r) == integer_value(*a) - integer_value(*b),
{
    Integer::from(a - b)
}

/// Calls `&Integer * &Integer` (`rug`'s exact multiplication) and completes it.
#[verifier::external_body]
pub(crate) fn int_mul(a: &Integer, b: &Integer) -> (r: Integer)
    ensures
        integer_value(r) == integer_value(*a) * integer_value(*b),
{
    Integer::from(a * b)
}

/// Calls `-&Integer` (`rug`'s negation) and completes it.
#[verifier::external_body]
pub(crate) fn int_neg(a: &Integer) -> (r: Integer)
    ensures
        integer_value(r) == -integer_value(*a),
{
    Integer::from(-a)
}

/// Calls `DivRounding::div_floor` on `&Integer`: the quotient rounded towards
/// negative infinity. It panics when the divisor is zero.
#[verifier::external_body]
pub(crate) fn int_div_floor(a: &Integer, b: &Integer) -> (r: Integer)
    requires
        integer_value(*b) != 0,
    ensures
        integer_value(r) == floor_div(integer_value(*a), integer_value(*b)),
{
    Integer::from(a.div_floor(b))
}

/// Calls `Integer == i32` against 0.
#[verifier::external_body]
pub(crate) fn int_is_zero(a: &Integer) -> (r: bool)
    ensures
        r == (integer_value(*a) == 0),
{
    *a == 0
}

/// Calls `Integer::to_i64`, which returns the value when it fits in an `i64`.
#[verifier::external_body]
pub(crate) fn int_to_i64(a: &Integer) -> (r: Option<i64>)
    ensures
        r matches Some(v) ==> v == integer_value(*a),
        r is None <==> (integer_value(*a) < i64::MIN || integer_value(*a) > i64::MAX),
{
    a.to_i64()
}

/// Calls `&Integer << u32` (`rug`'s exact left shift) and completes it.
#[verifier::external_body]
pub(crate) fn int_shl(a: &Integer, bits: u32) -> (r: Integer)
    ensures
        integer_value(r) == integer_value(*a) * pow2(bits as nat),
{
    Integer::from(a << bits)
}

/// Calls `&Integer >> u32`, which `rug` computes with GMP's
/// `mpz_fdiv_q_2exp`: division by `2^bits` rounded towards negative infinity.
#[verifier::external_body]
pub(crate) fn int_shr(a: &Integer, bits: u32) -> (r: Integer)
    ensures
        integer_value(r) == floor_div(integer_value(*a), pow2(bits as nat) as int),
{
    Integer::from(a >> bits)
}

/// The bytes that GMP's string parser skips: space, tab, line feed,
/// vertical tab, form feed and carriage return.
pub open spec fn is_parse_space(b: u8) -> bool {
    b == 0x20 || b == 0x09 || b == 0x0a || b == 0x0b || b == 0x0c || b == 0x0d
}

/// Value of a digit byte `0-9`, `a-z`, `A-Z` (`10` for `a`/`A`), or `255`
/// for any other byte.
pub open spec fn digit_value(b: u8) -> int {
    if 0x30 <= b <= 0x39 {
        b - 0x30
    } else if 0x61 <= b <= 0x7a {
        b - 0x61 + 10
    } else if 0x41 <= b <= 0x5a {
        b - 0x41 + 10
    } else {
        255
    }
}

/// The result of reading `s[i..]` in base `radix`, in the state reached so
/// far: a sign was seen, the sign is negative, a digit was seen, and the
/// magnitude of the digits read. A sign may come only before any digit and
/// only once, whitespace is skipped everywhere, an underscore is skipped
/// after the first digit, and every other byte must be a digit below
/// `radix`; at least one digit is needed.
pub open spec fn radix_scan(s: Seq<u8>, radix: int, i: int, has_sign: bool, neg: bool, has_digits: bool, acc: int) -> Option<int>
    decreases s.len() - i,
{
    if i >= s.len() {
        if has_digits {
            Some(if neg { -acc } else { acc })
        } else {
            None
        }
    } else {
        let b = s[i];
        if (b == 0x2b || b == 0x2d) && !has_sign && !has_digits {
            radix_scan(s, radix, i + 1, true, b == 0x2d, has_digits, acc)
        } else if b == 0x5f && has_digits {
            radix_scan(s, radix, i + 1, has_sign, neg, has_digits, acc)
        } else if is_parse_space(b) {
            radix_scan(s, radix, i + 1, has_sign, neg, has_digits, acc)
        } else if digit_value(b) < radix {
            radix_scan(s, radix, i + 1, has_sign, neg, true, acc * radix + digit_value(b))
        } else {
            None
        }
    }
}

/// The integer that `s` spells in base `radix`, if it spells one.
pub open spec fn parsed_in_radix(s: Seq<u8>, radix: int) -> Option<int> {
    radix_scan(s, radix, 0, false, false, false, 0)
}

/// Decimal digits of `v`, most significant first, without leading zeros
/// (`"0"` for zero).
pub open spec fn dec_digits(v: nat) -> Seq<u8>
    decreases v,
{
    if v < 10 {
        seq![(0x30 + v) as u8]
    } else {
        dec_digits(v / 10) + seq![(0x30 + v % 10) as u8]
    }
}

/// Decimal text of `x`: a minus sign when negative, then its digits.
pub open spec fn dec_text(x: int) -> Seq<u8> {
    if x < 0 {
        seq![0x2du8] + dec_digits((-x) as nat)
    } else {
        dec_digits(x as nat)
    }
}

/// Calls `rug::Integer::parse_radix` and completes the result. As its
/// documentation says, the text may start with a plus or minus sign,
/// ASCII whitespace is ignored everywhere and underscores after the first
/// digit are ignored; the source also shows which bytes count as
/// whitespace and as digits. The radix must lie in `2..=36`, else the call
/// panics.
#[verifier::external_body]
pub(crate) fn int_parse_radix(s: &[u8], radix: i32) -> (r: Option<Integer>)
    requires
        2 <= radix <= 36,
    ensures
        match r {
            Some(v) => parsed_in_radix(s@, radix as int) == Some(integer_value(v)),
            None => parsed_in_radix(s@, radix as int) is None,
        },
{
    match Integer::parse_radix(s, radix) {
        Ok(p) => Some(Integer::from(p)),
        Err(_) => None,
    }
}

/// Calls `rug::Integer::to_string_radix(10)`, which writes the value in
/// decimal with a leading minus sign when negative, and takes the bytes
/// of the text.
#[verifier::external_body]
pub(crate) fn int_to_dec(x: &Integer) -> (r: Vec<u8>)
    ensures
        r@ == dec_text(integer_value(*x)),
{
    x.to_string_radix(10).into_bytes()
}

/// Number of binary digits of `v` (zero for zero).
pub open spec fn bit_len(v: nat) -> nat
    decreases v,
{
    if v == 0 {
        0
    } else {
        1 + bit_len(v / 2)
    }
}

/// Absolute value.
pub open spec fn abs(x: int) -> nat {
    if x < 0 {
        (-x) as nat
    } else {
        x as nat
    }
}

/// Calls `rug::Integer::significant_bits`, documented as the number of
/// bits needed to represent the absolute value. The source converts that
/// count to `u32` and panics when it does not fit.
#[verifier::external_body]
pub(crate) fn int_significant_bits(x: &Integer) -> (r: u32)
    requires
        bit_len(abs(integer_value(*x))) <= u32::MAX,
    ensures
        r == bit_len(abs(integer_value(*x))),
{
    x.significant_bits()
}

/// Calls `rug::Integer::significant_digits::<bool>`, documented as the
/// number of digits of type `bool` (one bit each) needed to represent the
/// absolute value; the count is a `usize` and the call does not panic.
#[verifier::external_body]
pub(crate) fn int_bit_count(x: &Integer) -> (r: usize)
    ensures
        r == bit_len(abs(integer_value(*x))),
{
    x.significant_digits::<bool>()
}

} // verus!
