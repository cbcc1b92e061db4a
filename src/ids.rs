use vstd::prelude::*;

verus! {

/// The value of a Crockford base32 digit: `0`-`9`, then the letters without
/// I, L, O and U, in either case.
pub open spec fn crockford_digit(c: char) -> Option<int> {
    let u = if 'a' <= c && c <= 'z' {
        ((c as int) - 32) as char
    } else {
        c
    };
    if '0' <= u && u <= '9' {
        Some((u as int) - ('0' as int))
    } else if 'A' <= u && u <= 'H' {
        Some((u as int) - ('A' as int) + 10)
    } else if u == 'J' || u == 'K' {
        Some((u as int) - ('J' as int) + 18)
    } else if u == 'M' || u == 'N' {
        Some((u as int) - ('M' as int) + 20)
    } else if 'P' <= u && u <= 'T' {
        Some((u as int) - ('P' as int) + 22)
    } else if 'V' <= u && u <= 'Z' {
        Some((u as int) - ('V' as int) + 27)
    } else {
        None
    }
}

/// Every character of `s` is a Crockford base32 digit.
pub open spec fn all_digits(s: Seq<char>) -> bool {
    forall|i: int| 0 <= i < s.len() ==> (#[trigger] crockford_digit(s[i])) is Some
}

/// The digits of `s` read most significant first, five bits each, kept
/// modulo 2^128.
pub open spec fn base32_value(s: Seq<char>) -> int
    decreases s.len(),
{
    if s.len() == 0 {
        0
    } else {
        (base32_value(s.drop_last()) * 32 + crockford_digit(s.last())->Some_0)
            % (u128::MAX as int + 1)
    }
}

/// The value of the ULID that a string spells: 26 Crockford base32 digits.
pub open spec fn ulid_decoded(s: Seq<char>) -> Option<u128> {
    if s.len() == 26 && all_digits(s) {
        Some(base32_value(s) as u128)
    } else {
        None
    }
}

/// Relies on ulid's `Ulid::from_string`: a string of 26 bytes, each a
/// Crockford base32 digit, decoded by `value << 5 | digit`; anything else is
/// refused. Every digit is one ASCII byte, so 26 digits are 26 bytes, and a
/// string with any other character is refused whatever its length.
#[verifier::external_body]
pub(crate) fn decode_ulid(s: &str) -> (r: Option<u128>)
    ensures
        r == ulid_decoded(s@),
{
    match ulid::Ulid::from_string(s) {
        Ok(u) => Some(u.0),
        Err(_) => None,
    }
}

/// Relies on ulid's `Ulid::new`: a new identifier made of the current time
/// and random bits. Nothing is promised of its value.
#[verifier::external_body]
pub(crate) fn fresh_ulid() -> (r: u128) {
    ulid::Ulid::new().0
}

} // verus!
