//! Decimal numbers in the form that `str::parse` accepts for unsigned
//! integers: an optional `+`, then decimal digits, within the type's range.

use vstd::prelude::*;

verus! {

/// Why a token is not a number.
#[derive(Clone, Copy, Debug, PartialEq, Eq, Structural)]
pub enum NumberError {
    /// The token is empty.
    Empty,
    /// A character that is not a decimal digit was met first.
    InvalidDigit,
    /// The value grew past the maximum first.
    Overflow,
}

/// Whether `c` is an ASCII decimal digit.
pub open spec fn is_digit(c: char) -> bool {
    '0' <= c && c <= '9'
}

/// The value of the decimal digit `c`.
pub open spec fn digit_value(c: char) -> int {
    c as int - '0' as int
}

/// Reads the digits of `s` from the left; the first character that is not a
/// digit, or the first digit that takes the value past `max`, decides the
/// error.
pub open spec fn scan_digits(s: Seq<char>, max: int) -> Result<int, NumberError>
    decreases s.len(),
{
    if s.len() == 0 {
        Ok(0)
    } else {
        match scan_digits(s.drop_last(), max) {
            Err(e) => Err(e),
            Ok(v) => if !is_digit(s.last()) {
                Err(NumberError::InvalidDigit)
            } else if v * 10 + digit_value(s.last()) > max {
                Err(NumberError::Overflow)
            } else {
                Ok(v * 10 + digit_value(s.last()))
            },
        }
    }
}

/// The value of the token `s` read as an unsigned number no greater than `max`.
pub open spec fn parse_unsigned(s: Seq<char>, max: int) -> Result<int, NumberError> {
    if s.len() == 0 {
        Err(NumberError::Empty)
    } else if s[0] == '+' {
        if s.len() == 1 {
            Err(NumberError::InvalidDigit)
        } else {
            scan_digits(s.drop_first(), max)
        }
    } else {
        scan_digits(s, max)
    }
}

proof fn lemma_scan_digits_range(s: Seq<char>, max: int)
    requires
        0 <= max,
    ensures
        scan_digits(s, max) matches Ok(v) ==> 0 <= v <= max,
    decreases s.len(),
{
    if s.len() > 0 {
        lemma_scan_digits_range(s.drop_last(), max);
    }
}

/// Reads the token `s` as an unsigned number no greater than `max`.
pub fn parse_decimal(s: &[char], max: u64) -> (res: Result<u64, NumberError>)
    ensures
        match parse_unsigned(s@, max as int) {
            Ok(v) => 0 <= v <= max && res == Ok::<u64, NumberError>(v as u64),
            Err(e) => res == Err::<u64, NumberError>(e),
        },
{
    if s.len() == 0 {
        return Err(NumberError::Empty);
    }
    let start: usize = if s[0] == '+' {
        if s.len() == 1 {
            return Err(NumberError::InvalidDigit);
        }
        1
    } else {
        0
    };
    proof {
        lemma_parse_unsigned_range(s@, max as int);
    }
    let ghost body = s@.skip(start as int);
    assert(start == 1 ==> body =~= s@.drop_first());
    assert(start == 0 ==> body =~= s@);
    let mut value: u64 = 0;
    let mut i: usize = start;
    assert(body.take(0) =~= Seq::<char>::empty());
    while i < s.len()
        invariant
            start <= i <= s.len(),
            body == s@.skip(start as int),
            parse_unsigned(s@, max as int) == scan_digits(body, max as int),
            scan_digits(body.take(i - start), max as int) == Ok::<int, NumberError>(value as int),
            value <= max,
        decreases s.len() - i,
    {
        let c: char = s[i];
        assert(body.take(i + 1 - start).drop_last() =~= body.take(i - start));
        assert(body.take(i + 1 - start).last() == c);
        if !('0' <= c && c <= '9') {
            proof {
                lemma_scan_digits_prefix_err(body, (i + 1 - start) as nat, max as int);
            }
            return Err(NumberError::InvalidDigit);
        }
        let d: u64 = (c as u32 - '0' as u32) as u64;
        let next: u128 = value as u128 * 10 + d as u128;
        if next > max as u128 {
            proof {
                lemma_scan_digits_prefix_err(body, (i + 1 - start) as nat, max as int);
            }
            return Err(NumberError::Overflow);
        }
        value = next as u64;
        i = i + 1;
    }
    assert(body.take(i - start) =~= body);
    Ok(value)
}

/// Once a prefix of `s` fails, `s` fails with the same error.
proof fn lemma_scan_digits_prefix_err(s: Seq<char>, n: nat, max: int)
    requires
        n <= s.len(),
        scan_digits(s.take(n as int), max) is Err,
    ensures
        scan_digits(s, max) == scan_digits(s.take(n as int), max),
    decreases s.len() - n,
{
    if n < s.len() {
        assert(s.take(n + 1 as int).drop_last() =~= s.take(n as int));
        lemma_scan_digits_prefix_err(s, (n + 1) as nat, max);
    } else {
        assert(s.take(n as int) =~= s);
    }
}

/// Reads the token `s` as a `u32`.
pub fn parse_u32(s: &[char]) -> (res: Result<u32, NumberError>)
    ensures
        match parse_unsigned(s@, u32::MAX as int) {
            Ok(v) => 0 <= v <= u32::MAX && res == Ok::<u32, NumberError>(v as u32),
            Err(e) => res == Err::<u32, NumberError>(e),
        },
{
    proof {
        lemma_parse_unsigned_range(s@, u32::MAX as int);
    }
    match parse_decimal(s, u32::MAX as u64) {
        Ok(v) => Ok(v as u32),
        Err(e) => Err(e),
    }
}

/// Reads the token `s` as a `usize`.
pub fn parse_usize(s: &[char]) -> (res: Result<usize, NumberError>)
    ensures
        match parse_unsigned(s@, usize::MAX as int) {
            Ok(v) => 0 <= v <= usize::MAX && res == Ok::<usize, NumberError>(v as usize),
            Err(e) => res == Err::<usize, NumberError>(e),
        },
{
    proof {
        lemma_parse_unsigned_range(s@, usize::MAX as int);
    }
    match parse_decimal(s, usize::MAX as u64) {
        Ok(v) => Ok(v as usize),
        Err(e) => Err(e),
    }
}

/// Reads the token `s` as a `u64`.
pub fn parse_u64(s: &[char]) -> (res: Result<u64, NumberError>)
    ensures
        match parse_unsigned(s@, u64::MAX as int) {
            Ok(v) => 0 <= v <= u64::MAX && res == Ok::<u64, NumberError>(v as u64),
            Err(e) => res == Err::<u64, NumberError>(e),
        },
{
    parse_decimal(s, u64::MAX)
}

/// A number that parses lies between zero and the maximum.
pub proof fn lemma_parse_unsigned_range(s: Seq<char>, max: int)
    requires
        0 <= max,
    ensures
        parse_unsigned(s, max) matches Ok(v) ==> 0 <= v <= max,
{
    if s.len() > 0 {
        lemma_scan_digits_range(s, max);
        lemma_scan_digits_range(s.drop_first(), max);
    }
}

} // verus!
