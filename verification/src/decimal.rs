//! Decimal text as the staking attributes store it: how an integer is written
//! out, how text is read back as an integer, and the proof that reading gives
//! back what was written.

use vstd::prelude::*;

verus! {

/// Whether `c` is one of the ASCII digits `0` to `9`.
pub open spec fn is_digit(c: char) -> bool {
    48 <= (c as int) && (c as int) <= 57
}

/// The value of an ASCII digit.
pub open spec fn digit_value(c: char) -> int {
    (c as int) - 48
}

/// The ASCII digit whose value is `d` (for `d` below ten).
pub open spec fn digit_char(d: nat) -> char {
    (d + 48) as char
}

/// Every character of `s` is an ASCII digit.
pub open spec fn all_digits(s: Seq<char>) -> bool {
    forall|i: int| 0 <= i < s.len() ==> is_digit(#[trigger] s[i])
}

/// The number that the digit string `s` denotes in base ten.
pub open spec fn digits_value(s: Seq<char>) -> int
    decreases s.len(),
{
    if s.len() == 0 {
        0
    } else {
        digits_value(s.drop_last()) * 10 + digit_value(s.last())
    }
}

/// The base-ten digits of `n`, most significant first, with no leading zero.
pub open spec fn decimal_digits(n: nat) -> Seq<char>
    decreases n,
{
    if n < 10 {
        seq![digit_char(n)]
    } else {
        decimal_digits(n / 10).push(digit_char(n % 10))
    }
}

/// How an integer is written out in base ten: a `-` before the digits of a
/// negative number, nothing before the digits of any other.
pub open spec fn decimal_string(x: int) -> Seq<char> {
    if x < 0 {
        seq!['-'] + decimal_digits((-x) as nat)
    } else {
        decimal_digits(x as nat)
    }
}

/// `s` without the one `+` sign it may start with.
pub open spec fn without_plus(s: Seq<char>) -> Seq<char> {
    if s.len() > 0 && s[0] == '+' {
        s.drop_first()
    } else {
        s
    }
}

/// Reads `s` as a `u64`: an optional `+` and then one or more ASCII digits,
/// whose value fits in a `u64`; any other text is rejected.
pub open spec fn parse_u64_decimal(s: Seq<char>) -> Option<u64> {
    let d = without_plus(s);
    if d.len() > 0 && all_digits(d) && digits_value(d) <= u64::MAX {
        Some(digits_value(d) as u64)
    } else {
        None
    }
}

/// Reads `s` as an `i64`: an optional `+` or `-` and then one or more ASCII
/// digits, whose value fits in an `i64`; any other text is rejected.
pub open spec fn parse_i64_decimal(s: Seq<char>) -> Option<i64> {
    if s.len() > 0 && s[0] == '-' {
        let d = s.drop_first();
        if d.len() > 0 && all_digits(d) && -digits_value(d) >= i64::MIN {
            Some((-digits_value(d)) as i64)
        } else {
            None
        }
    } else {
        let d = without_plus(s);
        if d.len() > 0 && all_digits(d) && digits_value(d) <= i64::MAX {
            Some(digits_value(d) as i64)
        } else {
            None
        }
    }
}

/// The digits of `n` are a non-empty run of ASCII digits that denotes `n`.
pub proof fn lemma_decimal_digits(n: nat)
    ensures
        decimal_digits(n).len() > 0,
        all_digits(decimal_digits(n)),
        digits_value(decimal_digits(n)) == n,
    decreases n,
{
    if n < 10 {
        let s = decimal_digits(n);
        assert(digit_char(n) as int == n + 48);
        assert(s.drop_last() =~= Seq::<char>::empty());
        assert(digits_value(s) == digits_value(s.drop_last()) * 10 + digit_value(s.last()));
    } else {
        lemma_decimal_digits(n / 10);
        let s = decimal_digits(n);
        assert(digit_char(n % 10) as int == n % 10 + 48);
        assert(s.drop_last() =~= decimal_digits(n / 10));
        assert(s.last() == digit_char(n % 10));
        assert(digits_value(s) == digits_value(decimal_digits(n / 10)) * 10 + (n % 10));
        assert((n / 10) * 10 + n % 10 == n) by (nonlinear_arith);
    }
}

/// Reading back what `u64` formatting writes gives the same number.
pub proof fn lemma_parse_u64_of_decimal(n: u64)
    ensures
        parse_u64_decimal(decimal_string(n as int)) == Some(n),
{
    lemma_decimal_digits(n as nat);
    let s = decimal_digits(n as nat);
    assert(is_digit(s[0]));
    assert(without_plus(s) == s);
}

/// Reading back what `i64` formatting writes gives the same number.
pub proof fn lemma_parse_i64_of_decimal(x: i64)
    ensures
        parse_i64_decimal(decimal_string(x as int)) == Some(x),
{
    if x < 0 {
        let d = decimal_digits((-x) as nat);
        lemma_decimal_digits((-x) as nat);
        let s = decimal_string(x as int);
        assert(s.drop_first() =~= d);
    } else {
        lemma_decimal_digits(x as nat);
        let s = decimal_digits(x as nat);
        assert(is_digit(s[0]));
        assert(without_plus(s) == s);
    }
}

/// `std::num::ParseIntError`, the error of reading text as an integer.
#[verifier::external_type_specification]
#[verifier::external_body]
pub struct ExParseIntError(std::num::ParseIntError);

/// Calls `str::parse::<i64>` (`<i64 as FromStr>::from_str`). Trusted: its
/// documentation accepts an optional `+` or `-` followed by ASCII digits only,
/// and rejects empty text, any other character and a value out of range,
/// which is `parse_i64_decimal`.
#[verifier::external_body]
pub(crate) fn parse_i64_text(s: &str) -> (res: Result<i64, std::num::ParseIntError>)
    ensures
        match res {
            Ok(v) => parse_i64_decimal(s@) == Some(v),
            Err(_) => parse_i64_decimal(s@) is None,
        },
{
    s.parse::<i64>()
}

/// Calls `str::parse::<u64>` (`<u64 as FromStr>::from_str`). Trusted: its
/// documentation accepts an optional `+` followed by ASCII digits only, and
/// rejects empty text, a `-` sign, any other character and a value out of
/// range, which is `parse_u64_decimal`.
#[verifier::external_body]
pub(crate) fn parse_u64_text(s: &str) -> (res: Result<u64, std::num::ParseIntError>)
    ensures
        match res {
            Ok(v) => parse_u64_decimal(s@) == Some(v),
            Err(_) => parse_u64_decimal(s@) is None,
        },
{
    s.parse::<u64>()
}

/// Calls `ToString::to_string` on an `i64`, which writes it through its
/// `Display` impl. Trusted: that impl writes the base-ten digits without
/// leading zeros, after a `-` for a negative number, which is `decimal_string`.
#[verifier::external_body]
pub(crate) fn i64_to_text(x: i64) -> (res: String)
    ensures
        res@ == decimal_string(x as int),
{
    x.to_string()
}

/// Calls `ToString::to_string` on a `u64`, which writes it through its
/// `Display` impl. Trusted: that impl writes the base-ten digits without
/// leading zeros, which is `decimal_string`.
#[verifier::external_body]
pub(crate) fn u64_to_text(x: u64) -> (res: String)
    ensures
        res@ == decimal_string(x as int),
{
    x.to_string()
}

} // verus!
