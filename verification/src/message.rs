//! The text of the error that reports a length.
use vstd::prelude::*;

verus! {

/// The character of one decimal digit.
pub open spec fn digit(d: nat) -> char {
    if d == 0 {
        '0'
    } else if d == 1 {
        '1'
    } else if d == 2 {
        '2'
    } else if d == 3 {
        '3'
    } else if d == 4 {
        '4'
    } else if d == 5 {
        '5'
    } else if d == 6 {
        '6'
    } else if d == 7 {
        '7'
    } else if d == 8 {
        '8'
    } else {
        '9'
    }
}

/// `n` written in decimal, without leading zeros.
pub open spec fn decimal(n: nat) -> Seq<char>
    decreases n,
{
    if n < 10 {
        seq![digit(n)]
    } else {
        decimal(n / 10).push(digit(n % 10))
    }
}

/// The message for a slice of `n` elements, `n` not a power of two.
pub open spec fn length_error_text(n: nat) -> Seq<char> {
    "The length of x is not a power of two. (x.len(): "@ + decimal(n) + ")"@
}

/// Writes `n` in decimal between `before` and `after`.
///
/// Trusted: the body is a call of `format!`, whose `{}` prints a `&str` as it
/// is and a `usize` in decimal without sign, padding or leading zeros.
#[verifier::external_body]
pub(crate) fn number_between(before: &str, n: usize, after: &str) -> (text: String)
    ensures
        text@ == before@ + decimal(n as nat) + after@,
{
    format!("{}{}{}", before, n, after)
}

/// The message for a slice of `n` elements, `n` not a power of two.
pub fn length_error(n: usize) -> (text: String)
    ensures
        text@ == length_error_text(n as nat),
{
    number_between("The length of x is not a power of two. (x.len(): ", n, ")")
}

} // verus!
