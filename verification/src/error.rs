//! Errors and the text that they carry.

use vstd::prelude::*;

use crate::sketch::{MAX_PRECISION, MIN_PRECISION};

verus! {

/// Why a request was refused.
#[derive(Debug)]
pub enum RcfError {
    /// A configuration value is out of range, or two of them contradict each other. The text
    /// says which.
    InvalidConfig(String),
}

/// What a fallible operation returns.
pub type RcfResult<T> = Result<T, RcfError>;

/// The character of a decimal digit.
pub open spec fn digit_char(digit: nat) -> char {
    if digit == 0 {
        '0'
    } else if digit == 1 {
        '1'
    } else if digit == 2 {
        '2'
    } else if digit == 3 {
        '3'
    } else if digit == 4 {
        '4'
    } else if digit == 5 {
        '5'
    } else if digit == 6 {
        '6'
    } else if digit == 7 {
        '7'
    } else if digit == 8 {
        '8'
    } else {
        '9'
    }
}

/// A number in decimal, without leading zeros.
pub open spec fn decimal(n: nat) -> Seq<char>
    decreases n,
{
    if n < 10 {
        seq![digit_char(n)]
    } else {
        decimal(n / 10).push(digit_char(n % 10))
    }
}

/// The text that refuses a precision.
pub open spec fn precision_text(precision: nat) -> Seq<char> {
    "HyperLogLog: precision "@ + decimal(precision) + " out of ["@ + decimal(MIN_PRECISION as nat)
        + ", "@ + decimal(MAX_PRECISION as nat) + "]"@
}

/// The text that refuses a register bank whose length does not belong to its precision.
pub open spec fn length_text(length: nat, expected: nat, precision: nat) -> Seq<char> {
    "HyperLogLog: register bank length "@ + decimal(length) + " != expected "@ + decimal(expected)
        + " for precision "@ + decimal(precision)
}

/// The text that refuses to fold together sketches of two precisions.
pub open spec fn mismatch_text(left: nat, right: nat) -> Seq<char> {
    "HyperLogLog::merge: precision mismatch ("@ + decimal(left) + " vs "@ + decimal(right) + ")"@
}

/// Appends one decimal digit.
fn append_digit(text: &mut String, digit: u64)
    requires
        digit < 10,
    ensures
        final(text)@ == old(text)@.push(digit_char(digit as nat)),
{
    proof {
        reveal_strlit("0");
        reveal_strlit("1");
        reveal_strlit("2");
        reveal_strlit("3");
        reveal_strlit("4");
        reveal_strlit("5");
        reveal_strlit("6");
        reveal_strlit("7");
        reveal_strlit("8");
        reveal_strlit("9");
    }
    let symbol: &str = match digit {
        0 => "0",
        1 => "1",
        2 => "2",
        3 => "3",
        4 => "4",
        5 => "5",
        6 => "6",
        7 => "7",
        8 => "8",
        _ => "9",
    };
    assert(symbol@ =~= seq![digit_char(digit as nat)]);
    text.append(symbol);
    assert(text@ =~= old(text)@.push(digit_char(digit as nat)));
}

/// Appends a number in decimal.
fn append_decimal(text: &mut String, n: u64)
    ensures
        final(text)@ == old(text)@ + decimal(n as nat),
    decreases n,
{
    if n >= 10 {
        append_decimal(text, n / 10);
    }
    append_digit(text, n % 10);
    assert(text@ =~= old(text)@ + decimal(n as nat));
}

/// The error for a precision outside the allowed range.
pub(crate) fn invalid_precision(precision: u8) -> (error: RcfError)
    ensures
        error matches RcfError::InvalidConfig(text) && text@ == precision_text(precision as nat),
{
    let mut text: String = String::new();
    text.append("HyperLogLog: precision ");
    append_decimal(&mut text, precision as u64);
    text.append(" out of [");
    append_decimal(&mut text, MIN_PRECISION as u64);
    text.append(", ");
    append_decimal(&mut text, MAX_PRECISION as u64);
    text.append("]");
    assert(text@ =~= precision_text(precision as nat));
    RcfError::InvalidConfig(text)
}

/// The error for a register bank of the wrong length.
pub(crate) fn invalid_length(length: usize, expected: usize, precision: u8) -> (error: RcfError)
    ensures
        error matches RcfError::InvalidConfig(text) && text@ == length_text(
            length as nat,
            expected as nat,
            precision as nat,
        ),
{
    let mut text: String = String::new();
    text.append("HyperLogLog: register bank length ");
    append_decimal(&mut text, length as u64);
    text.append(" != expected ");
    append_decimal(&mut text, expected as u64);
    text.append(" for precision ");
    append_decimal(&mut text, precision as u64);
    assert(text@ =~= length_text(length as nat, expected as nat, precision as nat));
    RcfError::InvalidConfig(text)
}

/// The error for a merge of sketches of two precisions.
pub(crate) fn precision_mismatch(left: u8, right: u8) -> (error: RcfError)
    ensures
        error matches RcfError::InvalidConfig(text) && text@ == mismatch_text(
            left as nat,
            right as nat,
        ),
{
    let mut text: String = String::new();
    text.append("HyperLogLog::merge: precision mismatch (");
    append_decimal(&mut text, left as u64);
    text.append(" vs ");
    append_decimal(&mut text, right as u64);
    text.append(")");
    assert(text@ =~= mismatch_text(left as nat, right as nat));
    RcfError::InvalidConfig(text)
}

} // verus!
