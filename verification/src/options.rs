//! Validation of the limits as they come in as text.

use crate::token::is_digit;
use vstd::prelude::*;

verus! {

/// What `str::trim` of the standard library returns for a text: the text
/// without the whitespace at its two ends.
pub uninterp spec fn trimmed(text: Seq<char>) -> Seq<char>;

/// The text of the error with which `str::parse::<u32>` of the standard
/// library refuses a text.
pub uninterp spec fn parse_error_text(text: Seq<char>) -> Seq<char>;

/// The number that a decimal digit stands for.
pub open spec fn digit_value(digit: char) -> nat {
    if digit == '1' {
        1
    } else if digit == '2' {
        2
    } else if digit == '3' {
        3
    } else if digit == '4' {
        4
    } else if digit == '5' {
        5
    } else if digit == '6' {
        6
    } else if digit == '7' {
        7
    } else if digit == '8' {
        8
    } else if digit == '9' {
        9
    } else {
        0
    }
}

/// The number that a sequence of decimal digits stands for.
pub open spec fn decimal_value(digits: Seq<char>) -> nat
    decreases digits.len(),
{
    if digits.len() == 0 {
        0
    } else {
        decimal_value(digits.drop_last()) * 10 + digit_value(digits.last())
    }
}

/// A text without the plus sign that it may start with.
pub open spec fn without_sign(text: Seq<char>) -> Seq<char> {
    if text.len() > 0 && text[0] == '+' {
        text.drop_first()
    } else {
        text
    }
}

/// Whether a text denotes a number of 32 bits: after a plus sign, if it
/// has one, it holds one decimal digit or more and nothing else, and their
/// value fits.
pub open spec fn denotes_u32(text: Seq<char>) -> bool {
    &&& without_sign(text).len() > 0
    &&& forall|i: int| 0 <= i < without_sign(text).len() ==> is_digit(#[trigger] without_sign(text)[i])
    &&& decimal_value(without_sign(text)) <= u32::MAX
}

/// `str::trim`: the text without leading and trailing whitespace. The
/// result depends on the text alone; nothing else is claimed of it.
#[verifier::external_body]
fn trim(text: &str) -> (inner: &str)
    ensures
        inner@ == trimmed(text@),
{
    text.trim()
}

/// `str::parse::<u32>`, the error given as its text. A text that is made
/// of decimal digits, after an optional plus sign, and whose value fits in
/// 32 bits yields that value; every other text an error, of whose text
/// only this is claimed, that it depends on the parsed text alone.
#[verifier::external_body]
fn parse_u32(text: &str) -> (parsed: Result<u32, String>)
    ensures
        match parsed {
            Ok(number) => denotes_u32(text@) && number == decimal_value(without_sign(text@)),
            Err(error) => !denotes_u32(text@) && error@ == parse_error_text(text@),
        },
{
    text.parse::<u32>().map_err(|error| error.to_string())
}

/// The verdict on a limit that was parsed: a number is accepted unless it
/// is zero, and what did not parse is refused with the error of the parse.
pub fn positive_or_error(parsed: Result<u32, String>) -> (verdict: Result<(), String>)
    ensures
        match verdict {
            Ok(_) => parsed matches Ok(number) && number > 0,
            Err(error) => match parsed {
                Ok(number) => number == 0 && error@ == "must be positive value"@,
                Err(reason) => error@ == reason@,
            },
        },
{
    match parsed {
        Ok(number) => {
            if number > 0 {
                Ok(())
            } else {
                Err("must be positive value".to_owned())
            }
        },
        Err(reason) => Err(reason),
    }
}

/// Whether a text denotes a limit: a number above zero that fits in 32
/// bits, whitespace around it set aside. The error says why it does not.
pub fn verify_positive_short(s: String) -> (verdict: Result<(), String>)
    ensures
        verdict is Ok <==> denotes_u32(trimmed(s@)) && decimal_value(without_sign(trimmed(s@)))
            > 0,
        verdict matches Err(error) ==> error@ == if denotes_u32(trimmed(s@)) {
            "must be positive value"@
        } else {
            parse_error_text(trimmed(s@))
        },
{
    positive_or_error(parse_u32(trim(s.as_str())))
}

} // verus!
