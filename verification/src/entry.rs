//! Reading a line of input as a number.
//!
//! The line is trimmed and then read as an unsigned decimal number of sixteen
//! bits. Both steps are done by the standard library; what they return is
//! stated here so that the rest of the game can be specified on the text.

use vstd::prelude::*;

verus! {

/// `line` without the white space at its two ends, as `str::trim` of the
/// standard library removes it.
pub uninterp spec fn trimmed(line: Seq<char>) -> Seq<char>;

/// `c` is one of the ten decimal digits.
pub open spec fn is_digit_char(c: char) -> bool {
    '0' <= c <= '9'
}

/// The number that a text of decimal digits stands for.
pub open spec fn decimal_value(text: Seq<char>) -> nat
    decreases text.len(),
{
    if text.len() == 0 {
        0
    } else {
        10 * decimal_value(text.drop_last()) + (text.last() as nat - '0' as nat) as nat
    }
}

/// `text` is one decimal digit or more, and nothing else.
pub open spec fn is_decimal(text: Seq<char>) -> bool {
    &&& text.len() > 0
    &&& forall|i: int| 0 <= i < text.len() ==> is_digit_char(#[trigger] text[i])
}

/// `text` without one leading plus sign, if it has one.
pub open spec fn unsigned_part(text: Seq<char>) -> Seq<char> {
    if text.len() > 0 && text[0] == '+' {
        text.skip(1)
    } else {
        text
    }
}

/// The number that `text` holds: decimal digits, with a plus sign before them
/// or without, that stand for a number of at most sixteen bits. Any other
/// text, the empty one too, holds no number.
pub open spec fn number_in(text: Seq<char>) -> Option<u16> {
    let digits = unsigned_part(text);
    if is_decimal(digits) && decimal_value(digits) <= u16::MAX {
        Some(decimal_value(digits) as u16)
    } else {
        None
    }
}

/// The entry that a line of input makes: the number in the trimmed line.
pub open spec fn entry_of(line: Seq<char>) -> Option<u16> {
    number_in(trimmed(line))
}

/// `str::trim`: the line without leading and trailing white space. The result
/// is a function of the line alone.
#[verifier::external_body]
fn trim(line: &str) -> (text: &str)
    ensures
        text@ == trimmed(line@),
{
    line.trim()
}

/// `str::parse` for `u16`: accepts an optional plus sign followed by decimal
/// digits only, at least one of them, whose value fits in sixteen bits, and
/// returns that value. Everything else is an error, which is handed on as
/// `None`.
#[verifier::external_body]
fn parse_number(text: &str) -> (number: Option<u16>)
    ensures
        number == number_in(text@),
{
    match text.parse::<u16>() {
        Ok(value) => Some(value),
        Err(_) => None,
    }
}

/// Reads a line of input as a number: white space at both ends is ignored,
/// and the rest must be a decimal number of at most sixteen bits.
pub fn read_entry(line: &str) -> (entry: Option<u16>)
    ensures
        entry == entry_of(line@),
{
    parse_number(trim(line))
}

} // verus!
