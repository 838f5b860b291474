//! The lines that the game shows: the welcome, the prompts, the score of a
//! guess and the congratulation.
//!
//! Each line is specified as a text, a `Seq<char>`, and built as a `String`
//! that holds exactly that text. Showing it is left to the caller.

use crate::entry::{decimal_value, is_decimal};
use crate::session::Reply;
use vstd::prelude::*;
use vstd::string::StringExecFns;

verus! {

/// The character of a decimal digit.
pub open spec fn digit_char(digit: nat) -> char {
    if digit == 0 {
        '0'
    } else if digit == 1 {
        '1'
    } else if digit == 2 {
        '2'
    } else if digit == 3 {
        '3'
    } else if digit == 4 {
        '4'
    } else if digit == 5 {
        '5'
    } else if digit == 6 {
        '6'
    } else if digit == 7 {
        '7'
    } else if digit == 8 {
        '8'
    } else {
        '9'
    }
}

/// A number in decimal digits, without leading zeros.
pub open spec fn decimal_text(number: nat) -> Seq<char>
    decreases number,
{
    if number < 10 {
        seq![digit_char(number)]
    } else {
        decimal_text(number / 10).push(digit_char(number % 10))
    }
}

/// The digits of a guess, each followed by a space.
pub open spec fn row_text(digits: Seq<u8>) -> Seq<char>
    decreases digits.len(),
{
    if digits.len() == 0 {
        Seq::empty()
    } else {
        row_text(digits.drop_last()) + decimal_text(digits.last() as nat) + " "@
    }
}

/// The noun for a count of moves: singular for one move only.
pub open spec fn move_noun_text(moves: nat) -> Seq<char> {
    if moves == 1 {
        "move"@
    } else {
        "moves"@
    }
}

/// The line for a guess that did not win: six spaces, the digits, the score.
pub open spec fn score_text(digits: Seq<u8>, bulls: nat, cows: nat) -> Seq<char> {
    "      "@ + row_text(digits) + "has "@ + decimal_text(bulls) + "b "@ + decimal_text(cows)
        + "c"@
}

/// The congratulation, with the count of moves.
pub open spec fn win_text(moves: nat) -> Seq<char> {
    "Congratulations! You won in "@ + decimal_text(moves) + " "@ + move_noun_text(moves) + "!"@
}

/// The prompt after an entry that is no number of the right length.
pub open spec fn length_prompt_text(num_digits: nat) -> Seq<char> {
    "Please enter a "@ + decimal_text(num_digits) + " digit number!"@
}

/// The prompt after a guess that repeats a digit.
pub open spec fn unique_prompt_text(num_digits: nat) -> Seq<char> {
    "Please enter "@ + decimal_text(num_digits) + " unique digits!"@
}

/// The welcome: the rules of the game for secrets of `num_digits` digits.
pub open spec fn welcome_text(num_digits: nat) -> Seq<char> {
    "Welcome to Bulls and Cows!\n"@
        + "The goal of the game is to guess a number with "@
        + decimal_text(num_digits)
        + " unique digits correctly in the\n"@
        + "least number of steps. Valid digits are from 0 to 9 inclusive. Bulls are digits\n"@
        + "you guess correctly, and Cows are digits that are correct but in wrong location.\n"@
        + "Enter your guesses below as a contiguous "@
        + decimal_text(num_digits)
        + " digit number with non-repeating digits."@
}

/// The line that answers an entry in a game with secrets of `num_digits` digits.
pub open spec fn reply_text(reply: Reply, num_digits: nat) -> Seq<char> {
    match reply {
        Reply::NotANumber => length_prompt_text(num_digits),
        Reply::MalformedNumber => length_prompt_text(num_digits),
        Reply::NonUniqueDigits => unique_prompt_text(num_digits),
        Reply::Scored { digits, bulls, cows } => score_text(digits@, bulls as nat, cows as nat),
        Reply::Won { moves } => win_text(moves as nat),
    }
}

/// The text of one decimal digit.
fn digit_str(digit: u64) -> (text: &'static str)
    requires
        digit <= 9,
    ensures
        text@ == seq![digit_char(digit as nat)],
{
    proof {
        reveal_strlit("0");
        reveal_strlit("1");
        reveal_strlit("2");
        reveal_strlit("3");
        reveal_strlit("4");
        reveal_strlit("5");
        reveal_strlit("6");
        reveal_strlit("7");
        reveal_strlit("8");
        reveal_strlit("9");
    }
    let text: &'static str = if digit == 0 {
        "0"
    } else if digit == 1 {
        "1"
    } else if digit == 2 {
        "2"
    } else if digit == 3 {
        "3"
    } else if digit == 4 {
        "4"
    } else if digit == 5 {
        "5"
    } else if digit == 6 {
        "6"
    } else if digit == 7 {
        "7"
    } else if digit == 8 {
        "8"
    } else {
        "9"
    };
    text
}

/// Writes a number in decimal digits, without leading zeros.
pub fn decimal_string(number: u64) -> (text: String)
    ensures
        text@ == decimal_text(number as nat),
    decreases number,
{
    if number < 10 {
        String::from_str(digit_str(number))
    } else {
        let mut text = decimal_string(number / 10);
        text.append(digit_str(number % 10));
        text
    }
}

/// The noun for a count of moves: "move" for one, "moves" for any other count.
pub fn move_noun(moves: u64) -> (noun: &'static str)
    ensures
        noun@ == move_noun_text(moves as nat),
{
    if moves == 1 {
        "move"
    } else {
        "moves"
    }
}

/// The line for a guess that did not win, such as `      1 3 2 5 has 1b 2c`.
pub fn score_line(digits: &[u8], bulls: usize, cows: usize) -> (line: String)
    ensures
        line@ == score_text(digits@, bulls as nat, cows as nat),
{
    let mut line = String::from_str("      ");
    let mut i: usize = 0;
    while i < digits.len()
        invariant
            i <= digits.len(),
            line@ == "      "@ + row_text(digits@.take(i as int)),
        decreases digits.len() - i,
    {
        let digit = decimal_string(digits[i] as u64);
        line.append(digit.as_str());
        line.append(" ");
        proof {
            assert(digits@.take(i as int + 1).drop_last() =~= digits@.take(i as int));
        }
        i = i + 1;
    }
    proof {
        assert(digits@.take(i as int) =~= digits@);
    }
    line.append("has ");
    line.append(decimal_string(bulls as u64).as_str());
    line.append("b ");
    line.append(decimal_string(cows as u64).as_str());
    line.append("c");
    line
}

/// The congratulation, such as `Congratulations! You won in 7 moves!`.
pub fn win_line(moves: u64) -> (line: String)
    ensures
        line@ == win_text(moves as nat),
{
    let mut line = String::from_str("Congratulations! You won in ");
    line.append(decimal_string(moves).as_str());
    line.append(" ");
    line.append(move_noun(moves));
    line.append("!");
    line
}

/// The prompt after an entry that is no number of the right length.
pub fn length_prompt(num_digits: usize) -> (line: String)
    ensures
        line@ == length_prompt_text(num_digits as nat),
{
    let mut line = String::from_str("Please enter a ");
    line.append(decimal_string(num_digits as u64).as_str());
    line.append(" digit number!");
    line
}

/// The prompt after a guess that repeats a digit.
pub fn unique_prompt(num_digits: usize) -> (line: String)
    ensures
        line@ == unique_prompt_text(num_digits as nat),
{
    let mut line = String::from_str("Please enter ");
    line.append(decimal_string(num_digits as u64).as_str());
    line.append(" unique digits!");
    line
}

/// The welcome: the rules of the game for secrets of `num_digits` digits.
pub fn welcome(num_digits: usize) -> (text: String)
    ensures
        text@ == welcome_text(num_digits as nat),
{
    let count = decimal_string(num_digits as u64);
    let mut text = String::from_str("Welcome to Bulls and Cows!\n");
    text.append("The goal of the game is to guess a number with ");
    text.append(count.as_str());
    text.append(" unique digits correctly in the\n");
    text.append("least number of steps. Valid digits are from 0 to 9 inclusive. Bulls are digits\n");
    text.append("you guess correctly, and Cows are digits that are correct but in wrong location.\n");
    text.append("Enter your guesses below as a contiguous ");
    text.append(count.as_str());
    text.append(" digit number with non-repeating digits.");
    text
}

/// The line that answers an entry in a game with secrets of `num_digits`
/// digits: a prompt, the score of the guess, or the congratulation.
pub fn reply_line(reply: &Reply, num_digits: usize) -> (line: String)
    ensures
        line@ == reply_text(*reply, num_digits as nat),
{
    match reply {
        Reply::NotANumber => length_prompt(num_digits),
        Reply::MalformedNumber => length_prompt(num_digits),
        Reply::NonUniqueDigits => unique_prompt(num_digits),
        Reply::Scored { digits, bulls, cows } => score_line(digits.as_slice(), *bulls, *cows),
        Reply::Won { moves } => win_line(*moves),
    }
}

/// A number written in decimal reads back as itself.
pub proof fn lemma_decimal_text_reads_back(number: nat)
    ensures
        is_decimal(decimal_text(number)),
        decimal_value(decimal_text(number)) == number,
    decreases number,
{
    let text = decimal_text(number);
    if number < 10 {
        assert(decimal_value(text.drop_last()) == 0);
    } else {
        lemma_decimal_text_reads_back(number / 10);
        assert(text.drop_last() =~= decimal_text(number / 10));
    }
}

} // verus!
