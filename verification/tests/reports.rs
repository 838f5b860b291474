use bulls_and_cows::report::{
    decimal_string, length_prompt, move_noun, reply_line, score_line, unique_prompt, welcome,
    win_line,
};
use bulls_and_cows::session::Reply;

#[test]
fn numbers_are_written_in_decimal() {
    assert_eq!(decimal_string(0), "0");
    assert_eq!(decimal_string(7), "7");
    assert_eq!(decimal_string(10), "10");
    assert_eq!(decimal_string(1234567890), "1234567890");
    assert_eq!(decimal_string(u64::MAX), "18446744073709551615");
}

#[test]
fn score_line_shows_digits_and_score() {
    assert_eq!(score_line(&[1, 3, 2, 5], 1, 2), "      1 3 2 5 has 1b 2c");
    assert_eq!(score_line(&[4, 3, 2, 1], 0, 4), "      4 3 2 1 has 0b 4c");
    assert_eq!(score_line(&[], 0, 0), "      has 0b 0c");
}

#[test]
fn win_line_counts_one_move_in_the_singular() {
    assert_eq!(win_line(1), "Congratulations! You won in 1 move!");
    assert_eq!(win_line(2), "Congratulations! You won in 2 moves!");
    assert_eq!(win_line(12), "Congratulations! You won in 12 moves!");
    assert_eq!(move_noun(1), "move");
    assert_eq!(move_noun(2), "moves");
    assert_eq!(move_noun(0), "moves");
}

#[test]
fn prompts_name_the_digit_count() {
    assert_eq!(length_prompt(4), "Please enter a 4 digit number!");
    assert_eq!(unique_prompt(4), "Please enter 4 unique digits!");
    assert_eq!(length_prompt(5), "Please enter a 5 digit number!");
}

#[test]
fn welcome_tells_the_rules() {
    let text = welcome(4);
    let lines: Vec<&str> = text.lines().collect();
    assert_eq!(lines.len(), 5);
    assert_eq!(lines[0], "Welcome to Bulls and Cows!");
    assert_eq!(
        lines[1],
        "The goal of the game is to guess a number with 4 unique digits correctly in the"
    );
    assert_eq!(
        lines[2],
        "least number of steps. Valid digits are from 0 to 9 inclusive. Bulls are digits"
    );
    assert_eq!(
        lines[3],
        "you guess correctly, and Cows are digits that are correct but in wrong location."
    );
    assert_eq!(
        lines[4],
        "Enter your guesses below as a contiguous 4 digit number with non-repeating digits."
    );
}

#[test]
fn each_reply_has_its_line() {
    assert_eq!(reply_line(&Reply::NotANumber, 4), "Please enter a 4 digit number!");
    assert_eq!(reply_line(&Reply::MalformedNumber, 4), "Please enter a 4 digit number!");
    assert_eq!(reply_line(&Reply::NonUniqueDigits, 4), "Please enter 4 unique digits!");
    assert_eq!(
        reply_line(&Reply::Scored { digits: vec![1, 3, 2, 5], bulls: 1, cows: 2 }, 4),
        "      1 3 2 5 has 1b 2c"
    );
    assert_eq!(reply_line(&Reply::Won { moves: 3 }, 4), "Congratulations! You won in 3 moves!");
}
