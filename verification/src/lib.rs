//! Bulls and Cows: the rules of the digit-guessing game, verified.
//!
//! A secret is a short sequence of distinct decimal digits. Each guess is a
//! number that is split into digits, checked, and scored against the secret:
//! a bull is a digit in the right place, a cow a digit of the secret in the
//! wrong place. The game is won by a guess with a bull at every place.
//!
//! - `secret` deals the secret by a partial shuffle of the ten digits.
//! - `entry` reads a line of input as a number.
//! - `split` splits a number into digits, and `validate` checks them.
//! - `score` counts bulls and cows.
//! - `session` is one game: it answers each entry and counts the moves.
//! - `report` builds the lines that the game shows.
//! - `digits` holds what the modules share.

pub mod digits;
pub mod entry;
pub mod report;
pub mod score;
pub mod secret;
pub mod session;
pub mod split;
pub mod validate;
