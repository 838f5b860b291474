//! One game from the first entry to the winning one.
//!
//! A session holds the secret and the count of moves. Each entry of the
//! player is answered by a reply, and only a valid guess that does not win
//! counts as a move. Reading the entries and showing the replies is left to
//! the caller.
//!
//! The contracts speak of a session through its view and of its course
//! through `step` and `run`; the laws at the end say how the moves are
//! counted.

use crate::digits::{
    all_decimal, as_numbers, lemma_as_numbers_distinct, lemma_as_numbers_injective,
};
use crate::entry::{entry_of, read_entry};
use crate::score::{
    bulls, count_bulls, count_cows, cows, lemma_all_bulls_is_secret,
    lemma_correct_with_distinct_target,
};
use crate::secret::{dealt, gen_unique_rand_digits, valid_draws, GenerateError};
use crate::split::{
    byte_digits, digit_at, digits_of, lemma_byte_digits_are_digits, lemma_overlong_shows,
    place_value, proper_digits,
};
use crate::validate::{guess_digits, validate, ValidationError};
use vstd::prelude::*;

verus! {

/// What an entry leads to.
#[derive(Clone, Copy, Debug, PartialEq, Eq, Structural)]
pub enum Outcome {
    /// The entry was no number.
    NotANumber,
    /// The number has too many digits: some digit of its split is above 9.
    MalformedNumber,
    /// The number repeats a digit.
    NonUniqueDigits,
    /// A valid guess that is not the secret. It counts as a move.
    Scored,
    /// The guess is the secret.
    Won,
}

/// The answer to one entry.
#[derive(Debug, PartialEq, Eq)]
pub enum Reply {
    /// The entry was no number.
    NotANumber,
    /// The number has too many digits.
    MalformedNumber,
    /// The number repeats a digit.
    NonUniqueDigits,
    /// The digits of a valid guess that did not win, with its score.
    Scored { digits: Vec<u8>, bulls: usize, cows: usize },
    /// The guess was the secret; `moves` counts it and the valid guesses before it.
    Won { moves: u64 },
}

impl Reply {
    /// The kind of this reply.
    pub open spec fn outcome(self) -> Outcome {
        match self {
            Reply::NotANumber => Outcome::NotANumber,
            Reply::MalformedNumber => Outcome::MalformedNumber,
            Reply::NonUniqueDigits => Outcome::NonUniqueDigits,
            Reply::Scored { .. } => Outcome::Scored,
            Reply::Won { .. } => Outcome::Won,
        }
    }
}

/// A session as the contracts see it.
pub ghost struct SessionView {
    /// The digits to be guessed.
    pub secret: Seq<u8>,
    /// One more than the valid guesses made so far that did not win.
    pub moves: nat,
    /// The secret has been guessed: the session is over.
    pub won: bool,
}

/// A row of digits that can be a secret: decimal digits, none of them twice.
pub open spec fn is_secret(row: Seq<u8>) -> bool {
    all_decimal(row) && row.no_duplicates()
}

/// The session at its start: no guess made, the first move ahead.
pub open spec fn opening(secret: Seq<u8>) -> SessionView {
    SessionView { secret, moves: 1, won: false }
}

/// What `entry` leads to in a game for `secret`. The number is split into as
/// many digits as the secret has; it wins with a bull at every position.
pub open spec fn outcome_of(secret: Seq<u8>, entry: Option<u16>) -> Outcome {
    match entry {
        None => Outcome::NotANumber,
        Some(number) => {
            let size = secret.len();
            if !proper_digits(number as nat, size) {
                Outcome::MalformedNumber
            } else if !digits_of(number as nat, size).no_duplicates() {
                Outcome::NonUniqueDigits
            } else if bulls(byte_digits(number as nat, size), secret) == size {
                Outcome::Won
            } else {
                Outcome::Scored
            }
        },
    }
}

/// The session after `entry`. A session that is won stays as it is.
pub open spec fn step(state: SessionView, entry: Option<u16>) -> SessionView {
    if state.won {
        state
    } else {
        match outcome_of(state.secret, entry) {
            Outcome::Scored => SessionView { moves: state.moves + 1, ..state },
            Outcome::Won => SessionView { won: true, ..state },
            _ => state,
        }
    }
}

/// The session after all of `entries`, in their order.
pub open spec fn run(state: SessionView, entries: Seq<Option<u16>>) -> SessionView
    decreases entries.len(),
{
    if entries.len() == 0 {
        state
    } else {
        step(run(state, entries.drop_last()), entries.last())
    }
}

/// How many of `entries` are valid guesses that do not win.
pub open spec fn scored_guesses(secret: Seq<u8>, entries: Seq<Option<u16>>) -> nat
    decreases entries.len(),
{
    if entries.len() == 0 {
        0
    } else {
        scored_guesses(secret, entries.drop_last()) + if outcome_of(secret, entries.last())
            == Outcome::Scored {
            1nat
        } else {
            0nat
        }
    }
}

/// One game: the secret, the count of moves, and whether it is won.
pub struct Session {
    secret: Vec<u8>,
    moves: u64,
    won: bool,
}

impl View for Session {
    type V = SessionView;

    closed spec fn view(&self) -> SessionView {
        SessionView { secret: self.secret@, moves: self.moves as nat, won: self.won }
    }
}

impl Session {
    #[verifier::type_invariant]
    spec fn well_formed(self) -> bool {
        is_secret(self.secret@) && self.moves >= 1
    }

    /// Starts a session for a given secret. A secret with an element above 9
    /// or with a repeated digit is refused.
    pub fn new(secret: Vec<u8>) -> (res: Result<Session, ValidationError>)
        ensures
            match res {
                Ok(session) => is_secret(secret@) && session@ == opening(secret@),
                Err(ValidationError::MalformedNumber) => !all_decimal(secret@),
                Err(ValidationError::NonUniqueDigits) => all_decimal(secret@)
                    && !secret@.no_duplicates(),
            },
    {
        match validate(secret.as_slice()) {
            Ok(_) => Ok(Session { secret, moves: 1, won: false }),
            Err(e) => Err(e),
        }
    }

    /// Starts a session for a random secret of `num_digits` digits. Ten
    /// digits or more are refused.
    pub fn start(num_digits: usize) -> (res: Result<Session, GenerateError>)
        ensures
            match res {
                Ok(session) => {
                    &&& num_digits < 10
                    &&& session@.secret.len() == num_digits
                    &&& is_secret(session@.secret)
                    &&& session@ == opening(session@.secret)
                    &&& exists|draws: Seq<usize>|
                        draws.len() == num_digits && valid_draws(draws) && session@.secret
                            == #[trigger] dealt(draws)
                },
                Err(e) => num_digits >= 10 && e == GenerateError::InvalidArgument,
            },
    {
        match gen_unique_rand_digits(num_digits) {
            Ok(secret) => Ok(Session { secret, moves: 1, won: false }),
            Err(e) => Err(e),
        }
    }

    /// The secret of this session.
    pub fn secret(&self) -> (secret: &Vec<u8>)
        ensures
            secret@ == self@.secret,
            is_secret(secret@),
    {
        proof {
            use_type_invariant(self);
        }
        &self.secret
    }

    /// How many digits a guess must have.
    pub fn num_digits(&self) -> (count: usize)
        ensures
            count == self@.secret.len(),
    {
        self.secret.len()
    }

    /// The number of the move that is ahead or, once the session is won, of
    /// the move that won it.
    pub fn moves(&self) -> (moves: u64)
        ensures
            moves == self@.moves,
            moves >= 1,
    {
        proof {
            use_type_invariant(self);
        }
        self.moves
    }

    /// Whether the secret has been guessed.
    pub fn is_won(&self) -> (won: bool)
        ensures
            won == self@.won,
    {
        self.won
    }

    /// Answers one entry: `None` for a line that held no number, else the
    /// number. A valid guess is scored; if it is the secret the session is
    /// won and the reply tells the count of moves, and if not, one more move
    /// is counted. Any other entry leaves the session as it was.
    pub fn guess(&mut self, entry: Option<u16>) -> (reply: Reply)
        requires
            !old(self)@.won,
            old(self)@.moves < u64::MAX,
        ensures
            final(self)@ == step(old(self)@, entry),
            reply.outcome() == outcome_of(old(self)@.secret, entry),
            reply matches Reply::Scored { digits, bulls: b, cows: c } ==> {
                &&& entry is Some
                &&& digits@ == byte_digits(entry->0 as nat, old(self)@.secret.len())
                &&& b == bulls(digits@, old(self)@.secret)
                &&& c == cows(digits@, old(self)@.secret)
            },
            reply matches Reply::Won { moves } ==> moves == old(self)@.moves,
    {
        proof {
            use_type_invariant(&*self);
        }
        let number: u16 = match entry {
            None => {
                return Reply::NotANumber;
            },
            Some(number) => number,
        };
        let size: usize = self.secret.len();
        let digits: Vec<u8> = match guess_digits(number, size) {
            Err(ValidationError::MalformedNumber) => {
                return Reply::MalformedNumber;
            },
            Err(ValidationError::NonUniqueDigits) => {
                return Reply::NonUniqueDigits;
            },
            Ok(digits) => digits,
        };
        proof {
            lemma_correct_with_distinct_target(digits@, self.secret@);
        }
        let bulls: usize = count_bulls(digits.as_slice(), self.secret.as_slice());
        let cows: usize = count_cows(digits.as_slice(), self.secret.as_slice());
        if bulls == size {
            self.won = true;
            Reply::Won { moves: self.moves }
        } else {
            self.moves = self.moves + 1;
            Reply::Scored { digits, bulls, cows }
        }
    }

    /// Answers one line of input: the line is read as a number and then
    /// answered as `guess` answers it.
    pub fn enter(&mut self, line: &str) -> (reply: Reply)
        requires
            !old(self)@.won,
            old(self)@.moves < u64::MAX,
        ensures
            final(self)@ == step(old(self)@, entry_of(line@)),
            reply.outcome() == outcome_of(old(self)@.secret, entry_of(line@)),
            reply matches Reply::Scored { digits, bulls: b, cows: c } ==> {
                &&& entry_of(line@) is Some
                &&& digits@ == byte_digits(entry_of(line@)->0 as nat, old(self)@.secret.len())
                &&& b == bulls(digits@, old(self)@.secret)
                &&& c == cows(digits@, old(self)@.secret)
            },
            reply matches Reply::Won { moves } ==> moves == old(self)@.moves,
    {
        let entry = read_entry(line);
        self.guess(entry)
    }
}

/// An entry never lowers the count of moves, raises it by one at most, and
/// never changes the secret; a session that is won stays won.
pub proof fn lemma_step_counts_up(state: SessionView, entry: Option<u16>)
    ensures
        step(state, entry).secret == state.secret,
        state.moves <= step(state, entry).moves <= state.moves + 1,
        step(state, entry).moves == state.moves + 1 <==> !state.won && outcome_of(
            state.secret,
            entry,
        ) == Outcome::Scored,
        state.won ==> step(state, entry) == state,
        step(state, entry).won <==> state.won || outcome_of(state.secret, entry) == Outcome::Won,
{
}

/// The count of moves never goes down in the course of a session, and the
/// secret stays the same.
pub proof fn lemma_run_counts_up(state: SessionView, entries: Seq<Option<u16>>)
    ensures
        run(state, entries).secret == state.secret,
        run(state, entries).moves >= state.moves,
        state.won ==> run(state, entries) == state,
    decreases entries.len(),
{
    if entries.len() > 0 {
        lemma_run_counts_up(state, entries.drop_last());
        lemma_step_counts_up(run(state, entries.drop_last()), entries.last());
    }
}

/// As long as nobody has won, the count of moves is one more than the valid
/// guesses made: it starts at 1 and only a scored guess raises it.
pub proof fn lemma_moves_before_win(secret: Seq<u8>, entries: Seq<Option<u16>>)
    requires
        forall|i: int| 0 <= i < entries.len() ==> outcome_of(secret, #[trigger] entries[i])
            != Outcome::Won,
    ensures
        run(opening(secret), entries) == (SessionView {
            secret,
            moves: 1 + scored_guesses(secret, entries),
            won: false,
        }),
    decreases entries.len(),
{
    if entries.len() > 0 {
        lemma_moves_before_win(secret, entries.drop_last());
    }
}

/// The count of moves at the win: when entry number `at` is the first that
/// wins, the session is won from then on, whatever is entered later, and its
/// count of moves is that of the valid guesses before the win and the winning
/// guess itself.
pub proof fn lemma_moves_at_win(secret: Seq<u8>, entries: Seq<Option<u16>>, at: int)
    requires
        0 <= at < entries.len(),
        outcome_of(secret, entries[at]) == Outcome::Won,
        forall|i: int| 0 <= i < at ==> outcome_of(secret, #[trigger] entries[i]) != Outcome::Won,
    ensures
        run(opening(secret), entries) == (SessionView {
            secret,
            moves: scored_guesses(secret, entries.take(at)) + 1,
            won: true,
        }),
    decreases entries.len(),
{
    let before = entries.drop_last();
    if at == entries.len() - 1 {
        assert(before =~= entries.take(at));
        lemma_moves_before_win(secret, before);
    } else {
        assert(before.take(at) =~= entries.take(at));
        lemma_moves_at_win(secret, before, at);
    }
}

/// A number is refused as malformed exactly when it has more digits than the
/// secret: when it is ten to the power of the secret's length, or more.
pub proof fn lemma_malformed_is_overlong(secret: Seq<u8>, number: u16)
    requires
        secret.len() >= 1,
    ensures
        outcome_of(secret, Some(number)) == Outcome::MalformedNumber <==> number >= place_value(
            secret.len(),
        ),
{
    lemma_overlong_shows(number as nat, secret.len());
}

/// A number wins exactly when its digits are the secret.
pub proof fn lemma_won_is_secret(secret: Seq<u8>, number: u16)
    requires
        is_secret(secret),
    ensures
        outcome_of(secret, Some(number)) == Outcome::Won <==> digits_of(
            number as nat,
            secret.len(),
        ) == as_numbers(secret),
{
    let size = secret.len();
    let value = number as nat;
    let digits = digits_of(value, size);
    let bytes = byte_digits(value, size);
    lemma_as_numbers_distinct(secret);
    if digits == as_numbers(secret) {
        assert forall|k: int| 0 <= k < size implies #[trigger] digit_at(value, size, k) <= 9 by {
            assert(digits[k] == as_numbers(secret)[k]);
        }
    }
    if proper_digits(value, size) {
        lemma_byte_digits_are_digits(value, size);
        lemma_all_bulls_is_secret(bytes, secret);
        if digits == as_numbers(secret) {
            lemma_as_numbers_injective(bytes, secret);
        }
    }
}

} // verus!
