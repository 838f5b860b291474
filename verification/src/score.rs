//! Scoring a guess against a secret.
//!
//! The counts are defined on sequences of any length and with any content;
//! the laws at the end say what they mean once one of the two sequences has
//! no repeated digit.

use vstd::prelude::*;

verus! {

/// How many of the first `n` positions hold the same digit in `guess` and in `target`.
pub open spec fn bulls_upto(guess: Seq<u8>, target: Seq<u8>, n: int) -> nat
    decreases n,
{
    if n <= 0 {
        0
    } else {
        bulls_upto(guess, target, n - 1) + if guess[n - 1] == target[n - 1] {
            1nat
        } else {
            0nat
        }
    }
}

/// The number of positions that both sequences have.
pub open spec fn common_len(guess: Seq<u8>, target: Seq<u8>) -> int {
    if guess.len() <= target.len() {
        guess.len() as int
    } else {
        target.len() as int
    }
}

/// Bulls: the positions at which `guess` and `target` agree. A position that
/// only the longer sequence has counts for nothing.
pub open spec fn bulls(guess: Seq<u8>, target: Seq<u8>) -> nat {
    bulls_upto(guess, target, common_len(guess, target))
}

/// How often `digit` occurs in `target`.
pub open spec fn occurrences(digit: u8, target: Seq<u8>) -> nat
    decreases target.len(),
{
    if target.len() == 0 {
        0
    } else {
        occurrences(digit, target.drop_last()) + if target.last() == digit {
            1nat
        } else {
            0nat
        }
    }
}

/// The pairs of a position in `guess` and a position in `target` that hold
/// the same digit: each digit of the guess counts once for every time it
/// occurs in the target.
pub open spec fn correct(guess: Seq<u8>, target: Seq<u8>) -> nat
    decreases guess.len(),
{
    if guess.len() == 0 {
        0
    } else {
        correct(guess.drop_last(), target) + occurrences(guess.last(), target)
    }
}

/// Cows: the matching pairs that are no bulls. With no digit repeated in one
/// of the two sequences these are the digits of the guess that stand at
/// another place in the target.
pub open spec fn cows(guess: Seq<u8>, target: Seq<u8>) -> nat {
    (correct(guess, target) - bulls(guess, target)) as nat
}

/// The digit at position `i` of the guess is a cow: it stands in the target,
/// but not at position `i`.
pub open spec fn is_cow(guess: Seq<u8>, target: Seq<u8>, i: int) -> bool {
    target.contains(guess[i]) && !(i < target.len() && guess[i] == target[i])
}

/// How many of the first `n` digits of the guess are cows.
pub open spec fn cows_upto(guess: Seq<u8>, target: Seq<u8>, n: int) -> nat
    decreases n,
{
    if n <= 0 {
        0
    } else {
        cows_upto(guess, target, n - 1) + if is_cow(guess, target, n - 1) {
            1nat
        } else {
            0nat
        }
    }
}

/// The result of scoring one guess.
#[derive(Clone, Copy, Debug, PartialEq, Eq, Structural)]
pub struct Score {
    /// Digits of the guess that stand at the same place in the secret.
    pub bulls: usize,
    /// Digits of the guess that stand at another place in the secret.
    pub cows: usize,
}

/// Counts the digits of `guess` that stand at the same place in `target`.
pub fn count_bulls(guess: &[u8], target: &[u8]) -> (count: usize)
    ensures
        count == bulls(guess@, target@),
        count <= guess.len(),
        count <= target.len(),
{
    let n: usize = if guess.len() <= target.len() {
        guess.len()
    } else {
        target.len()
    };
    let mut count: usize = 0;
    let mut i: usize = 0;
    while i < n
        invariant
            i <= n,
            n == common_len(guess@, target@),
            count == bulls_upto(guess@, target@, i as int),
            count <= i,
        decreases n - i,
    {
        if guess[i] == target[i] {
            count = count + 1;
        }
        i = i + 1;
    }
    count
}

/// Counts the pairs of a digit of `guess` and an equal digit of `target`,
/// wherever the two stand. The count must fit in a `usize`.
pub fn count_correct(guess: &[u8], target: &[u8]) -> (count: usize)
    requires
        correct(guess@, target@) <= usize::MAX,
    ensures
        count == correct(guess@, target@),
{
    let glen: usize = guess.len();
    let tlen: usize = target.len();
    let mut count: usize = 0;
    let mut i: usize = 0;
    while i < glen
        invariant
            i <= glen,
            glen == guess.len(),
            tlen == target.len(),
            correct(guess@, target@) <= usize::MAX,
            count == correct(guess@.take(i as int), target@),
        decreases glen - i,
    {
        let ghost before: nat = count as nat;
        let mut j: usize = 0;
        while j < tlen
            invariant
                i < glen,
                j <= tlen,
                glen == guess.len(),
                tlen == target.len(),
                correct(guess@, target@) <= usize::MAX,
                before == correct(guess@.take(i as int), target@),
                count == before + occurrences(guess[i as int], target@.take(j as int)),
            decreases tlen - j,
        {
            proof {
                lemma_occurrences_step(guess[i as int], target@, j as int);
                lemma_occurrences_of_front(guess[i as int], target@, j as int + 1);
                lemma_correct_step(guess@, target@, i as int);
                lemma_correct_of_front(guess@, target@, i as int + 1);
            }
            if guess[i] == target[j] {
                count = count + 1;
            }
            j = j + 1;
        }
        proof {
            assert(target@.take(tlen as int) =~= target@);
            lemma_correct_step(guess@, target@, i as int);
        }
        i = i + 1;
    }
    proof {
        assert(guess@.take(glen as int) =~= guess@);
    }
    count
}

/// Counts the digits of `guess` that stand in `target` at another place: the
/// matching pairs less the bulls. The count of the pairs must fit in a `usize`.
pub fn count_cows(guess: &[u8], target: &[u8]) -> (count: usize)
    requires
        correct(guess@, target@) <= usize::MAX,
    ensures
        count == cows(guess@, target@),
        count == correct(guess@, target@) - bulls(guess@, target@),
{
    proof {
        lemma_bulls_at_most_correct(guess@, target@);
    }
    count_correct(guess, target) - count_bulls(guess, target)
}

/// Scores `guess` against `secret`: the bulls and the cows. The count of the
/// matching pairs must fit in a `usize`. The score depends on the digits of
/// the two rows and on nothing else. Where the rows are of one length and one
/// of them repeats no digit, bulls and cows together are at most that length.
pub fn score(guess: &[u8], secret: &[u8]) -> (result: Score)
    requires
        correct(guess@, secret@) <= usize::MAX,
    ensures
        result.bulls == bulls(guess@, secret@),
        result.cows == cows(guess@, secret@),
        result.bulls + result.cows == correct(guess@, secret@),
        result.bulls <= guess.len(),
        result.bulls <= secret.len(),
        guess.len() == secret.len() && (guess@.no_duplicates() || secret@.no_duplicates())
            ==> result.bulls + result.cows <= secret.len(),
        guess.len() == secret.len() ==> (result.bulls == secret.len() <==> guess@ == secret@),
{
    proof {
        lemma_bulls_at_most_correct(guess@, secret@);
        if guess.len() == secret.len() {
            lemma_all_bulls_is_secret(guess@, secret@);
            if guess@.no_duplicates() || secret@.no_duplicates() {
                lemma_score_bounds(guess@, secret@);
            }
        }
    }
    Score { bulls: count_bulls(guess, secret), cows: count_cows(guess, secret) }
}

/// One more element of the target adds one occurrence if it is the digit.
proof fn lemma_occurrences_step(digit: u8, target: Seq<u8>, j: int)
    requires
        0 <= j < target.len(),
    ensures
        occurrences(digit, target.take(j + 1)) == occurrences(digit, target.take(j)) + if target[j]
            == digit {
            1nat
        } else {
            0nat
        },
{
    assert(target.take(j + 1).drop_last() =~= target.take(j));
}

/// One more element of the guess adds its occurrences in the target.
proof fn lemma_correct_step(guess: Seq<u8>, target: Seq<u8>, i: int)
    requires
        0 <= i < guess.len(),
    ensures
        correct(guess.take(i + 1), target) == correct(guess.take(i), target) + occurrences(
            guess[i],
            target,
        ),
{
    assert(guess.take(i + 1).drop_last() =~= guess.take(i));
}

/// A digit occurs in a sequence at most as often as the sequence is long.
pub proof fn lemma_occurrences_at_most_len(digit: u8, target: Seq<u8>)
    ensures
        occurrences(digit, target) <= target.len(),
    decreases target.len(),
{
    if target.len() > 0 {
        lemma_occurrences_at_most_len(digit, target.drop_last());
    }
}

/// A digit that stands somewhere in a sequence occurs in it at least once.
pub proof fn lemma_element_occurs(target: Seq<u8>, j: int)
    requires
        0 <= j < target.len(),
    ensures
        occurrences(target[j], target) >= 1,
    decreases target.len(),
{
    if j < target.len() - 1 {
        lemma_element_occurs(target.drop_last(), j);
    }
}

/// A digit that does not stand in a sequence occurs in it zero times, and the
/// other way round.
pub proof fn lemma_occurrences_zero(digit: u8, target: Seq<u8>)
    ensures
        occurrences(digit, target) == 0 <==> !target.contains(digit),
    decreases target.len(),
{
    if target.len() > 0 {
        let front = target.drop_last();
        lemma_occurrences_zero(digit, front);
        if target.last() == digit {
            assert(target[target.len() - 1] == digit);
        } else if front.contains(digit) {
            let j = choose|j: int| 0 <= j < front.len() && front[j] == digit;
            assert(target[j] == digit);
        } else if target.contains(digit) {
            let j = choose|j: int| 0 <= j < target.len() && target[j] == digit;
            assert(front[j] == digit);
        }
    }
}

/// In a sequence without repeated digits a digit occurs once if it stands in
/// the sequence, and else not at all.
pub proof fn lemma_occurrences_in_distinct(digit: u8, target: Seq<u8>)
    requires
        target.no_duplicates(),
    ensures
        occurrences(digit, target) == if target.contains(digit) {
            1nat
        } else {
            0nat
        },
    decreases target.len(),
{
    if target.len() > 0 {
        let front = target.drop_last();
        assert(front.no_duplicates()) by {
            assert forall|a: int, b: int|
                0 <= a < front.len() && 0 <= b < front.len() && a != b implies front[a]
                != front[b] by {
                assert(front[a] == target[a] && front[b] == target[b]);
            }
        }
        lemma_occurrences_in_distinct(digit, front);
        lemma_occurrences_zero(digit, front);
        lemma_occurrences_zero(digit, target);
        if target.last() == digit {
            if front.contains(digit) {
                let j = choose|j: int| 0 <= j < front.len() && front[j] == digit;
                assert(target[j] == target[target.len() - 1]);
            }
        }
    }
}

/// The matching pairs of a front part of the guess are among those of the
/// whole guess.
proof fn lemma_correct_of_front(guess: Seq<u8>, target: Seq<u8>, n: int)
    requires
        0 <= n <= guess.len(),
    ensures
        correct(guess.take(n), target) <= correct(guess, target),
    decreases guess.len(),
{
    if n == guess.len() {
        assert(guess.take(n) =~= guess);
    } else {
        assert(guess.drop_last().take(n) =~= guess.take(n));
        lemma_correct_of_front(guess.drop_last(), target, n);
    }
}

/// Every bull among the first `n` positions is a matching pair of the first
/// `n` digits of the guess.
proof fn lemma_bulls_upto_at_most_correct(guess: Seq<u8>, target: Seq<u8>, n: int)
    requires
        0 <= n <= common_len(guess, target),
    ensures
        bulls_upto(guess, target, n) <= correct(guess.take(n), target),
        bulls_upto(guess, target, n) <= n,
    decreases n,
{
    if n > 0 {
        lemma_bulls_upto_at_most_correct(guess, target, n - 1);
        lemma_correct_step(guess, target, n - 1);
        if guess[n - 1] == target[n - 1] {
            lemma_element_occurs(target, n - 1);
        }
    }
}

/// Every bull is also a matching pair, so the cows are never negative; and
/// there are no more bulls than positions.
pub proof fn lemma_bulls_at_most_correct(guess: Seq<u8>, target: Seq<u8>)
    ensures
        bulls(guess, target) <= correct(guess, target),
        bulls(guess, target) <= guess.len(),
        bulls(guess, target) <= target.len(),
        bulls(guess, target) + cows(guess, target) == correct(guess, target),
{
    let n = common_len(guess, target);
    lemma_bulls_upto_at_most_correct(guess, target, n);
    lemma_correct_of_front(guess, target, n);
}

/// A digit occurs in a front part of a sequence at most as often as in the
/// whole sequence.
proof fn lemma_occurrences_of_front(digit: u8, target: Seq<u8>, n: int)
    requires
        0 <= n <= target.len(),
    ensures
        occurrences(digit, target.take(n)) <= occurrences(digit, target),
    decreases target.len(),
{
    if n == target.len() {
        assert(target.take(n) =~= target);
    } else {
        assert(target.drop_last().take(n) =~= target.take(n));
        lemma_occurrences_of_front(digit, target.drop_last(), n);
    }
}

/// There are at most as many matching pairs as pairs: the count fits in a
/// `usize` whenever the product of the two lengths does.
pub proof fn lemma_correct_at_most_product(guess: Seq<u8>, target: Seq<u8>)
    ensures
        correct(guess, target) <= guess.len() * target.len(),
    decreases guess.len(),
{
    if guess.len() > 0 {
        lemma_correct_at_most_product(guess.drop_last(), target);
        lemma_occurrences_at_most_len(guess.last(), target);
        assert((guess.len() - 1) * target.len() + target.len() == guess.len() * target.len())
            by (nonlinear_arith);
    }
}

/// Nothing matches an empty target.
proof fn lemma_correct_of_empty_target(guess: Seq<u8>)
    ensures
        correct(guess, Seq::<u8>::empty()) == 0,
    decreases guess.len(),
{
    if guess.len() > 0 {
        lemma_correct_of_empty_target(guess.drop_last());
    }
}

/// One more digit at the end of the target adds the pairs that it forms with
/// the digits of the guess.
proof fn lemma_correct_of_longer_target(guess: Seq<u8>, target: Seq<u8>, digit: u8)
    ensures
        correct(guess, target.push(digit)) == correct(guess, target) + occurrences(digit, guess),
    decreases guess.len(),
{
    if guess.len() > 0 {
        lemma_correct_of_longer_target(guess.drop_last(), target, digit);
        assert(target.push(digit).drop_last() =~= target);
    }
}

/// The matching pairs do not depend on which sequence is called the guess.
pub proof fn lemma_correct_symmetric(guess: Seq<u8>, target: Seq<u8>)
    ensures
        correct(guess, target) == correct(target, guess),
    decreases target.len(),
{
    if target.len() == 0 {
        assert(target =~= Seq::<u8>::empty());
        lemma_correct_of_empty_target(guess);
    } else {
        let front = target.drop_last();
        assert(front.push(target.last()) =~= target);
        lemma_correct_of_longer_target(guess, front, target.last());
        lemma_correct_symmetric(guess, front);
    }
}

/// With no digit repeated in the target, each digit of the guess matches at
/// most once: there are no more matching pairs than digits in the guess.
pub proof fn lemma_correct_with_distinct_target(guess: Seq<u8>, target: Seq<u8>)
    requires
        target.no_duplicates(),
    ensures
        correct(guess, target) <= guess.len(),
    decreases guess.len(),
{
    if guess.len() > 0 {
        lemma_correct_with_distinct_target(guess.drop_last(), target);
        lemma_occurrences_in_distinct(guess.last(), target);
    }
}

/// The bounds of a score. For a guess and a secret of the same length, one
/// of them without a repeated digit, the bulls are among the matching pairs,
/// and bulls and cows together are no more than the length.
pub proof fn lemma_score_bounds(guess: Seq<u8>, secret: Seq<u8>)
    requires
        guess.len() == secret.len(),
        guess.no_duplicates() || secret.no_duplicates(),
    ensures
        bulls(guess, secret) <= correct(guess, secret) <= secret.len(),
        bulls(guess, secret) + cows(guess, secret) <= secret.len(),
        bulls(guess, secret) + cows(guess, secret) == correct(guess, secret),
{
    lemma_bulls_at_most_correct(guess, secret);
    if secret.no_duplicates() {
        lemma_correct_with_distinct_target(guess, secret);
    } else {
        lemma_correct_symmetric(guess, secret);
        lemma_correct_with_distinct_target(secret, guess);
    }
}

/// The bulls among the first `n` positions are `n` exactly when the two
/// sequences agree at each of them.
proof fn lemma_all_bulls_upto(guess: Seq<u8>, target: Seq<u8>, n: int)
    requires
        0 <= n <= common_len(guess, target),
    ensures
        bulls_upto(guess, target, n) <= n,
        bulls_upto(guess, target, n) == n <==> forall|i: int| 0 <= i < n ==> guess[i] == target[i],
    decreases n,
{
    if n > 0 {
        lemma_all_bulls_upto(guess, target, n - 1);
    }
}

/// The winning score: a guess as long as the secret has a bull at every
/// position exactly when it is the secret.
pub proof fn lemma_all_bulls_is_secret(guess: Seq<u8>, secret: Seq<u8>)
    requires
        guess.len() == secret.len(),
    ensures
        bulls(guess, secret) == secret.len() <==> guess == secret,
{
    lemma_all_bulls_upto(guess, secret, secret.len() as int);
    if bulls(guess, secret) == secret.len() {
        assert(guess =~= secret);
    }
}

/// A winning guess has no cows, when the secret repeats no digit.
pub proof fn lemma_win_has_no_cows(secret: Seq<u8>)
    requires
        secret.no_duplicates(),
    ensures
        bulls(secret, secret) == secret.len(),
        cows(secret, secret) == 0,
{
    lemma_all_bulls_is_secret(secret, secret);
    lemma_score_bounds(secret, secret);
}

/// Among the first `n` digits of the guess, the matching pairs are the bulls
/// and the cows, when the target repeats no digit.
proof fn lemma_pairs_are_bulls_and_cows(guess: Seq<u8>, target: Seq<u8>, n: int)
    requires
        target.no_duplicates(),
        0 <= n <= common_len(guess, target),
    ensures
        correct(guess.take(n), target) == bulls_upto(guess, target, n) + cows_upto(
            guess,
            target,
            n,
        ),
    decreases n,
{
    if n > 0 {
        lemma_pairs_are_bulls_and_cows(guess, target, n - 1);
        lemma_correct_step(guess, target, n - 1);
        lemma_occurrences_in_distinct(guess[n - 1], target);
    }
}

/// What a cow is: for a guess as long as a secret without repeated digits,
/// the cows are the digits of the guess that stand in the secret at another
/// position.
pub proof fn lemma_cows_are_displaced_digits(guess: Seq<u8>, secret: Seq<u8>)
    requires
        guess.len() == secret.len(),
        secret.no_duplicates(),
    ensures
        cows(guess, secret) == cows_upto(guess, secret, guess.len() as int),
{
    lemma_pairs_are_bulls_and_cows(guess, secret, guess.len() as int);
    assert(guess.take(guess.len() as int) =~= guess);
}

} // verus!
