//! The secret: distinct digits dealt by a partial Fisher-Yates shuffle.
//!
//! The ten digits start in ascending order. Draw number `i` picks a place
//! from `i` to 9 and exchanges it with place `i`; after `n` draws the first
//! `n` places hold the secret. Which secret comes out is a function of the
//! draws alone, so the shuffle is specified and verified on the draws, and
//! the random generator only supplies them.

use crate::digits::all_decimal;
use rand::Rng;
use vstd::prelude::*;

verus! {

/// Why no secret was dealt.
#[derive(Clone, Copy, Debug, PartialEq, Eq, Structural)]
pub enum GenerateError {
    /// Ten or more digits were asked for.
    InvalidArgument,
    /// Some draw number `i` was not one of the places `i` to 9.
    DrawOutOfRange,
}

/// The ten digits in ascending order.
pub open spec fn ascending_digits() -> Seq<u8> {
    Seq::new(10, |k: int| k as u8)
}

/// `row` with the digits at places `i` and `j` exchanged.
pub open spec fn swapped(row: Seq<u8>, i: int, j: int) -> Seq<u8> {
    row.update(i, row[j]).update(j, row[i])
}

/// The row of ten digits after all of `draws`: draw number `i` exchanges
/// place `i` with place `draws[i]`.
pub open spec fn shuffled(draws: Seq<usize>) -> Seq<u8>
    decreases draws.len(),
{
    if draws.len() == 0 {
        ascending_digits()
    } else {
        swapped(shuffled(draws.drop_last()), draws.len() - 1, draws.last() as int)
    }
}

/// Fewer than ten draws, and draw number `i` is one of the places `i` to 9.
pub open spec fn valid_draws(draws: Seq<usize>) -> bool {
    &&& draws.len() < 10
    &&& forall|i: int| 0 <= i < draws.len() ==> i <= #[trigger] draws[i] < 10
}

/// The secret that `draws` deal: as many digits as there are draws, from the
/// front of the shuffled row.
pub open spec fn dealt(draws: Seq<usize>) -> Seq<u8> {
    shuffled(draws).take(draws.len() as int)
}

/// The generator that `rand` keeps for each thread. Its state is hidden.
#[verifier::external_type_specification]
#[verifier::external_body]
pub struct ExThreadRng(rand::rngs::ThreadRng);

/// `rand::thread_rng` hands out the calling thread's generator, which the
/// system seeds on first use; it panics only if the system cannot seed it.
/// Nothing is claimed of the generator.
pub assume_specification[ rand::thread_rng ]() -> (rng: rand::rngs::ThreadRng);

/// `rand::Rng::gen_range` on the thread's generator, for `usize`: the value it
/// returns is at least `low` and less than `high`. Which one it is depends on
/// the generator, and nothing more is claimed. The outside call panics unless
/// `low < high`.
#[verifier::external_body]
fn draw_between(rng: &mut rand::rngs::ThreadRng, low: usize, high: usize) -> (place: usize)
    requires
        low < high,
    ensures
        low <= place < high,
{
    rng.gen_range(low, high)
}

/// Exchanges the digits at places `i` and `j` of `row`.
fn exchange(row: &mut Vec<u8>, i: usize, j: usize)
    requires
        i < old(row).len(),
        j < old(row).len(),
    ensures
        final(row)@ == swapped(old(row)@, i as int, j as int),
{
    let at_i: u8 = row[i];
    let at_j: u8 = row[j];
    row[i] = at_j;
    row[j] = at_i;
}

/// The ten digits in ascending order, ready to be shuffled.
fn fresh_row() -> (row: Vec<u8>)
    ensures
        row@ == ascending_digits(),
{
    vec![0u8, 1, 2, 3, 4, 5, 6, 7, 8, 9]
}

/// Deals the secret that the given draws select, without any randomness.
/// Ten draws or more are refused, and so is a draw number `i` that is not a
/// place from `i` to 9. The secret has one digit for each draw, and its
/// digits are decimal and pairwise distinct.
pub fn digits_from_draws(draws: &[usize]) -> (res: Result<Vec<u8>, GenerateError>)
    ensures
        match res {
            Ok(secret) => {
                &&& valid_draws(draws@)
                &&& secret@ == dealt(draws@)
                &&& secret.len() == draws.len()
                &&& all_decimal(secret@)
                &&& secret@.no_duplicates()
            },
            Err(GenerateError::InvalidArgument) => draws.len() >= 10,
            Err(GenerateError::DrawOutOfRange) => draws.len() < 10 && !valid_draws(draws@),
        },
{
    let num: usize = draws.len();
    if num >= 10 {
        return Err(GenerateError::InvalidArgument);
    }
    let mut row = fresh_row();
    let mut i: usize = 0;
    while i < num
        invariant
            i <= num,
            num == draws.len(),
            num < 10,
            valid_draws(draws@.take(i as int)),
            row@ == shuffled(draws@.take(i as int)),
            row.len() == 10,
        decreases num - i,
    {
        let place: usize = draws[i];
        if place < i || place >= 10 {
            return Err(GenerateError::DrawOutOfRange);
        }
        exchange(&mut row, i, place);
        proof {
            let done = draws@.take(i as int + 1);
            assert(done.drop_last() =~= draws@.take(i as int));
            assert forall|k: int| 0 <= k < done.len() implies k <= #[trigger] done[k] < 10 by {
                if k < i {
                    assert(draws@.take(i as int)[k] == done[k]);
                }
            }
        }
        i = i + 1;
    }
    row.truncate(num);
    proof {
        assert(draws@.take(num as int) =~= draws@);
        lemma_dealt_distinct_digits(draws@);
    }
    Ok(row)
}

/// Deals a secret of `num` distinct digits at random: draw number `i` is a
/// random place from `i` to 9, so that every arrangement of `num` distinct
/// digits is dealt by exactly one run of draws. Ten digits or more are refused.
pub fn gen_unique_rand_digits(num: usize) -> (res: Result<Vec<u8>, GenerateError>)
    ensures
        match res {
            Ok(secret) => {
                &&& num < 10
                &&& secret.len() == num
                &&& all_decimal(secret@)
                &&& secret@.no_duplicates()
                &&& exists|draws: Seq<usize>|
                    draws.len() == num && valid_draws(draws) && secret@ == #[trigger] dealt(draws)
            },
            Err(e) => num >= 10 && e == GenerateError::InvalidArgument,
        },
{
    if num >= 10 {
        return Err(GenerateError::InvalidArgument);
    }
    let mut row = fresh_row();
    let mut rng = rand::thread_rng();
    let ghost mut draws: Seq<usize> = Seq::empty();
    let mut i: usize = 0;
    while i < num
        invariant
            i <= num,
            num < 10,
            draws.len() == i,
            valid_draws(draws),
            row@ == shuffled(draws),
            row.len() == 10,
        decreases num - i,
    {
        let place: usize = draw_between(&mut rng, i, 10);
        if place != i {
            exchange(&mut row, place, i);
        }
        proof {
            let before = draws;
            draws = draws.push(place);
            assert(draws.drop_last() =~= before);
            assert(swapped(shuffled(before), place as int, i as int) =~= swapped(
                shuffled(before),
                i as int,
                place as int,
            ));
        }
        i = i + 1;
    }
    row.truncate(num);
    proof {
        lemma_dealt_distinct_digits(draws);
    }
    Ok(row)
}

/// A front part of valid draws is valid.
proof fn lemma_front_draws_valid(draws: Seq<usize>, n: int)
    requires
        valid_draws(draws),
        0 <= n <= draws.len(),
    ensures
        valid_draws(draws.take(n)),
{
}

/// Valid draws only rearrange the ten digits: the row keeps its length, holds
/// decimal digits, and holds none twice.
pub proof fn lemma_shuffled_rearranges(draws: Seq<usize>)
    requires
        valid_draws(draws),
    ensures
        shuffled(draws).len() == 10,
        all_decimal(shuffled(draws)),
        shuffled(draws).no_duplicates(),
    decreases draws.len(),
{
    if draws.len() > 0 {
        let before = draws.drop_last();
        lemma_front_draws_valid(draws, draws.len() - 1);
        lemma_shuffled_rearranges(before);
        assert(draws.len() - 1 <= draws[draws.len() - 1] < 10);
    }
}

/// A secret dealt by valid draws has one digit for each draw, and its digits
/// are decimal and pairwise distinct.
pub proof fn lemma_dealt_distinct_digits(draws: Seq<usize>)
    requires
        valid_draws(draws),
    ensures
        dealt(draws).len() == draws.len(),
        all_decimal(dealt(draws)),
        dealt(draws).no_duplicates(),
{
    lemma_shuffled_rearranges(draws);
}

/// Draw number `i` settles place `i`: the draws after it leave that place
/// alone, so the secret holds at place `i` what the row held at the drawn
/// place just before.
proof fn lemma_place_settled(draws: Seq<usize>, i: int)
    requires
        valid_draws(draws),
        0 <= i < draws.len(),
    ensures
        shuffled(draws)[i] == shuffled(draws.take(i))[draws[i] as int],
    decreases draws.len(),
{
    let before = draws.drop_last();
    lemma_front_draws_valid(draws, draws.len() - 1);
    lemma_shuffled_rearranges(before);
    if i < draws.len() - 1 {
        assert(before.take(i) =~= draws.take(i));
        lemma_place_settled(before, i);
    }
}

/// Valid draws keep every decimal digit in the row.
proof fn lemma_shuffled_keeps_digit(draws: Seq<usize>, digit: u8)
    requires
        valid_draws(draws),
        digit <= 9,
    ensures
        shuffled(draws).contains(digit),
    decreases draws.len(),
{
    if draws.len() == 0 {
        assert(ascending_digits()[digit as int] == digit);
    } else {
        let before = draws.drop_last();
        lemma_front_draws_valid(draws, draws.len() - 1);
        lemma_shuffled_keeps_digit(before, digit);
        lemma_shuffled_rearranges(before);
        let row = shuffled(before);
        let i = draws.len() - 1;
        let j = draws.last() as int;
        let q = choose|q: int| 0 <= q < row.len() && row[q] == digit;
        let moved = if q == i {
            j
        } else if q == j {
            i
        } else {
            q
        };
        assert(swapped(row, i, j)[moved] == digit);
    }
}

/// Two runs of valid draws that deal the same secret agree on their first
/// `n` draws.
proof fn lemma_same_front(a: Seq<usize>, b: Seq<usize>, n: int)
    requires
        valid_draws(a),
        valid_draws(b),
        a.len() == b.len(),
        dealt(a) == dealt(b),
        0 <= n <= a.len(),
    ensures
        a.take(n) == b.take(n),
    decreases n,
{
    if n == 0 {
        assert(a.take(0) =~= b.take(0));
    } else {
        let i = n - 1;
        lemma_same_front(a, b, i);
        lemma_place_settled(a, i);
        lemma_place_settled(b, i);
        lemma_front_draws_valid(a, i);
        lemma_shuffled_rearranges(a.take(i));
        lemma_shuffled_rearranges(a);
        lemma_shuffled_rearranges(b);
        let row = shuffled(a.take(i));
        assert(dealt(a)[i] == shuffled(a)[i]);
        assert(dealt(b)[i] == shuffled(b)[i]);
        assert(i <= a[i] < 10 && i <= b[i] < 10);
        assert(row[a[i] as int] == row[b[i] as int]);
        assert(a[i] == b[i]);
        assert(a.take(n) =~= a.take(i).push(a[i]));
        assert(b.take(n) =~= b.take(i).push(b[i]));
    }
}

/// Different draws deal different secrets: two runs of valid draws that deal
/// the same secret are the same run.
pub proof fn lemma_dealt_injective(a: Seq<usize>, b: Seq<usize>)
    requires
        valid_draws(a),
        valid_draws(b),
        dealt(a) == dealt(b),
    ensures
        a == b,
{
    lemma_shuffled_rearranges(a);
    lemma_shuffled_rearranges(b);
    assert(a.len() == dealt(a).len());
    assert(b.len() == dealt(b).len());
    lemma_same_front(a, b, a.len() as int);
    assert(a.take(a.len() as int) =~= a);
    assert(b.take(b.len() as int) =~= b);
}

/// Every secret can be dealt: for each row of fewer than ten distinct decimal
/// digits there are valid draws that deal it. The draws are returned.
pub proof fn lemma_every_secret_dealt(row: Seq<u8>) -> (draws: Seq<usize>)
    requires
        row.len() < 10,
        all_decimal(row),
        row.no_duplicates(),
    ensures
        valid_draws(draws),
        draws.len() == row.len(),
        dealt(draws) == row,
    decreases row.len(),
{
    if row.len() == 0 {
        Seq::<usize>::empty()
    } else {
        let front = row.drop_last();
        let i = row.len() - 1;
        let before = lemma_every_secret_dealt(front);
        lemma_shuffled_rearranges(before);
        let shelf = shuffled(before);
        lemma_shuffled_keeps_digit(before, row[i]);
        let place = choose|q: int| 0 <= q < shelf.len() && shelf[q] == row[i];
        if place < i {
            assert(dealt(before)[place] == shelf[place]);
            assert(front[place] == row[place]);
        }
        let draws = before.push(place as usize);
        assert(draws.drop_last() =~= before);
        assert forall|k: int| 0 <= k < row.len() implies dealt(draws)[k] == row[k] by {
            if k < i {
                assert(dealt(before)[k] == shelf[k]);
                assert(front[k] == row[k]);
            }
        }
        draws
    }
}

} // verus!
