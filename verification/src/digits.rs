//! Rows of decimal digits: the vocabulary that the other modules share.

use vstd::prelude::*;

verus! {

/// Every element of `row` is a decimal digit, 0 to 9.
pub open spec fn all_decimal(row: Seq<u8>) -> bool {
    forall|i: int| 0 <= i < row.len() ==> #[trigger] row[i] <= 9
}

/// The digits of `row` as numbers.
pub open spec fn as_numbers(row: Seq<u8>) -> Seq<nat> {
    row.map_values(|d: u8| d as nat)
}

/// Two rows that hold the same numbers are the same row.
pub proof fn lemma_as_numbers_injective(a: Seq<u8>, b: Seq<u8>)
    requires
        as_numbers(a) == as_numbers(b),
    ensures
        a == b,
{
    assert(a.len() == as_numbers(a).len());
    assert(b.len() == as_numbers(b).len());
    assert forall|i: int| 0 <= i < a.len() implies a[i] == b[i] by {
        assert(as_numbers(a)[i] == a[i] as nat);
        assert(as_numbers(b)[i] == b[i] as nat);
    }
}

/// A row repeats a digit exactly when its numbers repeat one.
pub proof fn lemma_as_numbers_distinct(row: Seq<u8>)
    ensures
        as_numbers(row).no_duplicates() <==> row.no_duplicates(),
{
    let numbers = as_numbers(row);
    if numbers.no_duplicates() {
        assert forall|i: int, j: int|
            0 <= i < row.len() && 0 <= j < row.len() && i != j implies row[i] != row[j] by {
            assert(numbers[i] == row[i] as nat && numbers[j] == row[j] as nat);
        }
    }
}

} // verus!
