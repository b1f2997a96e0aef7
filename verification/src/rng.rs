use vstd::prelude::*;

verus! {

/// Relies on rand::seq::index::sample: it returns exactly `amount`
/// distinct indices drawn from 0..length, and panics when `amount`
/// exceeds `length`.  Nothing more is promised of a random draw.
#[verifier::external_body]
pub(crate) fn sample_indices(length: usize, amount: usize) -> (r: Vec<usize>)
    requires
        amount <= length,
    ensures
        r@.len() == amount,
        forall|i: int| 0 <= i < r@.len() ==> (#[trigger] r@[i]) < length,
        forall|i: int, j: int| 0 <= i < j < r@.len() ==> r@[i] != r@[j],
{
    let mut rng = rand::rng();
    rand::seq::index::sample(&mut rng, length, amount).into_vec()
}

} // verus!
