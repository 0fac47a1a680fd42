//! Draws from the thread-local generator of `rand`.
use rand::seq::SliceRandom;
use rand::Rng;
use vstd::prelude::*;

verus! {

/// Relies on `rand::Rng::gen_range` on the thread generator: for a non-empty
/// range `0..n` it returns some value in that range.
#[verifier::external_body]
pub(crate) fn random_below(n: u128) -> (r: u128)
    requires
        n > 0,
    ensures
        r < n,
{
    rand::thread_rng().gen_range(0..n)
}

/// Relies on `rand::seq::SliceRandom::choose` on the thread generator: one
/// element of the slice, or `None` where the slice is empty.
#[verifier::external_body]
pub(crate) fn choose_cell(cells: &[(usize, usize)]) -> (r: Option<(usize, usize)>)
    ensures
        r is Some <==> cells@.len() > 0,
        r matches Some(c) ==> cells@.contains(c),
{
    cells.choose(&mut rand::thread_rng()).copied()
}

/// A uniformly drawn index below `n`.
pub fn random_index(n: usize) -> (r: usize)
    requires
        n > 0,
    ensures
        r < n,
{
    random_below(n as u128) as usize
}

/// A uniformly drawn bit, 0 or 1.
pub fn random_bit() -> (r: u8)
    ensures
        r <= 1,
{
    random_below(2) as u8
}

} // verus!
