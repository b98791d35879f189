//! Randomness for the annealer, drawn from the process-global generator of the
//! `rand` crate. Nothing is promised of the drawn values beyond their range,
//! so everything proved downstream holds for every outcome.
use vstd::prelude::*;

use crate::event::Event;
use rand::seq::SliceRandom;

verus! {

/// Relies on rand::random_range: a value uniform in `0..n`; the range is
/// non-empty, so the call cannot panic.
#[verifier::external_body]
pub fn sample_below(n: usize) -> (r: usize)
    requires
        n >= 1,
    ensures
        r < n,
{
    rand::random_range(0..n)
}

/// Relies on rand::seq::SliceRandom::shuffle: permutes the row in place, so
/// the multiset of events is unchanged.
#[verifier::external_body]
pub fn shuffle_events(row: &mut Vec<Event>)
    ensures
        final(row)@.len() == old(row)@.len(),
        final(row)@.to_multiset() == old(row)@.to_multiset(),
{
    row.shuffle(&mut rand::rng())
}

} // verus!
