//! The randomized part of the treap: fresh priorities.

use vstd::prelude::*;

verus! {

/// Relies on rand::random: a value drawn from the thread-local generator.
/// Nothing is assumed about which value comes back; every proof in the
/// crate holds for all priorities.
pub assume_specification<T>[ rand::random::<T> ]() -> (r: T)
    where
        rand::distributions::Standard: rand::distributions::Distribution<T>,
;

} // verus!
