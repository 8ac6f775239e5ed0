//! The guarded entry points: they test what the sieves require of their
//! arguments, and refuse with an error what the sieves could not take.

use vstd::prelude::*;
use crate::bitmap::max_bits;
use crate::blocked::cache_sized_soe;
use crate::coordinator::basic_threaded_soe;
use crate::primes::{ints, primes_upto};
use crate::simple::simple_soe;

verus! {

/// Why a sieve was not run.
#[derive(Clone, Copy, Debug, PartialEq, Eq, Structural)]
pub enum SieveError {
    /// A worker count or a segment capacity of zero.
    InvalidInput,
    /// A bound whose bitmap would be longer than a bitmap can be.
    InputTooLarge,
}

/// Whether the bitmap over `[0, bound]` would be longer than a bitmap can
/// be.
pub fn bound_too_large(bound: usize) -> (too_large: bool)
    ensures
        too_large == (bound >= max_bits()),
{
    bound >= usize::MAX / 8
}

/// The primes up to and including `bound`, by the single-pass sieve; a
/// bound that is too large is refused.
pub fn sieve_simple(bound: usize) -> (result: Result<Vec<usize>, SieveError>)
    ensures
        match result {
            Ok(primes) => bound < max_bits() && ints(primes@) == primes_upto(bound as int),
            Err(error) => bound >= max_bits() && error == SieveError::InputTooLarge,
        },
{
    if bound_too_large(bound) {
        Err(SieveError::InputTooLarge)
    } else {
        Ok(simple_soe(bound))
    }
}

/// The primes up to and including `bound`, by `worker_count` partitioned
/// workers; no workers at all, or a bound that is too large, is refused.
pub fn sieve_threaded(bound: usize, worker_count: u8) -> (result: Result<Vec<usize>, SieveError>)
    ensures
        match result {
            Ok(primes) => worker_count >= 1 && bound < max_bits() && ints(primes@) == primes_upto(
                bound as int,
            ),
            Err(error) => if worker_count == 0 {
                error == SieveError::InvalidInput
            } else {
                bound >= max_bits() && error == SieveError::InputTooLarge
            },
        },
{
    if worker_count == 0 {
        Err(SieveError::InvalidInput)
    } else if bound_too_large(bound) {
        Err(SieveError::InputTooLarge)
    } else {
        Ok(basic_threaded_soe(bound, worker_count))
    }
}

/// The primes up to and including `bound`, by the cache-blocked sieve with
/// segments of `segment_capacity_bytes`; a capacity of zero, or a bound
/// that is too large, is refused.
pub fn sieve_cache_blocked(bound: usize, segment_capacity_bytes: usize) -> (result: Result<
    Vec<usize>,
    SieveError,
>)
    ensures
        match result {
            Ok(primes) => segment_capacity_bytes >= 1 && bound < max_bits() && ints(primes@)
                == primes_upto(bound as int),
            Err(error) => if segment_capacity_bytes == 0 {
                error == SieveError::InvalidInput
            } else {
                bound >= max_bits() && error == SieveError::InputTooLarge
            },
        },
{
    if segment_capacity_bytes == 0 {
        Err(SieveError::InvalidInput)
    } else if bound_too_large(bound) {
        Err(SieveError::InputTooLarge)
    } else {
        Ok(cache_sized_soe(bound, segment_capacity_bytes))
    }
}

/// The largest prime of an ascending list: its last entry, and `None` for
/// the empty list.
pub fn largest_prime(primes: &Vec<usize>) -> (largest: Option<usize>)
    ensures
        match largest {
            Some(prime) => primes@.len() > 0 && prime == primes@[primes@.len() - 1],
            None => primes@.len() == 0,
        },
{
    if primes.len() == 0 {
        None
    } else {
        Some(primes[primes.len() - 1])
    }
}

} // verus!
