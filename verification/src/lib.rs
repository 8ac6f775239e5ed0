//! Sieves of Eratosthenes over packed bitmaps, with machine-checked contracts.
//!
//! Three strategies compute the primes up to a bound: a single pass over one
//! bitmap ([`simple_soe`]), a set of workers that each own a segment of the
//! range and are driven through rounds ([`basic_threaded_soe`]), and a pass
//! in segments of bounded size ([`cache_sized_soe`]). Each is proved to
//! return [`primes::primes_upto`] of its bound.

pub mod arith;
pub mod bitmap;
pub mod blocked;
pub mod coordinator;
pub mod entry;
pub mod laws;
pub mod marking;
pub mod partition;
pub mod primes;
pub mod simple;
pub mod worker;

pub use crate::arith::{integer_sqrt, usize_div_ceil};
pub use crate::blocked::{cache_sized_soe, segment_capacity};
pub use crate::coordinator::{assemble, basic_threaded_soe, round_minimum, run_rounds, Rounds};
pub use crate::entry::{
    bound_too_large, largest_prime, sieve_cache_blocked, sieve_simple, sieve_threaded, SieveError,
};
pub use crate::partition::{partition, Chunk};
pub use crate::simple::simple_soe;
pub use crate::worker::Worker;
