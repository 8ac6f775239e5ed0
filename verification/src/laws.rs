//! What holds of the sieves taken together, each stated over the lists that
//! their contracts speak of and proved from those contracts.

use vstd::prelude::*;
use crate::coordinator::{joined_shares, lemma_shares_join};
use crate::primes::{
    floor_sqrt, ints, is_prime, lemma_ints_injective, lemma_primes_between, primes_between,
    primes_upto,
};

verus! {

/// The list of primes up to `max` holds primes only, none above `max`; it
/// ascends strictly, so nothing occurs twice; and it misses no prime up to
/// `max`.
pub proof fn lemma_primes_upto(max: int)
    ensures
        forall|i: int|
            0 <= i < primes_upto(max).len() ==> is_prime(#[trigger] primes_upto(max)[i])
                && primes_upto(max)[i] <= max,
        forall|i: int, j: int|
            0 <= i < j < primes_upto(max).len() ==> #[trigger] primes_upto(max)[i]
                < #[trigger] primes_upto(max)[j],
        forall|p: int| #[trigger] is_prime(p) && p <= max ==> primes_upto(max).contains(p),
{
    lemma_primes_between(0, max + 1);
}

/// The three strategies agree: whatever the single-pass sieve, the
/// partitioned workers and the cache-blocked sieve return for one bound is
/// one and the same list.
pub proof fn lemma_strategies_agree(
    simple: Seq<usize>,
    threaded: Seq<usize>,
    blocked: Seq<usize>,
    max: int,
)
    requires
        ints(simple) == primes_upto(max),
        ints(threaded) == primes_upto(max),
        ints(blocked) == primes_upto(max),
    ensures
        simple == threaded,
        threaded == blocked,
{
    lemma_ints_injective(simple, threaded);
    lemma_ints_injective(threaded, blocked);
}

/// A sieve is determined by its bound: two runs on one bound return the
/// same list, entry for entry, whatever else differed between them.
pub proof fn lemma_outcome_determined(first: Seq<usize>, second: Seq<usize>, max: int)
    requires
        ints(first) == primes_upto(max),
        ints(second) == primes_upto(max),
    ensures
        first == second,
{
    lemma_ints_injective(first, second);
}

/// Joined in ascending order of their segments, the workers' final lists
/// continue the primes discovered during the rounds to the full list of
/// primes up to `max`: ascending throughout, nothing twice, nothing
/// missing.
pub proof fn lemma_partition_joins(max: int, parts: int)
    requires
        0 <= max,
        1 <= parts,
    ensures
        primes_between(0, floor_sqrt(max) + 1) + joined_shares(max, parts, parts) == primes_upto(
            max,
        ),
        forall|i: int, j: int|
            0 <= i < j < joined_shares(max, parts, parts).len() ==> #[trigger] joined_shares(
                max,
                parts,
                parts,
            )[i] < #[trigger] joined_shares(max, parts, parts)[j],
{
    lemma_shares_join(max, parts);
    lemma_primes_upto(max);
    let head = primes_between(0, floor_sqrt(max) + 1);
    let tail = joined_shares(max, parts, parts);
    let all = primes_upto(max);
    assert forall|i: int, j: int| 0 <= i < j < tail.len() implies #[trigger] tail[i]
        < #[trigger] tail[j] by {
        assert(all[head.len() + i] == tail[i]);
        assert(all[head.len() + j] == tail[j]);
    }
}

/// The number of workers does not show in the outcome: any number of them,
/// also one that leaves most with an empty segment, gives what a single
/// worker gives.
pub proof fn lemma_worker_count_irrelevant(max: int, parts: int)
    requires
        0 <= max,
        1 <= parts,
    ensures
        primes_between(0, floor_sqrt(max) + 1) + joined_shares(max, parts, parts)
            == primes_between(0, floor_sqrt(max) + 1) + joined_shares(max, 1, 1),
{
    lemma_shares_join(max, parts);
    lemma_shares_join(max, 1);
}

/// The segment capacity does not show in the outcome of the cache-blocked
/// sieve: runs on one bound with two capacities return the same list.
pub proof fn lemma_capacity_irrelevant(
    with_one: Seq<usize>,
    with_other: Seq<usize>,
    max: int,
    one_capacity: int,
    other_capacity: int,
)
    requires
        one_capacity > 0,
        other_capacity > 0,
        ints(with_one) == primes_upto(max),
        ints(with_other) == primes_upto(max),
    ensures
        with_one == with_other,
{
    lemma_ints_injective(with_one, with_other);
}

} // verus!
