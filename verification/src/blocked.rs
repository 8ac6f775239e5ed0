//! The cache-blocked sieve: the range is taken in segments of a fixed
//! capacity, and one bitmap of that capacity is used again for each.

use vstd::prelude::*;
use crate::arith::integer_sqrt;
use crate::bitmap::{bits_fill, bits_get, bits_repeat, max_bits};
use crate::marking::{
    lemma_sieved_after_mark, lemma_sieved_is_prime, lemma_sieved_skip, mark_multiples, marked,
    marks, sieved,
};
use crate::primes::{
    floor_sqrt, ints, is_prime, lemma_floor_sqrt, lemma_ints_push, lemma_primes_between,
    lemma_primes_between_gap, lemma_primes_between_next, lemma_survivor_is_prime, no_primes,
    primes_between, primes_upto, survives,
};

verus! {

/// The number of bits in one segment: eight for each byte of the capacity,
/// but no more than the `max + 1` numbers there are.
pub open spec fn segment_bits(max: int, bytes: int) -> int {
    if 8 * bytes < max + 1 {
        8 * bytes
    } else {
        max + 1
    }
}

/// The number of bits in one segment, see [`segment_bits`]. A capacity
/// whose bit count exceeds the machine's integers exceeds `max + 1` too.
pub fn segment_capacity(max: usize, bitvec_size: usize) -> (capacity: usize)
    requires
        max < usize::MAX,
    ensures
        capacity == segment_bits(max as int, bitvec_size as int),
{
    match bitvec_size.checked_mul(8) {
        Some(fast_capacity) => {
            if fast_capacity < max + 1 {
                fast_capacity
            } else {
                max + 1
            }
        },
        None => max + 1,
    }
}

/// The primes up to and including `max`, in ascending order, found segment
/// by segment with a bitmap of `bitvec_size` bytes.
///
/// For each segment the bitmap is set anew and the multiples of the primes
/// discovered so far, up to the square root of `max`, are cleared. The scan
/// then goes on from where it stopped in the segment before: up to the
/// square root each number still set is recorded and marked with, beyond
/// it each number still set is recorded. The outcome does not depend on
/// `bitvec_size`.
pub fn cache_sized_soe(max: usize, bitvec_size: usize) -> (primes: Vec<usize>)
    requires
        max < max_bits(),
        bitvec_size > 0,
    ensures
        ints(primes@) == primes_upto(max as int),
{
    let capacity = segment_capacity(max, bitvec_size);
    let limit = integer_sqrt(max);
    let mut bits = bits_repeat(true, capacity);
    let mut primes: Vec<usize> = Vec::new();
    let mut num: usize = 2;
    let mut offset: usize = 0;
    proof {
        lemma_floor_sqrt(max as int);
        assert(primes_between(0, 2) =~= Seq::<int>::empty()) by {
            reveal_with_fuel(primes_between, 3);
        }
        assert(ints(primes@) =~= Seq::<int>::empty());
    }
    while offset <= max
        invariant
            max < max_bits(),
            1 <= capacity <= max + 1,
            bits@.len() == capacity,
            limit == floor_sqrt(max as int),
            limit <= max < (limit + 1) * (limit + 1),
            offset <= max + capacity,
            2 <= num,
            offset <= max ==> num >= offset && (num == offset || num == 2),
            offset > max ==> num >= max + 1 && (num == max + 1 || num == 2),
            ints(primes@) == primes_between(0, num as int),
        decreases max + capacity - offset,
    {
        bits_fill(&mut bits, true);
        let chunk_max = if offset + (capacity - 1) < max {
            offset + (capacity - 1)
        } else {
            max
        };
        let ghost live = (chunk_max - offset + 1) as int;
        let ghost entered = num;
        let ghost mut bound: int = 2;
        proof {
            assert forall|i: int| 0 <= i < live && offset + i >= 2 implies #[trigger] bits@.subrange(
                0,
                live,
            )[i] == survives(offset + i, 2) by {}
        }
        // The small primes discovered in earlier segments.
        let mut index: usize = 0;
        while index < primes.len() && primes[index] <= limit
            invariant
                index <= primes@.len(),
                bits@.len() == capacity,
                offset <= chunk_max <= max,
                live == chunk_max - offset + 1,
                live <= capacity,
                2 <= num,
                ints(primes@) == primes_between(0, num as int),
                bound == if index == 0 {
                    2
                } else {
                    primes@[index - 1] + 1
                },
                sieved(bits@.subrange(0, live), offset as int, bound),
            decreases primes@.len() - index,
        {
            let prime = primes[index];
            let ghost before = bits@;
            proof {
                lemma_primes_between(0, num as int);
                lemma_primes_between_gap(0, num as int, index as int);
                assert(ints(primes@)[index as int] == prime);
                if index > 0 {
                    assert(ints(primes@)[index - 1] == primes@[index - 1]);
                } else {
                    assert(no_primes(2, prime as int)) by {
                        assert forall|k: int| 2 <= k < prime implies !#[trigger] is_prime(k) by {
                            assert(0 <= k);
                        }
                    }
                }
                assert(is_prime(prime as int));
            }
            mark_multiples(&mut bits, prime, chunk_max, offset);
            proof {
                lemma_marked_live(before, bits@, prime as int, chunk_max as int, offset as int, live);
                lemma_sieved_after_mark(
                    before.subrange(0, live),
                    bits@.subrange(0, live),
                    offset as int,
                    bound,
                    prime as int,
                    chunk_max as int,
                );
                bound = prime + 1;
            }
            index += 1;
        }
        proof {
            // Sieving is complete below `num`, or beyond the square root.
            lemma_primes_between(0, num as int);
            lemma_primes_between_gap(0, num as int, index as int);
            if index > 0 {
                assert(ints(primes@)[index - 1] == primes@[index - 1]);
            }
            if index < primes@.len() {
                assert(ints(primes@)[index as int] == primes@[index as int]);
            }
            let reached = if index < primes@.len() {
                primes@[index as int] as int
            } else {
                num as int
            };
            if index == 0 {
                assert(no_primes(2, reached)) by {
                    assert forall|k: int| 2 <= k < reached implies !#[trigger] is_prime(k) by {
                        assert(0 <= k);
                    }
                }
            }
            assert(bound <= reached) by {
                if index > 0 && index < primes@.len() {
                    assert(ints(primes@)[index - 1] < ints(primes@)[index as int]);
                }
            }
            lemma_sieved_skip(bits@.subrange(0, live), offset as int, bound, reached);
            bound = reached;
        }
        // Up to the square root: record and mark.
        while num <= limit && num <= chunk_max
            invariant
                max < max_bits(),
                bits@.len() == capacity,
                offset <= chunk_max <= max,
                live == chunk_max - offset + 1,
                live <= capacity,
                limit <= max,
                2 <= entered <= num,
                offset <= entered,
                num <= chunk_max + 1 || num == entered,
                ints(primes@) == primes_between(0, num as int),
                bound == num || (bound > limit && num > limit),
                sieved(bits@.subrange(0, live), offset as int, bound),
            decreases limit + 1 - num,
        {
            let ghost before = bits@;
            let ghost found = primes@;
            proof {
                assert(before.subrange(0, live)[num - offset] == survives(num as int, num as int));
                lemma_primes_between_next(0, num as int);
            }
            if bits_get(&bits, num - offset) {
                primes.push(num);
                mark_multiples(&mut bits, num, chunk_max, offset);
                proof {
                    lemma_survivor_is_prime(num as int, num as int);
                    lemma_ints_push(found, num);
                    lemma_marked_live(before, bits@, num as int, chunk_max as int, offset as int, live);
                    lemma_sieved_after_mark(
                        before.subrange(0, live),
                        bits@.subrange(0, live),
                        offset as int,
                        num as int,
                        num as int,
                        chunk_max as int,
                    );
                }
            } else {
                proof {
                    assert(!is_prime(num as int));
                    assert(no_primes(num as int, num + 1));
                    lemma_sieved_skip(bits@.subrange(0, live), offset as int, num as int, num + 1);
                }
            }
            num += 1;
            proof {
                bound = num as int;
            }
        }
        proof {
            if num > limit {
                assert(offset + live <= bound * bound) by (nonlinear_arith)
                    requires
                        offset + live <= max + 1,
                        max < (limit + 1) * (limit + 1),
                        bound >= limit + 1,
                        limit >= 0,
                ;
                lemma_sieved_is_prime(bits@.subrange(0, live), offset as int, bound);
            }
        }
        // Beyond the square root: record only.
        while num <= max && num <= chunk_max
            invariant
                max < max_bits(),
                bits@.len() == capacity,
                offset <= chunk_max <= max,
                live == chunk_max - offset + 1,
                live <= capacity,
                2 <= entered <= num,
                offset <= entered,
                num <= chunk_max + 1 || num == entered,
                num > limit || num > chunk_max,
                ints(primes@) == primes_between(0, num as int),
                num > limit ==> forall|i: int|
                    0 <= i < live && offset + i >= 2 ==> #[trigger] bits@.subrange(0, live)[i]
                        == is_prime(offset + i),
            decreases max + 1 - num,
        {
            let ghost found = primes@;
            proof {
                assert(bits@.subrange(0, live)[num - offset] == is_prime(num as int));
                lemma_primes_between_next(0, num as int);
            }
            if bits_get(&bits, num - offset) {
                primes.push(num);
                proof {
                    lemma_ints_push(found, num);
                }
            }
            num += 1;
        }
        offset += capacity;
    }
    proof {
        if num != max + 1 {
            assert(primes_between(0, max + 1) =~= Seq::<int>::empty()) by {
                reveal_with_fuel(primes_between, 3);
            }
        }
    }
    primes
}

/// Marking in a bitmap marks in each leading part of it that the segment
/// covers.
proof fn lemma_marked_live(
    before: Seq<bool>,
    after: Seq<bool>,
    number: int,
    max: int,
    offset: int,
    live: int,
)
    requires
        marked(before, after, number, max, offset),
        0 <= live <= before.len(),
    ensures
        marked(before.subrange(0, live), after.subrange(0, live), number, max, offset),
{
    assert forall|i: int| 0 <= i < live implies #[trigger] after.subrange(0, live)[i] == (
    before.subrange(0, live)[i] && !marks(number, max, offset + i)) by {
        assert(after[i] == (before[i] && !marks(number, max, offset + i)));
    }
}

} // verus!
