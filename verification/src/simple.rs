//! The single-pass sieve: one bitmap over the whole range.

use vstd::prelude::*;
use crate::arith::integer_sqrt;
use crate::bitmap::{bits_get, bits_repeat, bits_set, max_bits};
use crate::marking::{lemma_sieved_from_square, lemma_sieved_is_prime, lemma_sieved_skip, sieved};
use crate::primes::{
    divides, ints, is_prime, lemma_ints_push, lemma_multiples_gap,
    lemma_next_multiple, lemma_product_divides, lemma_survivor_is_prime, no_primes,
    primes_between, primes_upto, survives,
};

verus! {

/// The primes up to and including `max`, in ascending order.
///
/// One bitmap covers `[0, max]`. Each number up to the square root of `max`
/// that is still set is a prime, and its multiples are cleared from its
/// square on; what is still set after that is prime as well.
///
/// The bitmap needs `max + 1` bits, which must not exceed [`max_bits`].
pub fn simple_soe(max: usize) -> (primes: Vec<usize>)
    requires
        max < max_bits(),
    ensures
        ints(primes@) == primes_upto(max as int),
{
    let mut bits = bits_repeat(true, max + 1);
    bits_set(&mut bits, 0, false);
    if max >= 1 {
        bits_set(&mut bits, 1, false);
    }
    let limit = integer_sqrt(max);
    let mut primes: Vec<usize> = Vec::new();
    let mut num: usize = 2;
    proof {
        assert(primes_between(0, 2) =~= Seq::<int>::empty()) by {
            reveal_with_fuel(primes_between, 3);
        }
        assert(ints(primes@) =~= Seq::<int>::empty());
        assert(limit <= max) by (nonlinear_arith)
            requires
                limit * limit <= max,
        ;
    }
    while num <= limit
        invariant
            2 <= num,
            num <= limit + 1 || num == 2,
            limit <= max < max_bits(),
            limit * limit <= max < (limit + 1) * (limit + 1),
            bits@.len() == max + 1,
            sieved(bits@, 0, num as int),
            ints(primes@) == primes_between(0, num as int),
        decreases limit + 1 - num,
    {
        let ghost unmarked = bits@;
        let ghost found = primes@;
        if bits_get(&bits, num) {
            primes.push(num);
            proof {
                assert(unmarked[num as int] == survives(num as int, num as int));
                lemma_survivor_is_prime(num as int, num as int);
                lemma_ints_push(found, num);
                lemma_product_divides(num as int, num as int);
                assert(num * num <= max) by (nonlinear_arith)
                    requires
                        num <= limit,
                        limit * limit <= max,
                ;
            }
            let mut multiple: usize = num * num;
            while multiple <= max
                invariant
                    2 <= num <= limit <= max < max_bits(),
                    bits@.len() == unmarked.len() == max + 1,
                    divides(num as int, multiple as int),
                    num * num <= multiple <= max + num,
                    forall|i: int|
                        0 <= i < unmarked.len() ==> #[trigger] bits@[i] == (unmarked[i] && !(
                        divides(num as int, i) && i >= num * num && i < multiple)),
                decreases max + num - multiple,
            {
                let ghost current = bits@;
                bits_set(&mut bits, multiple, false);
                proof {
                    assert forall|i: int| 0 <= i < unmarked.len() implies #[trigger] bits@[i] == (
                    unmarked[i] && !(divides(num as int, i) && i >= num * num && i < multiple
                        + num)) by {
                        assert(current[i] == (unmarked[i] && !(divides(num as int, i) && i >= num
                            * num && i < multiple)));
                        if i != multiple && divides(num as int, i) && multiple < i {
                            lemma_multiples_gap(num as int, multiple as int, i);
                        }
                    }
                    lemma_next_multiple(num as int, multiple as int);
                }
                multiple += num;
            }
            proof {
                lemma_sieved_from_square(unmarked, bits@, 0, num as int);
            }
        } else {
            proof {
                assert(unmarked[num as int] == survives(num as int, num as int));
                assert(!is_prime(num as int));
                assert(no_primes(num as int, num + 1));
                lemma_sieved_skip(bits@, 0, num as int, num + 1);
            }
        }
        num += 1;
    }
    proof {
        assert(max + 1 <= num * num) by (nonlinear_arith)
            requires
                max < (limit + 1) * (limit + 1),
                num >= limit + 1,
                limit >= 0,
        ;
        lemma_sieved_is_prime(bits@, 0, num as int);
    }
    while num <= max
        invariant
            2 <= num,
            num <= max + 1 || num == 2,
            max < max_bits(),
            bits@.len() == max + 1,
            forall|i: int| 0 <= i < bits@.len() && i >= 2 ==> #[trigger] bits@[i] == is_prime(i),
            ints(primes@) == primes_between(0, num as int),
        decreases max + 1 - num,
    {
        let ghost found = primes@;
        if bits_get(&bits, num) {
            primes.push(num);
            proof {
                lemma_ints_push(found, num);
            }
        }
        num += 1;
    }
    proof {
        if num > max + 1 {
            // Only where `max` is below 2: nothing lies between.
            assert(primes_between(0, max + 1) =~= Seq::<int>::empty()) by {
                reveal_with_fuel(primes_between, 3);
            }
            assert(primes_between(0, 2) =~= Seq::<int>::empty()) by {
                reveal_with_fuel(primes_between, 3);
            }
        }
    }
    primes
}

} // verus!
