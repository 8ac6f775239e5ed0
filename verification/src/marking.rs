//! Marking the multiples of a number in one segment of the number line, and
//! what a segment's bitmap says once every number below a bound has been
//! sieved with.

use vstd::prelude::*;
use crate::arith::{lemma_div_ceil, usize_div_ceil};
use crate::bitmap::{bits_set, Bitmap};
use crate::primes::{
    divides, is_prime, lemma_divides_quotient, lemma_mark_from_square, lemma_multiples_gap,
    lemma_next_multiple, lemma_prime_survives, lemma_product_divides, lemma_survives_mark,
    lemma_survives_skip, lemma_survivor_beyond_root, no_primes, survives,
};

verus! {

/// The bitmap `bits`, whose position `i` stands for the number
/// `offset + i`, holds what sieving with every number below `bound` leaves:
/// from 2 on, a bit is set exactly where the number survives.
pub open spec fn sieved(bits: Seq<bool>, offset: int, bound: int) -> bool {
    forall|i: int|
        0 <= i < bits.len() && offset + i >= 2 ==> #[trigger] bits[i] == survives(
            offset + i,
            bound,
        )
}

/// Marking with `number` clears `k`: a multiple of `number`, at least twice
/// it, and no larger than `max`.
pub open spec fn marks(number: int, max: int, k: int) -> bool {
    divides(number, k) && 2 * number <= k <= max
}

/// `after` is `before` with the multiples of `number` cleared, from twice
/// `number` up to `max`; everything else is as it was.
pub open spec fn marked(
    before: Seq<bool>,
    after: Seq<bool>,
    number: int,
    max: int,
    offset: int,
) -> bool {
    &&& after.len() == before.len()
    &&& forall|i: int|
        0 <= i < before.len() ==> #[trigger] after[i] == (before[i] && !marks(
            number,
            max,
            offset + i,
        ))
}

/// Clearing the multiples of `p` from `p * p` on, in a bitmap sieved below
/// `p`, leaves it sieved below `p + 1`.
pub proof fn lemma_sieved_from_square(before: Seq<bool>, after: Seq<bool>, offset: int, p: int)
    requires
        p >= 2,
        sieved(before, offset, p),
        after.len() == before.len(),
        forall|i: int|
            0 <= i < before.len() ==> #[trigger] after[i] == (before[i] && !(divides(p, offset + i)
                && offset + i >= p * p)),
    ensures
        sieved(after, offset, p + 1),
{
    assert forall|i: int| 0 <= i < after.len() && offset + i >= 2 implies #[trigger] after[i]
        == survives(offset + i, p + 1) by {
        let k = offset + i;
        assert(before[i] == survives(k, p));
        lemma_survives_mark(k, p);
        if survives(k, p) {
            lemma_mark_from_square(k, p);
        }
    }
}

/// Clearing the multiples of `p` from `2 * p` on, in a bitmap sieved below
/// `bound` where no prime lies in `[bound, p)`, leaves it sieved below
/// `p + 1`.
pub proof fn lemma_sieved_after_mark(
    before: Seq<bool>,
    after: Seq<bool>,
    offset: int,
    bound: int,
    p: int,
    max: int,
)
    requires
        2 <= bound <= p,
        no_primes(bound, p),
        sieved(before, offset, bound),
        marked(before, after, p, max, offset),
        offset + before.len() <= max + 1,
    ensures
        sieved(after, offset, p + 1),
{
    assert forall|i: int| 0 <= i < after.len() && offset + i >= 2 implies #[trigger] after[i]
        == survives(offset + i, p + 1) by {
        let k = offset + i;
        assert(before[i] == survives(k, bound));
        assert(after[i] == (before[i] && !marks(p, max, k)));
        lemma_survives_mark(k, p);
        if survives(k, bound) {
            lemma_survives_skip(k, bound, p);
        }
        if survives(k, p + 1) {
        }
    }
}

/// A bitmap sieved below `bound` is also sieved below `later`, where no
/// prime lies in `[bound, later)`.
pub proof fn lemma_sieved_skip(bits: Seq<bool>, offset: int, bound: int, later: int)
    requires
        bound <= later,
        no_primes(bound, later),
        sieved(bits, offset, bound),
    ensures
        sieved(bits, offset, later),
{
    assert forall|i: int| 0 <= i < bits.len() && offset + i >= 2 implies #[trigger] bits[i]
        == survives(offset + i, later) by {
        let k = offset + i;
        assert(bits[i] == survives(k, bound));
        if survives(k, bound) {
            lemma_survives_skip(k, bound, later);
        }
        if survives(k, later) {
        }
    }
}

/// In a bitmap sieved beyond the square root of its last number, the set
/// bits from 2 on are exactly the primes.
pub proof fn lemma_sieved_is_prime(bits: Seq<bool>, offset: int, bound: int)
    requires
        0 <= bound,
        sieved(bits, offset, bound),
        offset + bits.len() <= bound * bound,
    ensures
        forall|i: int|
            0 <= i < bits.len() && offset + i >= 2 ==> #[trigger] bits[i] == is_prime(offset + i),
{
    assert forall|i: int| 0 <= i < bits.len() && offset + i >= 2 implies #[trigger] bits[i]
        == is_prime(offset + i) by {
        let k = offset + i;
        assert(bits[i] == survives(k, bound));
        if survives(k, bound) {
            lemma_survivor_beyond_root(k, bound);
        }
        if is_prime(k) {
            lemma_prime_survives(k, bound);
        }
    }
}

/// Clears, in the segment that starts at `offset` and ends with `max`, the
/// bit of every multiple of `number` from twice `number` on.
///
/// The first multiple cleared is `number` times the larger of 2 and the
/// rounded-up quotient of `offset` by `number`; a product or a sum beyond
/// the machine's integers ends the marking, since such a multiple lies
/// beyond `max` as well.
pub(crate) fn mark_multiples(bits: &mut Bitmap, number: usize, max: usize, offset: usize)
    requires
        number >= 1,
        max - offset < old(bits)@.len(),
    ensures
        marked(old(bits)@, final(bits)@, number as int, max as int, offset as int),
{
    let ghost before = bits@;
    let quotient = usize_div_ceil(offset, number);
    let factor = if quotient < 2 {
        2
    } else {
        quotient
    };
    proof {
        lemma_div_ceil(offset as int, number as int);
        // A multiple of `number` that is at least `offset` and at least twice
        // `number` is at least `number * factor`.
        assert forall|k: int| #[trigger]
            divides(number as int, k) && 2 * number <= k && offset <= k implies number * factor
            <= k by {
            lemma_divides_quotient(number as int, k);
            let a = k / (number as int);
            let q = quotient as int;
            let n = number as int;
            assert(a >= 2) by (nonlinear_arith)
                requires
                    k == n * a,
                    2 * n <= k,
                    n >= 1,
            ;
            assert(a >= q) by (nonlinear_arith)
                requires
                    k == n * a,
                    (q - 1) * n < offset,
                    offset <= k,
                    n >= 1,
            ;
            assert(n * factor <= n * a) by (nonlinear_arith)
                requires
                    factor <= a,
                    n >= 1,
            ;
        }
    }
    let first = match number.checked_mul(factor) {
        Some(product) => product,
        None => {
            assert(bits@ =~= before);
            return ;
        },
    };
    proof {
        lemma_product_divides(number as int, factor as int);
        assert(first >= 2 * number) by (nonlinear_arith)
            requires
                first == number * factor,
                factor >= 2,
                number >= 1,
        ;
        assert(first >= offset) by (nonlinear_arith)
            requires
                first == number * factor,
                factor >= quotient,
                offset <= quotient * number,
                number >= 1,
        ;
    }
    let mut multiple = first;
    while multiple <= max
        invariant_except_break
            forall|i: int|
                0 <= i < before.len() ==> #[trigger] bits@[i] == (before[i] && !(marks(
                    number as int,
                    max as int,
                    offset + i,
                ) && offset + i < multiple)),
        invariant
            number >= 1,
            max - offset < before.len(),
            bits@.len() == before.len(),
            divides(number as int, multiple as int),
            offset <= multiple,
            2 * number <= multiple,
            forall|k: int| #[trigger]
                divides(number as int, k) && 2 * number <= k && offset <= k ==> first <= k,
            first <= multiple,
        ensures
            marked(before, bits@, number as int, max as int, offset as int),
        decreases max + number - multiple,
    {
        let ghost current = bits@;
        bits_set(bits, multiple - offset, false);
        proof {
            assert forall|i: int| 0 <= i < before.len() implies #[trigger] bits@[i] == (before[i]
                && !(marks(number as int, max as int, offset + i) && offset + i < multiple
                + number)) by {
                let k = offset + i;
                assert(current[i] == (before[i] && !(marks(number as int, max as int, k) && k
                    < multiple)));
                if k != multiple && divides(number as int, k) && multiple < k {
                    lemma_multiples_gap(number as int, multiple as int, k);
                }
            }
        }
        match multiple.checked_add(number) {
            Some(next) => {
                proof {
                    lemma_next_multiple(number as int, multiple as int);
                }
                multiple = next;
            },
            None => {
                break ;
            },
        }
    }
}

} // verus!
