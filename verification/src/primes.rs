//! What a prime is, what a sieve has established part-way through, and the
//! ascending list of primes that every sieve in this crate returns.

use vstd::prelude::*;
use vstd::arithmetic::div_mod::{lemma_fundamental_div_mod, lemma_mod_multiples_basic};

verus! {

/// `d` is a positive whole divisor of `n`.
pub open spec fn divides(d: int, n: int) -> bool {
    d > 0 && n % d == 0
}

/// `n` is at least 2 and no number strictly between 1 and `n` divides it.
pub open spec fn is_prime(n: int) -> bool {
    n >= 2 && forall|d: int| 2 <= d < n ==> !#[trigger] divides(d, n)
}

/// What a bitmap says of `k` once every number below `bound` has been
/// sieved with: `k` is at least 2 and has no proper divisor in
/// `[2, bound)`.
///
/// With `bound` at 2 this only separates 0 and 1 from the rest; with
/// `bound` at `k` it is primality.
pub open spec fn survives(k: int, bound: int) -> bool {
    k >= 2 && forall|d: int| 2 <= d < bound && d < k ==> !#[trigger] divides(d, k)
}

/// The primes `p` with `lo <= p < hi`, in ascending order.
pub open spec fn primes_between(lo: int, hi: int) -> Seq<int>
    decreases hi - lo,
{
    if hi <= lo {
        Seq::empty()
    } else if is_prime(hi - 1) {
        primes_between(lo, hi - 1).push(hi - 1)
    } else {
        primes_between(lo, hi - 1)
    }
}

/// The primes up to and including `n`, in ascending order.
pub open spec fn primes_upto(n: int) -> Seq<int> {
    primes_between(0, n + 1)
}

/// A list of machine integers read as mathematical integers.
pub open spec fn ints(s: Seq<usize>) -> Seq<int> {
    s.map_values(|x: usize| x as int)
}

/// No prime lies in `[lo, hi)`.
pub open spec fn no_primes(lo: int, hi: int) -> bool {
    forall|k: int| lo <= k < hi ==> !#[trigger] is_prime(k)
}

/// The largest `r` with `r * r <= n`, and 0 for a negative `n`.
pub open spec fn floor_sqrt(n: int) -> int
    decreases n,
{
    if n <= 0 {
        0
    } else {
        let r = floor_sqrt(n - 1);
        if (r + 1) * (r + 1) <= n {
            r + 1
        } else {
            r
        }
    }
}

/// A multiple of `d` is `d` times its quotient.
pub proof fn lemma_divides_quotient(d: int, n: int)
    requires
        divides(d, n),
    ensures
        n == d * (n / d),
{
    lemma_fundamental_div_mod(n, d);
}

/// Every product `d * q` is a multiple of `d`.
pub proof fn lemma_product_divides(d: int, q: int)
    requires
        d > 0,
    ensures
        divides(d, d * q),
{
    lemma_mod_multiples_basic(q, d);
    assert(d * q == q * d) by (nonlinear_arith);
}

/// Divisibility is transitive.
pub proof fn lemma_divides_transitive(a: int, b: int, c: int)
    requires
        divides(a, b),
        divides(b, c),
    ensures
        divides(a, c),
{
    lemma_divides_quotient(a, b);
    lemma_divides_quotient(b, c);
    let x = b / a;
    let y = c / b;
    assert(c == a * (x * y)) by (nonlinear_arith)
        requires
            b == a * x,
            c == b * y,
    ;
    lemma_product_divides(a, x * y);
}

/// Between two multiples of `d` there is a gap of at least `d`.
pub proof fn lemma_multiples_gap(d: int, m: int, k: int)
    requires
        divides(d, m),
        divides(d, k),
        m < k,
    ensures
        m + d <= k,
{
    lemma_divides_quotient(d, m);
    lemma_divides_quotient(d, k);
    let a = m / d;
    let b = k / d;
    assert(m + d <= k) by (nonlinear_arith)
        requires
            d > 0,
            m == d * a,
            k == d * b,
            m < k,
    ;
}

/// Adding `d` to a multiple of `d` gives a multiple of `d`.
pub proof fn lemma_next_multiple(d: int, m: int)
    requires
        divides(d, m),
    ensures
        divides(d, m + d),
{
    lemma_divides_quotient(d, m);
    let a = m / d;
    assert(m + d == d * (a + 1)) by (nonlinear_arith)
        requires
            m == d * a,
    ;
    lemma_product_divides(d, a + 1);
}

/// A proper divisor `d >= 2` of `k` has a cofactor `k / d` that is also a
/// proper divisor of `k`, at least 2.
pub proof fn lemma_cofactor(d: int, k: int)
    requires
        2 <= d < k,
        divides(d, k),
    ensures
        2 <= k / d < k,
        divides(k / d, k),
        k == d * (k / d),
{
    lemma_divides_quotient(d, k);
    let e = k / d;
    assert(2 <= e < k) by (nonlinear_arith)
        requires
            2 <= d < k,
            k == d * e,
    ;
    assert(k == e * d) by (nonlinear_arith)
        requires
            k == d * e,
    ;
    lemma_product_divides(e, d);
}

/// A prime survives sieving with anything.
pub proof fn lemma_prime_survives(k: int, bound: int)
    requires
        is_prime(k),
    ensures
        survives(k, bound),
{
}

/// A number that survives sieving with everything below itself is prime.
pub proof fn lemma_survivor_is_prime(k: int, bound: int)
    requires
        survives(k, bound),
        k <= bound,
    ensures
        is_prime(k),
{
}

/// Sieving with a composite `c` removes nothing that sieving with the
/// numbers below `c` has left.
pub proof fn lemma_survives_step(k: int, c: int)
    requires
        !is_prime(c),
        survives(k, c),
    ensures
        survives(k, c + 1),
{
    if 2 <= c < k && divides(c, k) {
        let d = choose|d: int| 2 <= d < c && #[trigger] divides(d, c);
        lemma_divides_transitive(d, c, k);
        assert(false);
    }
    assert forall|d: int| 2 <= d < c + 1 && d < k implies !#[trigger] divides(d, k) by {
        if d < c {
        }
    }
}

/// Where `[lo, hi)` holds no prime, what survives sieving below `lo` also
/// survives sieving below `hi`.
pub proof fn lemma_survives_skip(k: int, lo: int, hi: int)
    requires
        no_primes(lo, hi),
        survives(k, lo),
        lo <= hi,
    ensures
        survives(k, hi),
    decreases hi - lo,
{
    if lo < hi {
        lemma_survives_skip(k, lo, hi - 1);
        assert(!is_prime(hi - 1));
        lemma_survives_step(k, hi - 1);
    }
}

/// Sieving with `p` removes exactly the multiples of `p` from `2 * p` on.
pub proof fn lemma_survives_mark(k: int, p: int)
    requires
        p >= 2,
    ensures
        survives(k, p + 1) <==> (survives(k, p) && !(divides(p, k) && k >= 2 * p)),
{
    if divides(p, k) && p < k {
        assert(divides(p, p)) by {
            lemma_product_divides(p, 1);
        }
        lemma_multiples_gap(p, p, k);
    }
    if survives(k, p) && !(divides(p, k) && k >= 2 * p) {
        assert forall|d: int| 2 <= d < p + 1 && d < k implies !#[trigger] divides(d, k) by {
            if d < p {
            }
        }
    }
    if survives(k, p + 1) {
        assert(survives(k, p));
        if divides(p, k) && k >= 2 * p {
            assert(p < k);
            assert(false);
        }
    }
}

/// Among what survives sieving with `p`, the multiples of `p` from `2 * p`
/// on are the multiples of `p` from `p * p` on: the smaller ones have a
/// cofactor below `p` and are gone already.
pub proof fn lemma_mark_from_square(k: int, p: int)
    requires
        p >= 2,
        survives(k, p),
    ensures
        (divides(p, k) && k >= 2 * p) <==> (divides(p, k) && k >= p * p),
{
    if divides(p, k) && k >= 2 * p && k < p * p {
        lemma_cofactor(p, k);
        let e = k / p;
        assert(e < p) by (nonlinear_arith)
            requires
                k == p * e,
                k < p * p,
                p >= 2,
        ;
        assert(divides(e, k));
        assert(false);
    }
    if divides(p, k) && k >= p * p {
        assert(p * p >= 2 * p) by (nonlinear_arith)
            requires
                p >= 2,
        ;
    }
}

/// Once sieving has passed the square root of `k`, what survives is prime.
pub proof fn lemma_survivor_beyond_root(k: int, bound: int)
    requires
        survives(k, bound),
        0 <= bound,
        k < bound * bound,
    ensures
        is_prime(k),
{
    assert forall|d: int| 2 <= d < k implies !#[trigger] divides(d, k) by {
        if divides(d, k) {
            if d < bound {
                assert(false);
            } else {
                lemma_cofactor(d, k);
                let e = k / d;
                assert(e < bound) by (nonlinear_arith)
                    requires
                        k == d * e,
                        k < bound * bound,
                        d >= bound,
                        bound >= 0,
                        e >= 2,
                ;
                assert(divides(e, k));
                assert(false);
            }
        }
    }
}

/// `floor_sqrt(n)` is the one `r >= 0` with `r * r <= n < (r + 1) * (r + 1)`.
pub proof fn lemma_floor_sqrt(n: int)
    requires
        0 <= n,
    ensures
        0 <= floor_sqrt(n) <= n,
        floor_sqrt(n) * floor_sqrt(n) <= n,
        n < (floor_sqrt(n) + 1) * (floor_sqrt(n) + 1),
    decreases n,
{
    if n > 0 {
        lemma_floor_sqrt(n - 1);
        let r = floor_sqrt(n - 1);
        if (r + 1) * (r + 1) <= n {
            assert(n < (r + 2) * (r + 2)) by (nonlinear_arith)
                requires
                    n - 1 < (r + 1) * (r + 1),
                    r >= 0,
            ;
            assert(r + 1 <= n) by (nonlinear_arith)
                requires
                    (r + 1) * (r + 1) <= n,
                    r >= 0,
            ;
        } else {
            assert(r * r <= n);
        }
    }
}

/// Any `r >= 0` with `r * r <= n < (r + 1) * (r + 1)` is `floor_sqrt(n)`.
pub proof fn lemma_floor_sqrt_unique(r: int, n: int)
    requires
        0 <= r,
        r * r <= n,
        n < (r + 1) * (r + 1),
    ensures
        r == floor_sqrt(n),
{
    lemma_floor_sqrt(n);
    let s = floor_sqrt(n);
    assert(r == s) by (nonlinear_arith)
        requires
            0 <= r,
            0 <= s,
            r * r <= n,
            n < (r + 1) * (r + 1),
            s * s <= n,
            n < (s + 1) * (s + 1),
    ;
}

/// Every entry of `primes_between(lo, hi)` is a prime in `[lo, hi)`, the
/// entries ascend strictly, and every prime in `[lo, hi)` is an entry.
pub proof fn lemma_primes_between(lo: int, hi: int)
    ensures
        forall|i: int|
            0 <= i < primes_between(lo, hi).len() ==> lo <= #[trigger] primes_between(lo, hi)[i]
                < hi && is_prime(primes_between(lo, hi)[i]),
        forall|i: int, j: int|
            0 <= i < j < primes_between(lo, hi).len() ==> #[trigger] primes_between(lo, hi)[i]
                < #[trigger] primes_between(lo, hi)[j],
        forall|p: int|
            lo <= p < hi && #[trigger] is_prime(p) ==> primes_between(lo, hi).contains(p),
    decreases hi - lo,
{
    if lo < hi {
        lemma_primes_between(lo, hi - 1);
        let shorter = primes_between(lo, hi - 1);
        let s = primes_between(lo, hi);
        if is_prime(hi - 1) {
            assert(s == shorter.push(hi - 1));
            assert(s[shorter.len() as int] == hi - 1);
            assert forall|p: int| lo <= p < hi && #[trigger] is_prime(p) implies s.contains(p) by {
                if p < hi - 1 {
                    assert(shorter.contains(p));
                    let i = choose|i: int| 0 <= i < shorter.len() && shorter[i] == p;
                    assert(s[i] == p);
                } else {
                    assert(s[shorter.len() as int] == p);
                }
            }
        } else {
            assert(s == shorter);
        }
    }
}

/// The primes of `[lo, hi)` are those of `[lo, mid)` followed by those of
/// `[mid, hi)`.
pub proof fn lemma_primes_between_split(lo: int, mid: int, hi: int)
    requires
        lo <= mid <= hi,
    ensures
        primes_between(lo, hi) == primes_between(lo, mid) + primes_between(mid, hi),
    decreases hi - mid,
{
    if mid < hi {
        lemma_primes_between_split(lo, mid, hi - 1);
        let a = primes_between(lo, mid);
        let b = primes_between(mid, hi - 1);
        if is_prime(hi - 1) {
            assert((a + b).push(hi - 1) =~= a + b.push(hi - 1));
        }
    } else {
        assert(primes_between(lo, mid) + Seq::<int>::empty() =~= primes_between(lo, mid));
    }
}

/// A range without primes has an empty list.
pub proof fn lemma_primes_between_none(lo: int, hi: int)
    requires
        no_primes(lo, hi),
    ensures
        primes_between(lo, hi) == Seq::<int>::empty(),
    decreases hi - lo,
{
    if lo < hi {
        assert(!is_prime(hi - 1));
        lemma_primes_between_none(lo, hi - 1);
    }
}

/// Two starting points with no prime between them give the same list.
pub proof fn lemma_primes_between_same(a: int, b: int, hi: int)
    requires
        a <= b,
        forall|k: int| a <= k < b && k < hi ==> !#[trigger] is_prime(k),
    ensures
        primes_between(a, hi) == primes_between(b, hi),
{
    if b <= hi {
        lemma_primes_between_split(a, b, hi);
        lemma_primes_between_none(a, b);
        assert(Seq::<int>::empty() + primes_between(b, hi) =~= primes_between(b, hi));
    } else {
        lemma_primes_between_none(a, hi);
        lemma_primes_between_none(b, hi);
    }
}

/// No prime lies strictly between two neighbours of the list, before its
/// first entry, or after its last.
pub proof fn lemma_primes_between_gap(lo: int, hi: int, index: int)
    requires
        lo <= hi,
        0 <= index <= primes_between(lo, hi).len(),
    ensures
        no_primes(
            if index == 0 {
                lo
            } else {
                primes_between(lo, hi)[index - 1] + 1
            },
            if index < primes_between(lo, hi).len() {
                primes_between(lo, hi)[index]
            } else {
                hi
            },
        ),
{
    let s = primes_between(lo, hi);
    lemma_primes_between(lo, hi);
    let from = if index == 0 {
        lo
    } else {
        s[index - 1] + 1
    };
    let to = if index < s.len() {
        s[index]
    } else {
        hi
    };
    assert forall|k: int| from <= k < to implies !#[trigger] is_prime(k) by {
        if is_prime(k) {
            assert(s.contains(k));
            let j = choose|j: int| 0 <= j < s.len() && s[j] == k;
            if j < index {
                if j < index - 1 {
                    assert(s[j] < s[index - 1]);
                }
            } else {
                if index < j {
                    assert(s[index] < s[j]);
                }
            }
        }
    }
}

/// One more number: the list grows by it exactly when it is prime.
pub proof fn lemma_primes_between_next(lo: int, n: int)
    requires
        lo <= n,
    ensures
        primes_between(lo, n + 1) == if is_prime(n) {
            primes_between(lo, n).push(n)
        } else {
            primes_between(lo, n)
        },
{
}

/// Two lists of machine integers that read as the same list of integers are
/// the same list.
pub proof fn lemma_ints_injective(a: Seq<usize>, b: Seq<usize>)
    requires
        ints(a) == ints(b),
    ensures
        a == b,
{
    assert(a.len() == ints(a).len());
    assert(b.len() == ints(b).len());
    assert forall|i: int| 0 <= i < a.len() implies a[i] == b[i] by {
        assert(ints(a)[i] == a[i] as int);
        assert(ints(b)[i] == b[i] as int);
    }
    assert(a =~= b);
}

/// Reading a list as integers commutes with appending an entry.
pub proof fn lemma_ints_push(s: Seq<usize>, x: usize)
    ensures
        ints(s.push(x)) == ints(s).push(x as int),
{
    assert(ints(s.push(x)) =~= ints(s).push(x as int));
}

/// Reading a list as integers commutes with concatenation.
pub proof fn lemma_ints_add(a: Seq<usize>, b: Seq<usize>)
    ensures
        ints(a + b) == ints(a) + ints(b),
{
    assert(ints(a + b) =~= ints(a) + ints(b));
}

} // verus!
