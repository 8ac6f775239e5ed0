//! The round coordinator: it asks every worker for its candidate, picks the
//! lowest, has every worker mark with it, and repeats until no worker has a
//! candidate left; then it gathers what the workers still hold.

use vstd::prelude::*;
use crate::arith::integer_sqrt;
use crate::bitmap::max_bits;
use crate::marking::{
    lemma_sieved_after_mark, lemma_sieved_is_prime, lemma_sieved_skip, marked, sieved,
};
use crate::partition::{chunk_end, chunk_start, lemma_chunk_of, lemma_chunks_tile, partition};
use crate::primes::{
    floor_sqrt, ints, is_prime, lemma_floor_sqrt, lemma_ints_add, lemma_ints_push,
    lemma_prime_survives, lemma_primes_between_next, lemma_primes_between_none,
    lemma_primes_between_same, lemma_primes_between_split, lemma_survives_skip,
    lemma_survivor_is_prime, no_primes, primes_between, primes_upto, survives,
};
use crate::worker::{lemma_set_between_primes, set_between, Worker};

verus! {

/// `lowest` is among the reported candidates and none is lower.
pub open spec fn is_lowest(reports: Seq<Option<usize>>, lowest: usize) -> bool {
    &&& exists|i: int| 0 <= i < reports.len() && #[trigger] reports[i] == Some(lowest)
    &&& forall|i: int|
        0 <= i < reports.len() ==> match #[trigger] reports[i] {
            Some(candidate) => lowest <= candidate,
            None => true,
        }
}

/// No worker reported a candidate within `limit`.
pub open spec fn none_within(reports: Seq<Option<usize>>, limit: usize) -> bool {
    forall|i: int|
        0 <= i < reports.len() ==> match #[trigger] reports[i] {
            Some(candidate) => candidate > limit,
            None => true,
        }
}

/// The decision of one round: the lowest reported candidate, which every
/// worker is then told to mark with; or `None`, which ends the rounds, where
/// no worker reported a candidate or the lowest one exceeds `limit`.
///
/// Two workers that report the same number give one prime to mark, not two.
pub fn round_minimum(reports: &Vec<Option<usize>>, limit: usize) -> (chosen: Option<usize>)
    ensures
        match chosen {
            Some(prime) => is_lowest(reports@, prime) && prime <= limit,
            None => none_within(reports@, limit),
        },
{
    let mut lowest: Option<usize> = None;
    let mut i: usize = 0;
    while i < reports.len()
        invariant
            i <= reports@.len(),
            match lowest {
                Some(low) => {
                    &&& exists|j: int| 0 <= j < i && #[trigger] reports@[j] == Some(low)
                    &&& forall|j: int|
                        0 <= j < i ==> match #[trigger] reports@[j] {
                            Some(candidate) => low <= candidate,
                            None => true,
                        }
                },
                None => forall|j: int| 0 <= j < i ==> #[trigger] reports@[j] is None,
            },
        decreases reports@.len() - i,
    {
        match reports[i] {
            Some(candidate) => {
                let lower = match lowest {
                    Some(low) => candidate < low,
                    None => true,
                };
                if lower {
                    lowest = Some(candidate);
                }
            },
            None => {},
        }
        i += 1;
    }
    match lowest {
        Some(low) => {
            if low <= limit {
                Some(low)
            } else {
                None
            }
        },
        None => None,
    }
}

/// The first `count` lists of `parts`, one after the other.
pub open spec fn joined(parts: Seq<Vec<usize>>, count: int) -> Seq<usize>
    decreases count,
{
    if count <= 0 {
        Seq::empty()
    } else {
        joined(parts, count - 1) + parts[count - 1]@
    }
}

/// The full list: the primes discovered during the rounds, then what each
/// worker still held, worker by worker in the order given.
///
/// Nothing is sorted: the workers stand in ascending order of their
/// segments, and each list ascends.
pub fn assemble(discovered: Vec<usize>, remaining: Vec<Vec<usize>>) -> (primes: Vec<usize>)
    ensures
        primes@ == discovered@ + joined(remaining@, remaining@.len() as int),
{
    let mut primes = discovered;
    let mut remaining = remaining;
    let ghost lists = remaining@;
    let mut i: usize = 0;
    assert(primes@ =~= discovered@ + joined(lists, 0));
    while i < remaining.len()
        invariant
            i <= lists.len(),
            remaining@.len() == lists.len(),
            forall|j: int| i <= j < lists.len() ==> remaining@[j] == lists[j],
            primes@ == discovered@ + joined(lists, i as int),
        decreases lists.len() - i,
    {
        let ghost so_far = primes@;
        primes.append(&mut remaining[i]);
        assert(primes@ =~= discovered@ + joined(lists, i + 1)) by {
            assert(primes@ == so_far + lists[i as int]@);
        }
        i += 1;
    }
    primes
}

/// What worker `index` of `parts` still holds when the rounds over `[0, max]`
/// have ended: the primes of its segment above the square root of `max`.
/// Those up to the square root were discovered during the rounds.
pub open spec fn worker_share(max: int, parts: int, index: int) -> Seq<int> {
    let start = chunk_start(max + 1, parts, index);
    let above_root = floor_sqrt(max) + 1;
    primes_between(
        if start < above_root {
            above_root
        } else {
            start
        },
        chunk_end(max + 1, parts, index),
    )
}

/// The shares of the first `count` workers, one after the other.
pub open spec fn joined_shares(max: int, parts: int, count: int) -> Seq<int>
    decreases count,
{
    if count <= 0 {
        Seq::empty()
    } else {
        joined_shares(max, parts, count - 1) + worker_share(max, parts, count - 1)
    }
}

/// What the rounds give: the primes that were broadcast, in the order of
/// the rounds, and for each worker, in ascending order of the segments,
/// what its final scan found.
pub struct Rounds {
    pub discovered: Vec<usize>,
    pub remaining: Vec<Vec<usize>>,
}

/// Worker `index` stands on its chunk of `[0, len)` and reports up to
/// `limit`.
spec fn placed(worker: Worker, len: int, parts: int, index: int, limit: int) -> bool {
    &&& worker.well_formed()
    &&& worker.offset() == chunk_start(len, parts, index)
    &&& worker.end() == chunk_end(len, parts, index)
    &&& worker.limit() == limit
}

/// The worker has marked with every prime below `bound` and with nothing
/// else, and its cursor has passed those primes and no others.
spec fn settled(worker: Worker, bound: int) -> bool {
    &&& sieved(worker.bits(), worker.offset(), bound)
    &&& worker.cursor() >= bound || worker.cursor() >= worker.end()
    &&& forall|k: int|
        worker.offset() <= k < worker.cursor() && k < worker.end() && #[trigger] is_prime(k) ==> k
            < bound
}

/// The worker stands where its report says: on the candidate, or past the
/// stretch that it scans for candidates.
spec fn answered(worker: Worker, report: Option<usize>) -> bool {
    &&& worker.reported() == report
    &&& match report {
        Some(candidate) => worker.cursor() == candidate && candidate < worker.stop()
            && worker.is_set(candidate as int),
        None => worker.cursor() >= worker.stop(),
    }
}

/// A scan moves the cursor over cleared bits only, so it passes no prime.
proof fn lemma_scan_settled(before: Worker, after: Worker, bound: int)
    requires
        before.well_formed(),
        after.well_formed(),
        settled(before, bound),
        after.offset() == before.offset(),
        after.end() == before.end(),
        after.bits() == before.bits(),
        before.cursor() <= after.cursor(),
        forall|k: int| before.cursor() <= k < after.cursor() ==> !#[trigger] before.is_set(k),
    ensures
        settled(after, bound),
{
    assert forall|k: int|
        after.offset() <= k < after.cursor() && k < after.end() && #[trigger] is_prime(
            k,
        ) implies k < bound by {
        if before.cursor() <= k {
            assert(!before.is_set(k));
            assert(before.bits()[k - before.offset()] == survives(k, bound));
            lemma_prime_survives(k, bound);
        }
    }
}

/// Marking with the lowest candidate, which is the least prime not yet
/// marked with, moves a worker from sieved below `bound` to sieved through
/// that prime.
proof fn lemma_mark_settled(
    before: Worker,
    after: Worker,
    report: Option<usize>,
    bound: int,
    prime: usize,
)
    requires
        before.well_formed(),
        after.well_formed(),
        settled(before, bound),
        answered(before, report),
        after.offset() == before.offset(),
        after.end() == before.end(),
        after.limit() == before.limit(),
        after.cursor() == if before.reported() == Some(prime) {
            before.cursor() + 1
        } else {
            before.cursor()
        },
        marked(before.bits(), after.bits(), prime as int, before.end() - 1, before.offset()),
        2 <= bound <= prime <= before.limit(),
        no_primes(bound, prime as int),
        match report {
            Some(candidate) => prime <= candidate,
            None => true,
        },
    ensures
        settled(after, prime + 1),
{
    lemma_sieved_after_mark(
        before.bits(),
        after.bits(),
        before.offset(),
        bound,
        prime as int,
        before.end() - 1,
    );
}

/// When no worker has a candidate left, what a worker's final scan finds
/// is its share.
proof fn lemma_final_share(worker: Worker, bound: int, limit: int, max: int)
    requires
        worker.well_formed(),
        settled(worker, bound),
        worker.cursor() >= worker.stop(),
        worker.limit() == limit,
        limit == floor_sqrt(max),
        0 <= max,
        worker.end() <= max + 1,
        2 <= bound,
        bound <= limit + 1 || bound == 2,
        no_primes(bound, limit + 1),
    ensures
        set_between(worker.bits(), worker.offset(), worker.cursor(), worker.end())
            == primes_between(
            if worker.offset() < limit + 1 {
                limit + 1
            } else {
                worker.offset()
            },
            worker.end(),
        ),
{
    lemma_floor_sqrt(max);
    let above_root = limit + 1;
    let last = if bound < above_root {
        above_root
    } else {
        bound
    };
    if bound < above_root {
        lemma_sieved_skip(worker.bits(), worker.offset(), bound, above_root);
    }
    assert(worker.end() <= last * last) by (nonlinear_arith)
        requires
            worker.end() <= max + 1,
            max < (limit + 1) * (limit + 1),
            last >= limit + 1,
            limit >= 0,
    ;
    lemma_sieved_is_prime(worker.bits(), worker.offset(), last);
    lemma_set_between_primes(worker.bits(), worker.offset(), worker.cursor(), worker.end());
    let from = if worker.offset() < above_root {
        above_root
    } else {
        worker.offset()
    };
    if worker.cursor() <= from {
        lemma_primes_between_same(worker.cursor(), from, worker.end());
    } else {
        assert forall|k: int| from <= k < worker.cursor() && k < worker.end() implies !#[trigger] is_prime(
            k,
        ) by {
            if is_prime(k) {
                assert(k < bound);
            }
        }
        lemma_primes_between_same(from, worker.cursor(), worker.end());
    }
}

/// Joined in ascending order of the segments, the shares of the first
/// `count` workers continue the primes up to the square root of `max`
/// without gap or overlap, as far as those workers' segments reach.
pub proof fn lemma_shares_join_upto(max: int, parts: int, count: int)
    requires
        0 <= max,
        1 <= parts,
        0 <= count <= parts,
    ensures
        primes_between(0, floor_sqrt(max) + 1) + joined_shares(max, parts, count)
            == primes_between(
            0,
            if chunk_start(max + 1, parts, count) < floor_sqrt(max) + 1 {
                floor_sqrt(max) + 1
            } else {
                chunk_start(max + 1, parts, count)
            },
        ),
    decreases count,
{
    let above_root = floor_sqrt(max) + 1;
    let head = primes_between(0, above_root);
    lemma_floor_sqrt(max);
    if count == 0 {
        assert(head + joined_shares(max, parts, 0) =~= head);
    } else {
        lemma_shares_join_upto(max, parts, count - 1);
        lemma_chunks_tile(max + 1, parts, count - 1);
        let start = chunk_start(max + 1, parts, count - 1);
        let end = chunk_end(max + 1, parts, count - 1);
        let lo = if start < above_root {
            above_root
        } else {
            start
        };
        let earlier = joined_shares(max, parts, count - 1);
        let share = worker_share(max, parts, count - 1);
        assert(share == primes_between(lo, end));
        assert(head + (earlier + share) =~= (head + earlier) + share);
        if end <= lo {
            assert(share =~= Seq::<int>::empty());
            assert((head + earlier) + share =~= head + earlier);
        } else {
            lemma_primes_between_split(0, lo, end);
        }
    }
}

/// Joined in ascending order of the segments, after the primes discovered
/// during the rounds, the workers' shares are the primes up to `max`: each
/// once, in ascending order, none missing.
pub proof fn lemma_shares_join(max: int, parts: int)
    requires
        0 <= max,
        1 <= parts,
    ensures
        primes_between(0, floor_sqrt(max) + 1) + joined_shares(max, parts, parts) == primes_upto(
            max,
        ),
{
    lemma_shares_join_upto(max, parts, parts);
    lemma_chunks_tile(max + 1, parts, parts - 1);
    lemma_floor_sqrt(max);
}

/// Runs the rounds over `[0, max]` with `num_threads` workers and returns
/// what was discovered and what each worker's final scan found.
///
/// The workers take their turns on the calling thread, in ascending order
/// of their segments. A worker reads and writes its own state only, and a
/// round ends only when every worker has had its turn, so the order of the
/// turns within a round does not show in the outcome.
pub fn run_rounds(max: usize, num_threads: u8) -> (rounds: Rounds)
    requires
        num_threads >= 1,
        max < max_bits(),
    ensures
        ints(rounds.discovered@) == primes_between(0, floor_sqrt(max as int) + 1),
        rounds.remaining@.len() == num_threads,
        forall|i: int|
            0 <= i < num_threads ==> ints((#[trigger] rounds.remaining@[i])@) == worker_share(
                max as int,
                num_threads as int,
                i,
            ),
{
    let limit = integer_sqrt(max);
    let chunks = partition(max, num_threads);
    let count = chunks.len();
    let ghost len = max + 1;
    let ghost parts = num_threads as int;
    proof {
        lemma_floor_sqrt(max as int);
    }
    let mut workers: Vec<Worker> = Vec::new();
    let mut i: usize = 0;
    while i < count
        invariant
            i <= count == parts,
            1 <= parts,
            len == max + 1,
            max < max_bits(),
            chunks@.len() == count,
            forall|j: int|
                0 <= j < count ==> (#[trigger] chunks@[j]).offset == chunk_start(len, parts, j)
                    && chunks@[j].offset + chunks@[j].size == chunk_end(len, parts, j),
            workers@.len() == i,
            forall|j: int| 0 <= j < i ==> placed(#[trigger] workers@[j], len, parts, j, limit as int),
            forall|j: int| 0 <= j < i ==> settled(#[trigger] workers@[j], 2),
        decreases count - i,
    {
        let chunk = chunks[i];
        proof {
            lemma_chunks_tile(len, parts, i as int);
        }
        let worker = Worker::new(limit, chunk.offset, chunk.size);
        proof {
            assert forall|j: int|
                0 <= j < worker.bits().len() && worker.offset() + j >= 2 implies #[trigger] worker.bits()[j]
                == survives(worker.offset() + j, 2) by {}
        }
        workers.push(worker);
        i += 1;
    }
    let mut discovered: Vec<usize> = Vec::new();
    let ghost mut bound: int = 2;
    proof {
        assert(primes_between(0, 2) =~= Seq::<int>::empty()) by {
            reveal_with_fuel(primes_between, 3);
        }
        assert(ints(discovered@) =~= Seq::<int>::empty());
    }
    loop
        invariant
            count == parts,
            1 <= parts,
            len == max + 1,
            max < max_bits(),
            limit == floor_sqrt(max as int),
            limit <= max,
            workers@.len() == count,
            2 <= bound,
            bound <= limit + 1 || bound == 2,
            ints(discovered@) == primes_between(0, bound),
            forall|j: int|
                0 <= j < count ==> placed(#[trigger] workers@[j], len, parts, j, limit as int),
            forall|j: int| 0 <= j < count ==> settled(#[trigger] workers@[j], bound),
        ensures
            forall|j: int| 0 <= j < count ==> (#[trigger] workers@[j]).cursor() >= workers@[j].stop(),
        decreases limit + 3 - bound,
    {
        let mut reports: Vec<Option<usize>> = Vec::new();
        let mut i: usize = 0;
        while i < count
            invariant
                i <= count == parts,
                workers@.len() == count,
                reports@.len() == i,
                forall|j: int|
                    0 <= j < count ==> placed(#[trigger] workers@[j], len, parts, j, limit as int),
                forall|j: int| 0 <= j < count ==> settled(#[trigger] workers@[j], bound),
                forall|j: int| 0 <= j < i ==> answered(#[trigger] workers@[j], reports@[j]),
            decreases count - i,
        {
            let ghost before = workers@;
            let report = workers[i].next_candidate();
            reports.push(report);
            proof {
                lemma_scan_settled(before[i as int], workers@[i as int], bound);
                assert forall|j: int| 0 <= j < count implies placed(
                    #[trigger] workers@[j],
                    len,
                    parts,
                    j,
                    limit as int,
                ) by {
                    if j != i {
                        assert(workers@[j] == before[j]);
                    }
                }
                assert forall|j: int| 0 <= j < count implies settled(
                    #[trigger] workers@[j],
                    bound,
                ) by {
                    if j != i {
                        assert(workers@[j] == before[j]);
                    }
                }
                assert forall|j: int| 0 <= j < i + 1 implies answered(
                    #[trigger] workers@[j],
                    reports@[j],
                ) by {
                    if j != i {
                        assert(workers@[j] == before[j]);
                    }
                }
            }
            i += 1;
        }
        match round_minimum(&reports, limit) {
            None => {
                proof {
                    assert forall|j: int| 0 <= j < count implies (#[trigger] workers@[j]).cursor()
                        >= workers@[j].stop() by {
                        // A reported candidate is within the limit, so the
                        // round would have chosen one.
                        assert(answered(workers@[j], reports@[j]));
                        assert(placed(workers@[j], len, parts, j, limit as int));
                    }
                }
                break ;
            },
            Some(prime) => {
                let ghost owner = choose|at: int|
                    0 <= at < reports@.len() && #[trigger] reports@[at] == Some(prime);
                proof {
                    assert(answered(workers@[owner], reports@[owner]));
                    assert(placed(workers@[owner], len, parts, owner, limit as int));
                    assert(settled(workers@[owner], bound));
                    assert(bound <= prime);
                    assert forall|k: int| bound <= k < prime implies !#[trigger] is_prime(k) by {
                        let at = lemma_chunk_of(len, parts, k);
                        assert(placed(workers@[at], len, parts, at, limit as int));
                        assert(settled(workers@[at], bound));
                        assert(answered(workers@[at], reports@[at]));
                    }
                    assert(no_primes(bound, prime as int));
                    let slot = prime - workers@[owner].offset();
                    assert(workers@[owner].bits()[slot] == survives(
                        workers@[owner].offset() + slot,
                        bound,
                    ));
                    lemma_survives_skip(prime as int, bound, prime as int);
                    lemma_survivor_is_prime(prime as int, prime as int);
                }
                let mut i: usize = 0;
                while i < count
                    invariant
                        i <= count == parts,
                        workers@.len() == count,
                        reports@.len() == count,
                        2 <= bound <= prime <= limit,
                        no_primes(bound, prime as int),
                        is_lowest(reports@, prime),
                        forall|j: int|
                            0 <= j < count ==> placed(
                                #[trigger] workers@[j],
                                len,
                                parts,
                                j,
                                limit as int,
                            ),
                        forall|j: int| 0 <= j < i ==> settled(#[trigger] workers@[j], prime + 1),
                        forall|j: int| i <= j < count ==> settled(#[trigger] workers@[j], bound),
                        forall|j: int|
                            i <= j < count ==> answered(#[trigger] workers@[j], reports@[j]),
                    decreases count - i,
                {
                    let ghost before = workers@;
                    workers[i].mark(prime);
                    proof {
                        assert(answered(before[i as int], reports@[i as int]));
                        assert(placed(before[i as int], len, parts, i as int, limit as int));
                        lemma_mark_settled(
                            before[i as int],
                            workers@[i as int],
                            reports@[i as int],
                            bound,
                            prime,
                        );
                        assert forall|j: int| 0 <= j < count implies placed(
                            #[trigger] workers@[j],
                            len,
                            parts,
                            j,
                            limit as int,
                        ) by {
                            if j != i {
                                assert(workers@[j] == before[j]);
                            }
                        }
                        assert forall|j: int| 0 <= j < i + 1 implies settled(
                            #[trigger] workers@[j],
                            prime + 1,
                        ) by {
                            if j != i {
                                assert(workers@[j] == before[j]);
                            }
                        }
                        assert forall|j: int| i + 1 <= j < count implies settled(
                            #[trigger] workers@[j],
                            bound,
                        ) && answered(workers@[j], reports@[j]) by {
                            assert(workers@[j] == before[j]);
                        }
                    }
                    i += 1;
                }
                let ghost so_far = discovered@;
                discovered.push(prime);
                proof {
                    lemma_ints_push(so_far, prime);
                    lemma_primes_between_same(bound, prime as int, prime as int);
                    lemma_primes_between_split(0, bound, prime as int);
                    lemma_primes_between_none(bound, prime as int);
                    assert(primes_between(0, bound) + Seq::<int>::empty() =~= primes_between(
                        0,
                        bound,
                    ));
                    lemma_primes_between_next(0, prime as int);
                    bound = prime + 1;
                }
            },
        }
    }
    proof {
        assert forall|k: int| bound <= k < limit + 1 implies !#[trigger] is_prime(k) by {
            let at = lemma_chunk_of(len, parts, k);
            assert(placed(workers@[at], len, parts, at, limit as int));
            assert(settled(workers@[at], bound));
        }
        assert(no_primes(bound, limit + 1));
        if bound <= limit + 1 {
            lemma_primes_between_split(0, bound, limit + 1);
            lemma_primes_between_none(bound, limit + 1);
            assert(primes_between(0, bound) + Seq::<int>::empty() =~= primes_between(0, bound));
        } else {
            assert(no_primes(limit + 1, bound));
            lemma_primes_between_split(0, limit + 1, bound);
            lemma_primes_between_none(limit + 1, bound);
            assert(primes_between(0, limit + 1) + Seq::<int>::empty() =~= primes_between(
                0,
                limit + 1,
            ));
        }
    }
    let mut remaining: Vec<Vec<usize>> = Vec::new();
    let mut i: usize = 0;
    while i < count
        invariant
            i <= count == parts,
            1 <= parts,
            len == max + 1,
            limit == floor_sqrt(max as int),
            workers@.len() == count,
            2 <= bound,
            bound <= limit + 1 || bound == 2,
            no_primes(bound, limit + 1),
            forall|j: int|
                0 <= j < count ==> placed(#[trigger] workers@[j], len, parts, j, limit as int),
            forall|j: int| 0 <= j < count ==> settled(#[trigger] workers@[j], bound),
            forall|j: int| 0 <= j < count ==> (#[trigger] workers@[j]).cursor() >= workers@[j].stop(),
            remaining@.len() == i,
            forall|j: int|
                0 <= j < i ==> ints((#[trigger] remaining@[j])@) == worker_share(
                    max as int,
                    parts,
                    j,
                ),
        decreases count - i,
    {
        let found = workers[i].remaining();
        proof {
            assert(placed(workers@[i as int], len, parts, i as int, limit as int));
            assert(settled(workers@[i as int], bound));
            lemma_chunks_tile(len, parts, i as int);
            lemma_final_share(workers@[i as int], bound, limit as int, max as int);
        }
        remaining.push(found);
        i += 1;
    }
    Rounds { discovered, remaining }
}

/// The primes up to and including `max`, in ascending order, found by
/// `num_threads` workers that each own one segment of `[0, max]`.
///
/// The outcome does not depend on the number of workers, nor on how many of
/// them have an empty segment.
pub fn basic_threaded_soe(max: usize, num_threads: u8) -> (primes: Vec<usize>)
    requires
        num_threads >= 1,
        max < max_bits(),
    ensures
        ints(primes@) == primes_upto(max as int),
{
    let rounds = run_rounds(max, num_threads);
    let ghost discovered = rounds.discovered@;
    let ghost remaining = rounds.remaining@;
    let primes = assemble(rounds.discovered, rounds.remaining);
    proof {
        lemma_joined_shares(remaining, max as int, num_threads as int, num_threads as int);
        lemma_ints_add(discovered, joined(remaining, remaining.len() as int));
        lemma_shares_join(max as int, num_threads as int);
    }
    primes
}

/// Lists that are the workers' shares join to the joined shares.
proof fn lemma_joined_shares(lists: Seq<Vec<usize>>, max: int, parts: int, count: int)
    requires
        0 <= count <= lists.len(),
        forall|i: int|
            0 <= i < count ==> ints((#[trigger] lists[i])@) == worker_share(max, parts, i),
    ensures
        ints(joined(lists, count)) == joined_shares(max, parts, count),
    decreases count,
{
    if count > 0 {
        lemma_joined_shares(lists, max, parts, count - 1);
        lemma_ints_add(joined(lists, count - 1), lists[count - 1]@);
    } else {
        assert(ints(joined(lists, 0)) =~= Seq::<int>::empty());
    }
}

} // verus!
