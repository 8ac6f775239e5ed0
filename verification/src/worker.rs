//! A partitioned worker: one contiguous segment of the number line with a
//! bitmap of its own, a cursor that only moves forward, and the two requests
//! that a coordinator makes of it.

use vstd::prelude::*;
use crate::bitmap::{bits_get, bits_repeat, bits_set, max_bits, Bitmap};
use crate::marking::{mark_multiples, marked};
use crate::primes::{ints, is_prime, lemma_ints_push, primes_between};

verus! {

/// The numbers `k` with `lo <= k < hi` whose bit is set, in ascending order,
/// in a bitmap whose position `i` stands for the number `offset + i`.
pub open spec fn set_between(bits: Seq<bool>, offset: int, lo: int, hi: int) -> Seq<int>
    decreases hi - lo,
{
    if hi <= lo {
        Seq::empty()
    } else if bits[hi - 1 - offset] {
        set_between(bits, offset, lo, hi - 1).push(hi - 1)
    } else {
        set_between(bits, offset, lo, hi - 1)
    }
}

/// Where the set bits are exactly the primes, the set numbers of a stretch
/// are its primes.
pub proof fn lemma_set_between_primes(bits: Seq<bool>, offset: int, lo: int, hi: int)
    requires
        offset <= lo,
        2 <= lo,
        hi <= offset + bits.len(),
        forall|i: int|
            0 <= i < bits.len() && offset + i >= 2 ==> #[trigger] bits[i] == is_prime(offset + i),
    ensures
        set_between(bits, offset, lo, hi) == primes_between(lo, hi),
    decreases hi - lo,
{
    if lo < hi {
        lemma_set_between_primes(bits, offset, lo, hi - 1);
        assert(bits[hi - 1 - offset] == is_prime(offset + (hi - 1 - offset)));
    }
}

/// The worker of one segment `[offset, end)`.
///
/// Between requests it is in one of two states: it has reported a candidate
/// (or the lack of one) and awaits the prime to mark, or it has marked and
/// awaits the next query. The cursor is the number from which the next scan
/// resumes; no scan starts over from the segment's first number.
pub struct Worker {
    bits: Bitmap,
    offset: usize,
    size: usize,
    limit: usize,
    cursor: usize,
    reported: Option<usize>,
}

impl Worker {
    /// The segment's bitmap: position `i` stands for `offset + i`.
    pub closed spec fn bits(&self) -> Seq<bool> {
        self.bits@
    }

    /// The first number of the segment.
    pub closed spec fn offset(&self) -> int {
        self.offset as int
    }

    /// One past the last number of the segment.
    pub closed spec fn end(&self) -> int {
        self.offset + self.size
    }

    /// The largest number that the worker reports as a candidate.
    pub closed spec fn limit(&self) -> int {
        self.limit as int
    }

    /// The number from which the next scan resumes.
    pub closed spec fn cursor(&self) -> int {
        self.cursor as int
    }

    /// The candidate of the last report, until the next marking.
    pub closed spec fn reported(&self) -> Option<usize> {
        self.reported
    }

    /// `k` lies in the segment and its bit is set.
    pub open spec fn is_set(&self, k: int) -> bool {
        self.offset() <= k < self.end() && self.bits()[k - self.offset()]
    }

    /// Where a scan for candidates ends: past the limit or past the segment,
    /// whichever comes first.
    pub open spec fn stop(&self) -> int {
        if self.limit() + 1 < self.end() {
            self.limit() + 1
        } else {
            self.end()
        }
    }

    /// The bitmap covers the segment, the cursor is at least 2 and not
    /// before the segment, and a reported candidate sits at the cursor.
    pub open spec fn well_formed(&self) -> bool {
        &&& 0 <= self.offset() <= self.end() <= usize::MAX
        &&& self.bits().len() == self.end() - self.offset()
        &&& 0 <= self.limit() <= usize::MAX
        &&& 2 <= self.cursor() <= usize::MAX
        &&& self.offset() <= self.cursor()
        &&& match self.reported() {
            Some(c) => c == self.cursor() && c < self.stop(),
            None => true,
        }
    }

    /// A worker for the `size` numbers from `offset` on, which reports
    /// candidates up to `limit`.
    ///
    /// Every bit starts set, but for those of 0 and 1 where the segment holds
    /// them. The cursor starts at the segment's first number, or at 2 if that
    /// is larger.
    pub fn new(limit: usize, offset: usize, size: usize) -> (worker: Worker)
        requires
            size <= max_bits(),
            offset + size <= usize::MAX,
        ensures
            worker.well_formed(),
            worker.offset() == offset,
            worker.end() == offset + size,
            worker.limit() == limit,
            worker.cursor() == if offset < 2 {
                2
            } else {
                offset as int
            },
            worker.reported() is None,
            worker.bits() == Seq::new(size as nat, |i: int| offset + i >= 2),
    {
        let mut bits = bits_repeat(true, size);
        if offset == 0 && size > 0 {
            bits_set(&mut bits, 0, false);
        }
        if offset <= 1 && size > 1 - offset {
            bits_set(&mut bits, 1 - offset, false);
        }
        assert(bits@ =~= Seq::new(size as nat, |i: int| offset + i >= 2));
        let cursor = if offset < 2 {
            2
        } else {
            offset
        };
        Worker { bits, offset, size, limit, cursor, reported: None }
    }

    /// Answers "what is your next candidate?": the first number from the
    /// cursor on, within the segment and up to the limit, whose bit is set.
    ///
    /// The cursor moves to the candidate, or past the scanned stretch where
    /// there is none. The bitmap is only read.
    pub fn next_candidate(&mut self) -> (candidate: Option<usize>)
        requires
            old(self).well_formed(),
        ensures
            final(self).well_formed(),
            final(self).offset() == old(self).offset(),
            final(self).end() == old(self).end(),
            final(self).limit() == old(self).limit(),
            final(self).bits() == old(self).bits(),
            final(self).reported() == candidate,
            forall|k: int|
                old(self).cursor() <= k < final(self).cursor() ==> !#[trigger] old(self).is_set(k),
            match candidate {
                Some(c) => {
                    &&& old(self).cursor() <= c < old(self).stop()
                    &&& old(self).is_set(c as int)
                    &&& final(self).cursor() == c
                },
                None => {
                    &&& final(self).cursor() >= old(self).stop()
                    &&& final(self).cursor() == if old(self).cursor() < old(self).stop() {
                        old(self).stop()
                    } else {
                        old(self).cursor()
                    }
                },
            },
    {
        let ghost start = self.cursor;
        let end = self.offset + self.size;
        self.reported = None;
        while self.cursor <= self.limit && self.cursor < end
            invariant
                self.well_formed(),
                self.reported is None,
                self.offset() == old(self).offset(),
                self.end() == old(self).end() == end,
                self.limit() == old(self).limit(),
                self.bits() == old(self).bits(),
                start <= self.cursor,
                start == old(self).cursor(),
                self.cursor() <= old(self).stop() || self.cursor == start,
                forall|k: int| start <= k < self.cursor() ==> !#[trigger] old(self).is_set(k),
            decreases end - self.cursor,
        {
            if bits_get(&self.bits, self.cursor - self.offset) {
                self.reported = Some(self.cursor);
                return self.reported;
            }
            self.cursor += 1;
        }
        None
    }

    /// Answers "mark the multiples of `prime`": clears every multiple of
    /// `prime` in the segment, from twice `prime` on.
    ///
    /// The cursor steps past the reported candidate if `prime` is that
    /// candidate, and stays otherwise: a candidate that was not chosen is
    /// offered again.
    pub fn mark(&mut self, prime: usize)
        requires
            old(self).well_formed(),
            prime >= 1,
        ensures
            final(self).well_formed(),
            final(self).offset() == old(self).offset(),
            final(self).end() == old(self).end(),
            final(self).limit() == old(self).limit(),
            final(self).reported() is None,
            final(self).cursor() == if old(self).reported() == Some(prime) {
                old(self).cursor() + 1
            } else {
                old(self).cursor()
            },
            marked(
                old(self).bits(),
                final(self).bits(),
                prime as int,
                old(self).end() - 1,
                old(self).offset(),
            ),
    {
        match self.reported {
            Some(candidate) => {
                if candidate == prime {
                    self.cursor += 1;
                }
            },
            None => {},
        }
        self.reported = None;
        if self.size > 0 {
            mark_multiples(&mut self.bits, prime, self.offset + (self.size - 1), self.offset);
        }
    }

    /// The final scan: every number from the cursor to the end of the
    /// segment whose bit is set, in ascending order.
    pub fn remaining(&self) -> (found: Vec<usize>)
        requires
            self.well_formed(),
        ensures
            ints(found@) == set_between(self.bits(), self.offset(), self.cursor(), self.end()),
    {
        let end = self.offset + self.size;
        let mut found: Vec<usize> = Vec::new();
        let mut num = self.cursor;
        assert(ints(found@) =~= Seq::<int>::empty());
        while num < end
            invariant
                self.well_formed(),
                end == self.end(),
                self.cursor() <= num,
                num <= end || num == self.cursor(),
                ints(found@) == set_between(self.bits(), self.offset(), self.cursor(), num as int),
            decreases end - num,
        {
            let ghost so_far = found@;
            if bits_get(&self.bits, num - self.offset) {
                found.push(num);
                proof {
                    lemma_ints_push(so_far, num);
                }
            }
            num += 1;
        }
        found
    }
}

} // verus!
