//! The sample pipeline's decisions: routing orbits to iteration-range
//! buckets, batching them per bucket, and counting the end-of-worker markers
//! that an aggregator waits for.
use vstd::prelude::*;
use crate::orbit::{bails_out_with, calculate_bailout_iteration, calculate_iteration_values, replays_to};

verus! {

/// The half-open range of escape counts `[min_iterations, max_iterations)`
/// that an image bucket accepts.
#[derive(Clone, Copy, Debug)]
pub struct IterationRange {
    pub min_iterations: usize,
    pub max_iterations: usize,
}

impl IterationRange {
    pub open spec fn spec_accepts(&self, bailout: int) -> bool {
        self.min_iterations <= bailout < self.max_iterations
    }

    /// Whether an orbit that escaped after `bailout` steps belongs here.
    pub fn accepts(&self, bailout: usize) -> (r: bool)
        ensures
            r == self.spec_accepts(bailout as int),
    {
        self.min_iterations <= bailout && bailout < self.max_iterations
    }
}

/// Two buckets whose ranges do not overlap never both accept an orbit.
pub proof fn lemma_disjoint_ranges_isolated(a: IterationRange, b: IterationRange, bailout: int)
    requires
        a.max_iterations <= b.min_iterations || b.max_iterations <= a.min_iterations,
    ensures
        !(a.spec_accepts(bailout) && b.spec_accepts(bailout)),
{
}

/// A worker's per-bucket caches of orbit points awaiting hand-off.
pub struct Worker<Z> {
    ranges: Vec<IterationRange>,
    caches: Vec<Vec<Z>>,
    thread_buffer: usize,
}

impl<Z: Copy> Worker<Z> {
    pub closed spec fn spec_ranges(&self) -> Seq<IterationRange> {
        self.ranges@
    }

    pub closed spec fn spec_caches(&self) -> Seq<Vec<Z>> {
        self.caches@
    }

    pub closed spec fn spec_thread_buffer(&self) -> usize {
        self.thread_buffer
    }

    /// The points cached for bucket `i`.
    pub open spec fn cache(&self, i: int) -> Seq<Z> {
        self.spec_caches()[i]@
    }

    pub open spec fn wf(&self) -> bool {
        self.spec_caches().len() == self.spec_ranges().len()
    }

    /// `after` is `before` once the orbit from `initial`, which escaped after
    /// `bailout` steps, has been replayed into every bucket that accepts it.
    pub open spec fn recorded<N: Fn(Z) -> Option<Z>, B: Fn(Z) -> bool>(
        before: Self,
        after: Self,
        next: N,
        inside: B,
        initial: Z,
        bailout: int,
    ) -> bool {
        &&& after.wf()
        &&& after.spec_ranges() == before.spec_ranges()
        &&& after.spec_thread_buffer() == before.spec_thread_buffer()
        &&& forall|i: int|
            0 <= i < before.spec_ranges().len() ==> {
                let range = #[trigger] before.spec_ranges()[i];
                if range.spec_accepts(bailout) {
                    replays_to(
                        next,
                        inside,
                        initial,
                        range.min_iterations as int,
                        range.max_iterations as int,
                        before.cache(i),
                        after.cache(i),
                    )
                } else {
                    after.cache(i) == before.cache(i)
                }
            }
    }

    /// An orbit lands in at most one of two buckets whose ranges do not
    /// overlap: recording it leaves at least one of their caches as it was.
    pub proof fn lemma_recorded_isolated<N: Fn(Z) -> Option<Z>, B: Fn(Z) -> bool>(
        before: Self,
        after: Self,
        next: N,
        inside: B,
        initial: Z,
        bailout: int,
        i: int,
        j: int,
    )
        requires
            Self::recorded(before, after, next, inside, initial, bailout),
            0 <= i < before.spec_ranges().len(),
            0 <= j < before.spec_ranges().len(),
            before.spec_ranges()[i].max_iterations <= before.spec_ranges()[j].min_iterations
                || before.spec_ranges()[j].max_iterations <= before.spec_ranges()[i].min_iterations,
        ensures
            after.cache(i) == before.cache(i) || after.cache(j) == before.cache(j),
    {
        let a = before.spec_ranges()[i];
        let b = before.spec_ranges()[j];
        lemma_disjoint_ranges_isolated(a, b, bailout);
    }

    /// A worker with one empty cache per bucket; a cache is handed off once
    /// it holds more than `thread_buffer` points.
    pub fn new(ranges: Vec<IterationRange>, thread_buffer: usize) -> (r: Self)
        ensures
            r.wf(),
            r.spec_ranges() == ranges@,
            r.spec_thread_buffer() == thread_buffer,
            forall|i: int| 0 <= i < r.spec_ranges().len() ==> r.cache(i).len() == 0,
    {
        let n = ranges.len();
        let mut caches: Vec<Vec<Z>> = Vec::with_capacity(n);
        let mut i: usize = 0;
        while i < n
            invariant
                i <= n,
                caches@.len() == i,
                forall|j: int| 0 <= j < i ==> (#[trigger] caches@[j])@.len() == 0,
            decreases n - i,
        {
            caches.push(Vec::new());
            i += 1;
        }
        Worker { ranges, caches, thread_buffer }
    }

    /// Replays the orbit from `initial`, which escaped after `bailout` steps,
    /// into the cache of every bucket whose range holds `bailout`.
    pub fn record<N: Fn(Z) -> Option<Z>, B: Fn(Z) -> bool>(
        &mut self,
        next: &N,
        inside: &B,
        initial: Z,
        bailout: usize,
    )
        requires
            old(self).wf(),
            forall|z: Z| next.requires((z,)),
            forall|z: Z| inside.requires((z,)),
        ensures
            Self::recorded(*old(self), *final(self), *next, *inside, initial, bailout as int),
    {
        let n = self.ranges.len();
        let mut i: usize = 0;
        while i < n
            invariant
                n == self.spec_ranges().len(),
                i <= n,
                self.wf(),
                self.spec_ranges() == old(self).spec_ranges(),
                self.spec_thread_buffer() == old(self).spec_thread_buffer(),
                forall|z: Z| next.requires((z,)),
                forall|z: Z| inside.requires((z,)),
                forall|j: int|
                    i <= j < n ==> #[trigger] self.cache(j) == old(self).cache(j),
                forall|j: int|
                    0 <= j < i ==> {
                        let range = #[trigger] old(self).spec_ranges()[j];
                        if range.spec_accepts(bailout as int) {
                            replays_to(
                                *next,
                                *inside,
                                initial,
                                range.min_iterations as int,
                                range.max_iterations as int,
                                old(self).cache(j),
                                self.cache(j),
                            )
                        } else {
                            self.cache(j) == old(self).cache(j)
                        }
                    },
            decreases n - i,
        {
            let range = self.ranges[i];
            if range.accepts(bailout) {
                let ghost before = self.caches@;
                assert forall|j: int| i <= j < n implies before[j]@ == old(self).cache(j) by {
                    assert(self.cache(j) == old(self).cache(j));
                }
                let mut cache: Vec<Z> = Vec::new();
                std::mem::swap(&mut cache, &mut self.caches[i]);
                calculate_iteration_values(
                    next,
                    inside,
                    initial,
                    range.min_iterations,
                    range.max_iterations,
                    &mut cache,
                );
                let ghost new_cache = cache;
                self.caches.set(i, cache);
                proof {
                    assert(self.caches@ == before.update(i as int, new_cache));
                    assert(before[i as int]@ == old(self).cache(i as int));
                    assert forall|j: int| 0 <= j < n && j != i implies #[trigger] self.cache(j)
                        == before[j]@ by {}
                    assert forall|j: int| i + 1 <= j < n implies #[trigger] self.cache(j) == old(self).cache(j) by {
                        assert(self.cache(j) == before[j]@);
                    }
                    assert forall|j: int| 0 <= j < i + 1 implies {
                        let range = #[trigger] old(self).spec_ranges()[j];
                        if range.spec_accepts(bailout as int) {
                            replays_to(
                                *next,
                                *inside,
                                initial,
                                range.min_iterations as int,
                                range.max_iterations as int,
                                old(self).cache(j),
                                self.cache(j),
                            )
                        } else {
                            self.cache(j) == old(self).cache(j)
                        }
                    } by {
                        if j < i {
                            assert(self.cache(j) == before[j]@);
                        }
                    }
                }
            }
            i += 1;
        }
    }

    /// Runs one sample: counts its escape with at most `check_iterations`
    /// steps and, if it escaped, records its orbit. Returns the escape count.
    pub fn process<N: Fn(Z) -> Option<Z>, B: Fn(Z) -> bool>(
        &mut self,
        next: &N,
        inside: &B,
        initial: Z,
        check_iterations: usize,
    ) -> (r: Option<usize>)
        requires
            old(self).wf(),
            forall|z: Z| next.requires((z,)),
            forall|z: Z| inside.requires((z,)),
        ensures
            bails_out_with(*next, *inside, initial, check_iterations as int, r),
            match r {
                Some(k) => Self::recorded(*old(self), *final(self), *next, *inside, initial, k as int),
                None => *final(self) == *old(self),
            },
    {
        let r = calculate_bailout_iteration(next, inside, initial, check_iterations);
        match r {
            Some(k) => {
                self.record(next, inside, initial, k);
            },
            None => {},
        }
        r
    }

    /// Takes out, with their bucket indices in increasing order, the caches
    /// that hold more than `threshold` points, leaving empty ones in their
    /// place.
    fn take_longer_than(&mut self, threshold: usize) -> (r: Vec<(usize, Vec<Z>)>)
        requires
            old(self).wf(),
        ensures
            final(self).wf(),
            final(self).spec_ranges() == old(self).spec_ranges(),
            final(self).spec_thread_buffer() == old(self).spec_thread_buffer(),
            forall|i: int|
                0 <= i < old(self).spec_ranges().len() ==> if old(self).cache(i).len() > threshold {
                    #[trigger] final(self).cache(i).len() == 0
                } else {
                    final(self).cache(i) == old(self).cache(i)
                },
            forall|k: int|
                0 <= k < r@.len() ==> {
                    let (i, batch) = #[trigger] r@[k];
                    &&& i < old(self).spec_ranges().len()
                    &&& old(self).cache(i as int).len() > threshold
                    &&& batch@ == old(self).cache(i as int)
                },
            forall|k: int, l: int| 0 <= k < l < r@.len() ==> r@[k].0 < r@[l].0,
            forall|i: int|
                0 <= i < old(self).spec_ranges().len() && old(self).cache(i).len() > threshold
                    ==> exists|k: int| 0 <= k < r@.len() && #[trigger] r@[k].0 == i,
    {
        let mut r: Vec<(usize, Vec<Z>)> = Vec::new();
        let n = self.caches.len();
        let mut i: usize = 0;
        while i < n
            invariant
                n == old(self).spec_ranges().len(),
                i <= n,
                self.wf(),
                self.spec_ranges() == old(self).spec_ranges(),
                self.spec_thread_buffer() == old(self).spec_thread_buffer(),
                forall|j: int|
                    0 <= j < n ==> if j < i && old(self).cache(j).len() > threshold {
                        #[trigger] self.cache(j).len() == 0
                    } else {
                        self.cache(j) == old(self).cache(j)
                    },
                forall|k: int|
                    0 <= k < r@.len() ==> {
                        let (j, batch) = #[trigger] r@[k];
                        &&& j < i
                        &&& old(self).cache(j as int).len() > threshold
                        &&& batch@ == old(self).cache(j as int)
                    },
                forall|k: int, l: int| 0 <= k < l < r@.len() ==> r@[k].0 < r@[l].0,
                forall|j: int|
                    0 <= j < i && old(self).cache(j).len() > threshold ==> exists|k: int|
                        0 <= k < r@.len() && #[trigger] r@[k].0 == j,
            decreases n - i,
        {
            assert(self.cache(i as int) == old(self).cache(i as int));
            if self.caches[i].len() > threshold {
                let ghost before = self.caches@;
                assert forall|j: int| 0 <= j < n implies if j < i && old(self).cache(j).len()
                    > threshold {
                    before[j]@.len() == 0
                } else {
                    before[j]@ == old(self).cache(j)
                } by {
                    assert(self.cache(j) == before[j]@);
                }
                let ghost r0 = r@;
                let mut batch: Vec<Z> = Vec::new();
                std::mem::swap(&mut batch, &mut self.caches[i]);
                proof {
                    assert(batch@ == old(self).cache(i as int));
                    assert forall|j: int| 0 <= j < n && j != i implies #[trigger] self.cache(j)
                        == before[j]@ by {}
                    assert forall|j: int| 0 <= j < n implies if j < i + 1 && old(self).cache(j).len()
                        > threshold {
                        #[trigger] self.cache(j).len() == 0
                    } else {
                        self.cache(j) == old(self).cache(j)
                    } by {
                        if j != i {
                            assert(self.cache(j) == before[j]@);
                        }
                    }
                }
                r.push((i, batch));
                proof {
                    assert(r@[r@.len() - 1].0 == i);
                    assert forall|k: int| 0 <= k < r@.len() implies {
                        let (j, b) = #[trigger] r@[k];
                        &&& j < i + 1
                        &&& old(self).cache(j as int).len() > threshold
                        &&& b@ == old(self).cache(j as int)
                    } by {
                        if k < r0.len() {
                            assert(r@[k] == r0[k]);
                        }
                    }
                    assert forall|j: int|
                        0 <= j <= i && old(self).cache(j).len() > threshold implies exists|k: int|
                        0 <= k < r@.len() && #[trigger] r@[k].0 == j by {
                        if j < i {
                            let k = choose|k: int| 0 <= k < r0.len() && #[trigger] r0[k].0 == j;
                            assert(r@[k] == r0[k]);
                        }
                    }
                }
            }
            i += 1;
        }
        r
    }

    /// The caches that have grown past the hand-off size, each with its
    /// bucket index; they are replaced by empty caches.
    pub fn take_full(&mut self) -> (r: Vec<(usize, Vec<Z>)>)
        requires
            old(self).wf(),
        ensures
            final(self).wf(),
            final(self).spec_ranges() == old(self).spec_ranges(),
            final(self).spec_thread_buffer() == old(self).spec_thread_buffer(),
            forall|i: int|
                0 <= i < old(self).spec_ranges().len() ==> if old(self).cache(i).len()
                    > old(self).spec_thread_buffer() {
                    #[trigger] final(self).cache(i).len() == 0
                } else {
                    final(self).cache(i) == old(self).cache(i)
                },
            forall|k: int|
                0 <= k < r@.len() ==> {
                    let (i, batch) = #[trigger] r@[k];
                    &&& i < old(self).spec_ranges().len()
                    &&& old(self).cache(i as int).len() > old(self).spec_thread_buffer()
                    &&& batch@ == old(self).cache(i as int)
                },
            forall|k: int, l: int| 0 <= k < l < r@.len() ==> r@[k].0 < r@[l].0,
            forall|i: int|
                0 <= i < old(self).spec_ranges().len() && old(self).cache(i).len()
                    > old(self).spec_thread_buffer() ==> exists|k: int|
                    0 <= k < r@.len() && #[trigger] r@[k].0 == i,
    {
        let threshold = self.thread_buffer;
        self.take_longer_than(threshold)
    }

    /// At the end of the stream: every non-empty cache, each with its bucket
    /// index; all caches are left empty.
    pub fn finish(&mut self) -> (r: Vec<(usize, Vec<Z>)>)
        requires
            old(self).wf(),
        ensures
            final(self).wf(),
            final(self).spec_ranges() == old(self).spec_ranges(),
            forall|i: int|
                0 <= i < old(self).spec_ranges().len() ==> #[trigger] final(self).cache(i).len()
                    == 0,
            forall|k: int|
                0 <= k < r@.len() ==> {
                    let (i, batch) = #[trigger] r@[k];
                    &&& i < old(self).spec_ranges().len()
                    &&& batch@.len() > 0
                    &&& batch@ == old(self).cache(i as int)
                },
            forall|k: int, l: int| 0 <= k < l < r@.len() ==> r@[k].0 < r@[l].0,
            forall|i: int|
                0 <= i < old(self).spec_ranges().len() && old(self).cache(i).len() > 0
                    ==> exists|k: int| 0 <= k < r@.len() && #[trigger] r@[k].0 == i,
    {
        self.take_longer_than(0)
    }

    /// Number of buckets.
    pub fn bucket_count(&self) -> (r: usize)
        requires
            self.wf(),
        ensures
            r == self.spec_ranges().len(),
    {
        self.ranges.len()
    }
}

/// Worst-case bytes a run holds in memory: the workers' and channels' point
/// batches (16 bytes a point, per bucket) and the aggregators' region buffers
/// (4 bytes a pixel).
pub open spec fn ram_estimate_bytes(
    threads: usize,
    channel_buffer: usize,
    thread_buffer: usize,
    buckets: usize,
    total_pixels: usize,
    file_buffer_size: usize,
    pixel_buffer_cutoff_size: usize,
) -> int {
    (threads + channel_buffer) * thread_buffer * 16 * buckets + (total_pixels / file_buffer_size + 1)
        * pixel_buffer_cutoff_size * 4
}

/// The estimate in megabytes (10^6 bytes, rounded down), or `None` when it
/// does not fit in a `u128`.
pub fn estimated_ram_mb(
    threads: usize,
    channel_buffer: usize,
    thread_buffer: usize,
    buckets: usize,
    total_pixels: usize,
    file_buffer_size: usize,
    pixel_buffer_cutoff_size: usize,
) -> (r: Option<u128>)
    requires
        file_buffer_size > 0,
    ensures
        ({
            let b = ram_estimate_bytes(
                threads,
                channel_buffer,
                thread_buffer,
                buckets,
                total_pixels,
                file_buffer_size,
                pixel_buffer_cutoff_size,
            );
            match r {
                Some(mb) => mb == b / 1_000_000,
                None => b > u128::MAX,
            }
        }),
{
    let ghost b = ram_estimate_bytes(
        threads,
        channel_buffer,
        thread_buffer,
        buckets,
        total_pixels,
        file_buffer_size,
        pixel_buffer_cutoff_size,
    );
    let a: u128 = threads as u128 + channel_buffer as u128;
    let regions: u128 = (total_pixels / file_buffer_size) as u128 + 1;
    let ghost batch_term: int = a * thread_buffer * 16 * buckets;
    let ghost buffer_term: int = regions * pixel_buffer_cutoff_size * 4;
    assert(b == batch_term + buffer_term);
    proof {
        assert(0 <= batch_term && 0 <= buffer_term) by (nonlinear_arith)
            requires
                batch_term == a * thread_buffer * 16 * buckets,
                buffer_term == regions * pixel_buffer_cutoff_size * 4,
                a >= 0,
                regions >= 0,
        ;
    }
    if a == 0 || thread_buffer == 0 || buckets == 0 {
        assert(batch_term == 0) by (nonlinear_arith)
            requires
                batch_term == a * thread_buffer * 16 * buckets,
                a == 0 || thread_buffer == 0 || buckets == 0,
        ;
        let buffer_bytes = match regions.checked_mul(pixel_buffer_cutoff_size as u128) {
            Some(v) => v,
            None => {
                assert(buffer_term > u128::MAX) by (nonlinear_arith)
                    requires
                        buffer_term == regions * pixel_buffer_cutoff_size * 4,
                        regions * pixel_buffer_cutoff_size > u128::MAX,
                ;
                return None;
            },
        };
        match buffer_bytes.checked_mul(4) {
            Some(v) => Some(v / 1_000_000),
            None => None,
        }
    } else {
        let batch_bytes = match a.checked_mul(thread_buffer as u128) {
            Some(v) => v,
            None => {
                assert(batch_term > u128::MAX) by (nonlinear_arith)
                    requires
                        batch_term == a * thread_buffer * 16 * buckets,
                        a * thread_buffer > u128::MAX,
                        buckets >= 1,
                ;
                return None;
            },
        };
        let batch_bytes = match batch_bytes.checked_mul(16) {
            Some(v) => v,
            None => {
                assert(batch_term > u128::MAX) by (nonlinear_arith)
                    requires
                        batch_term == batch_bytes * 16 * buckets,
                        batch_bytes * 16 > u128::MAX,
                        buckets >= 1,
                ;
                return None;
            },
        };
        let batch_bytes = match batch_bytes.checked_mul(buckets as u128) {
            Some(v) => v,
            None => {
                return None;
            },
        };
        assert(batch_bytes == batch_term);
        if regions == 0 || pixel_buffer_cutoff_size == 0 {
            assert(buffer_term == 0) by (nonlinear_arith)
                requires
                    buffer_term == regions * pixel_buffer_cutoff_size * 4,
                    regions == 0 || pixel_buffer_cutoff_size == 0,
            ;
            return Some(batch_bytes / 1_000_000);
        }
        let buffer_bytes = match regions.checked_mul(pixel_buffer_cutoff_size as u128) {
            Some(v) => v,
            None => {
                assert(buffer_term > u128::MAX) by (nonlinear_arith)
                    requires
                        buffer_term == regions * pixel_buffer_cutoff_size * 4,
                        regions * pixel_buffer_cutoff_size > u128::MAX,
                ;
                return None;
            },
        };
        let buffer_bytes = match buffer_bytes.checked_mul(4) {
            Some(v) => v,
            None => {
                return None;
            },
        };
        match batch_bytes.checked_add(buffer_bytes) {
            Some(v) => Some(v / 1_000_000),
            None => None,
        }
    }
}

/// An aggregator's receive loop: it drains batches until every worker has
/// sent its end-of-stream marker.
pub struct Drain {
    sentinels: usize,
    threads: usize,
}

impl Drain {
    pub closed spec fn spec_sentinels(&self) -> usize {
        self.sentinels
    }

    pub closed spec fn spec_threads(&self) -> usize {
        self.threads
    }

    pub open spec fn spec_is_done(&self) -> bool {
        self.spec_sentinels() >= self.spec_threads()
    }

    /// Waiting on `threads` workers, none of which has finished.
    pub fn new(threads: usize) -> (r: Self)
        ensures
            r.spec_sentinels() == 0,
            r.spec_threads() == threads,
    {
        Drain { sentinels: 0, threads }
    }

    /// Whether every worker has finished, so the loop may stop.
    pub fn is_done(&self) -> (r: bool)
        ensures
            r == self.spec_is_done(),
    {
        self.sentinels >= self.threads
    }

    /// Counts one end-of-stream marker; returns whether it was the last.
    pub fn on_sentinel(&mut self) -> (done: bool)
        requires
            !old(self).spec_is_done(),
        ensures
            final(self).spec_sentinels() == old(self).spec_sentinels() + 1,
            final(self).spec_threads() == old(self).spec_threads(),
            done == final(self).spec_is_done(),
    {
        self.sentinels = self.sentinels + 1;
        self.sentinels >= self.threads
    }

    pub fn sentinels(&self) -> (r: usize)
        ensures
            r == self.spec_sentinels(),
    {
        self.sentinels
    }
}

} // verus!
