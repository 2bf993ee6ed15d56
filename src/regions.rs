//! The write-optimised core of the disk histogram: pixel increments are
//! buffered per region of the flat counter array and applied one whole region
//! at a time.
use vstd::prelude::*;

verus! {

/// Flat row-major index of pixel `p` in a grid `w` pixels wide.
pub open spec fn flat_index(p: (u64, u64), w: u64) -> int {
    p.1 * w + p.0
}

/// Number of regions of `region_size` counters that cover `w * h` counters.
pub open spec fn region_count_of(w: u64, h: u64, region_size: usize) -> int {
    (w * h + region_size - 1) / region_size as int
}

/// How many pixels of `p` fall on offset `off` of their region.
pub open spec fn hits(p: Seq<(u64, u64)>, w: u64, region_size: usize, off: int) -> nat
    decreases p.len(),
{
    if p.len() == 0 {
        0
    } else {
        hits(p.drop_last(), w, region_size, off) + if flat_index(p.last(), w) % region_size as int
            == off {
            1nat
        } else {
            0nat
        }
    }
}

/// `v` clamped to the range of a `u32` counter.
pub open spec fn saturate(v: int) -> u32 {
    if v > u32::MAX { u32::MAX } else { v as u32 }
}

/// A region's counters after every pixel of `p` has been added to them.
pub open spec fn add_hits(c: Seq<u32>, p: Seq<(u64, u64)>, w: u64, region_size: usize) -> Seq<u32> {
    Seq::new(c.len(), |i: int| saturate(c[i] + hits(p, w, region_size, i)))
}

/// Sum of a run of counters.
pub open spec fn sum_counts(c: Seq<u32>) -> int
    decreases c.len(),
{
    if c.len() == 0 { 0 } else { sum_counts(c.drop_last()) + c.last() }
}

/// Total number of pixels in a list of buffers.
pub open spec fn total_len(b: Seq<Vec<(u64, u64)>>) -> int
    decreases b.len(),
{
    if b.len() == 0 { 0 } else { total_len(b.drop_last()) + b.last()@.len() }
}

/// Per-region buffers of pixel increments awaiting a flush.
pub struct RegionBuffers {
    width: u64,
    height: u64,
    file_buffer_size: usize,
    pixel_buffer_cutoff_size: usize,
    pixel_buffers: Vec<Vec<(u64, u64)>>,
}

proof fn lemma_flat_in_grid(x: u64, y: u64, w: u64, h: u64)
    requires
        x < w,
        y < h,
    ensures
        0 <= y * w + x < w * h,
{
    assert(y * w + x < w * h) by (nonlinear_arith)
        requires
            x < w,
            y < h,
    ;
    assert(0 <= y * w) by (nonlinear_arith);
}

proof fn lemma_region_in_range(flat: int, total: int, size: int)
    requires
        0 <= flat < total,
        size > 0,
    ensures
        0 <= flat / size < (total + size - 1) / size,
{
    assert(flat / size < (total + size - 1) / size) by (nonlinear_arith)
        requires
            0 <= flat < total,
            size > 0,
    {
        assert(flat / size * size <= flat);
        assert((flat / size + 1) * size <= total + size - 1);
        assert((total + size - 1) / size * size + (total + size - 1) % size == total + size - 1);
        assert(0 <= (total + size - 1) % size < size);
    }
    assert(0 <= flat / size) by (nonlinear_arith)
        requires
            0 <= flat,
            size > 0,
    ;
}

impl RegionBuffers {
    /// The buffered pixels, region by region.
    pub closed spec fn buffers(&self) -> Seq<Vec<(u64, u64)>> {
        self.pixel_buffers@
    }

    pub closed spec fn spec_width(&self) -> u64 {
        self.width
    }

    pub closed spec fn spec_height(&self) -> u64 {
        self.height
    }

    pub closed spec fn spec_region_size(&self) -> usize {
        self.file_buffer_size
    }

    pub closed spec fn spec_cutoff(&self) -> usize {
        self.pixel_buffer_cutoff_size
    }

    /// The buffered pixels of region `r`.
    pub open spec fn buffered(&self, r: int) -> Seq<(u64, u64)> {
        self.buffers()[r]@
    }

    /// Number of increments held in memory.
    pub open spec fn pending(&self) -> int {
        total_len(self.buffers())
    }

    /// The geometry fits the machine, there is one buffer per region, and each
    /// buffer holds only in-grid pixels of its own region.
    pub open spec fn wf(&self) -> bool {
        let w = self.spec_width();
        let h = self.spec_height();
        let size = self.spec_region_size();
        &&& size > 0
        &&& 4 * (w * h + size) <= usize::MAX
        &&& self.buffers().len() == region_count_of(w, h, size)
        &&& forall|r: int, k: int|
            0 <= r < self.buffers().len() && 0 <= k < self.buffered(r).len() ==> {
                let p = #[trigger] self.buffered(r)[k];
                &&& p.0 < w
                &&& p.1 < h
                &&& flat_index(p, w) / size as int == r
            }
    }

    /// Empty buffers for a `width` x `height` grid cut into regions of
    /// `file_buffer_size` counters.
    pub fn new(width: u64, height: u64, file_buffer_size: usize, pixel_buffer_cutoff_size: usize) -> (r: Self)
        requires
            file_buffer_size > 0,
            4 * (width * height + file_buffer_size) <= usize::MAX,
        ensures
            r.wf(),
            r.spec_width() == width,
            r.spec_height() == height,
            r.spec_region_size() == file_buffer_size,
            r.spec_cutoff() == pixel_buffer_cutoff_size,
            forall|i: int| 0 <= i < r.buffers().len() ==> r.buffered(i).len() == 0,
    {
        let total = (width * height) as usize;
        let count = (total + file_buffer_size - 1) / file_buffer_size;
        let mut pixel_buffers: Vec<Vec<(u64, u64)>> = Vec::with_capacity(count);
        let mut i: usize = 0;
        while i < count
            invariant
                i <= count,
                pixel_buffers@.len() == i,
                forall|j: int| 0 <= j < i ==> (#[trigger] pixel_buffers@[j])@.len() == 0,
            decreases count - i,
        {
            pixel_buffers.push(Vec::new());
            i += 1;
        }
        RegionBuffers { width, height, file_buffer_size, pixel_buffer_cutoff_size, pixel_buffers }
    }

    /// Records one increment of pixel `(x, y)`. Pixels off the grid are
    /// dropped. Returns the region to flush when its buffer has grown past
    /// the cutoff.
    pub fn add_pixel(&mut self, x: u64, y: u64) -> (r: Option<usize>)
        requires
            old(self).wf(),
        ensures
            final(self).wf(),
            final(self).spec_width() == old(self).spec_width(),
            final(self).spec_height() == old(self).spec_height(),
            final(self).spec_region_size() == old(self).spec_region_size(),
            final(self).spec_cutoff() == old(self).spec_cutoff(),
            final(self).buffers().len() == old(self).buffers().len(),
            x < old(self).spec_width() && y < old(self).spec_height() ==> {
                let reg = flat_index((x, y), old(self).spec_width()) / old(self).spec_region_size() as int;
                &&& final(self).buffered(reg) == old(self).buffered(reg).push((x, y))
                &&& forall|i: int|
                    0 <= i < old(self).buffers().len() && i != reg ==> #[trigger] final(self).buffered(i) == old(self).buffered(i)
                &&& r == if final(self).buffered(reg).len() > old(self).spec_cutoff() {
                    Some(reg as usize)
                } else {
                    None
                }
                &&& final(self).pending() == old(self).pending() + 1
            },
            !(x < old(self).spec_width() && y < old(self).spec_height()) ==> {
                &&& final(self).buffers() == old(self).buffers()
                &&& r.is_none()
            },
    {
        if x < self.width && y < self.height {
            proof {
                lemma_flat_in_grid(x, y, self.width, self.height);
                lemma_region_in_range(
                    y * self.width + x,
                    self.width * self.height,
                    self.file_buffer_size as int,
                );
            }
            let location = (y * self.width + x) as usize;
            let buffer = location / self.file_buffer_size;
            let ghost old_buffers = self.pixel_buffers@;
            let mut pixels: Vec<(u64, u64)> = Vec::new();
            std::mem::swap(&mut pixels, &mut self.pixel_buffers[buffer]);
            pixels.push((x, y));
            let len = pixels.len();
            let ghost new_pixels = pixels;
            self.pixel_buffers.set(buffer, pixels);
            proof {
                assert(self.pixel_buffers@ =~= old_buffers.update(buffer as int, new_pixels));
                assert(self.buffered(buffer as int) == old(self).buffered(buffer as int).push((x, y)));
                lemma_total_len_update(old_buffers, buffer as int, self.pixel_buffers@[buffer as int]);
                assert forall|r: int, k: int|
                    0 <= r < self.buffers().len() && 0 <= k < self.buffered(r).len() implies {
                    let p = #[trigger] self.buffered(r)[k];
                    &&& p.0 < self.spec_width()
                    &&& p.1 < self.spec_height()
                    &&& flat_index(p, self.spec_width()) / self.spec_region_size() as int == r
                } by {
                    if r != buffer as int {
                        assert(self.buffered(r) == old(self).buffered(r));
                    } else if k < old(self).buffered(r).len() {
                        assert(self.buffered(r)[k] == old(self).buffered(r)[k]);
                    }
                }
            }
            if len > self.pixel_buffer_cutoff_size {
                Some(buffer)
            } else {
                None
            }
        } else {
            None
        }
    }

    /// Applies the buffered increments of region `r` to `counts`, the
    /// region's counters as read from the file, and empties the buffer.
    /// Counters saturate at `u32::MAX`.
    pub fn flush_region(&mut self, r: usize, counts: &mut Vec<u32>)
        requires
            old(self).wf(),
            r < old(self).buffers().len(),
            old(counts)@.len() == old(self).spec_region_size(),
        ensures
            final(self).wf(),
            final(self).spec_width() == old(self).spec_width(),
            final(self).spec_height() == old(self).spec_height(),
            final(self).spec_region_size() == old(self).spec_region_size(),
            final(self).spec_cutoff() == old(self).spec_cutoff(),
            final(self).buffers().len() == old(self).buffers().len(),
            final(counts)@ == add_hits(
                old(counts)@,
                old(self).buffered(r as int),
                old(self).spec_width(),
                old(self).spec_region_size(),
            ),
            final(self).buffered(r as int).len() == 0,
            forall|i: int|
                0 <= i < old(self).buffers().len() && i != r ==> #[trigger] final(self).buffered(i)
                    == old(self).buffered(i),
            final(self).pending() == old(self).pending() - old(self).buffered(r as int).len(),
            (forall|i: int|
                0 <= i < old(counts)@.len() ==> old(counts)@[i] + #[trigger] hits(
                    old(self).buffered(r as int),
                    old(self).spec_width(),
                    old(self).spec_region_size(),
                    i,
                ) <= u32::MAX) ==> sum_counts(final(counts)@) == sum_counts(old(counts)@) + old(self).buffered(r as int).len(),
    {
        let ghost c0 = counts@;
        let w = self.width;
        let size = self.file_buffer_size;
        let mut pixels: Vec<(u64, u64)> = Vec::new();
        std::mem::swap(&mut pixels, &mut self.pixel_buffers[r]);
        let ghost p = pixels@;
        assert(p == old(self).buffered(r as int));
        proof {
            assert(add_hits(c0, p.take(0), w, size) =~= c0);
        }
        proof {
            assert forall|j: int| 0 <= j < p.len() implies {
                let q = #[trigger] p[j];
                0 <= flat_index(q, w) <= usize::MAX
            } by {
                let q = p[j];
                assert(old(self).buffered(r as int)[j] == q);
                lemma_flat_in_grid(q.0, q.1, w, self.height);
            }
        }
        let n = pixels.len();
        let mut k: usize = 0;
        while k < n
            invariant
                n == p.len(),
                pixels@ == p,
                k <= n,
                size > 0,
                c0.len() == size,
                counts@ == add_hits(c0, p.take(k as int), w, size),
                forall|j: int| 0 <= j < p.len() ==> {
                    let q = #[trigger] p[j];
                    0 <= flat_index(q, w) <= usize::MAX
                },
            decreases n - k,
        {
            let (x, y) = pixels[k];
            assert(p.take(k + 1) == p.take(k as int).push(p[k as int]));
            let location = (y * w + x) as usize;
            let offset = location % size;
            proof {
                lemma_add_hits_push(c0, p.take(k as int), p[k as int], w, size);
            }
            let v = counts[offset].saturating_add(1);
            counts.set(offset, v);
            k += 1;
        }
        assert(p.take(n as int) =~= p);
        proof {
            if forall|i: int|
                0 <= i < c0.len() ==> c0[i] + #[trigger] hits(p, w, size, i) <= u32::MAX {
                assert forall|j: int| 0 <= j < p.len() implies flat_index(#[trigger] p[j], w)
                    >= 0 by {
                    assert(0 <= flat_index(p[j], w) <= usize::MAX);
                }
                lemma_flush_conserves(c0, p, w, size);
            }
            assert(self.pixel_buffers@ =~= old(self).pixel_buffers@.update(r as int, self.pixel_buffers@[r as int]));
            lemma_total_len_update(old(self).pixel_buffers@, r as int, self.pixel_buffers@[r as int]);
            assert forall|i: int, k: int|
                0 <= i < self.buffers().len() && 0 <= k < self.buffered(i).len() implies {
                let q = #[trigger] self.buffered(i)[k];
                &&& q.0 < self.spec_width()
                &&& q.1 < self.spec_height()
                &&& flat_index(q, self.spec_width()) / self.spec_region_size() as int == i
            } by {
                assert(i != r);
                assert(self.buffered(i) == old(self).buffered(i));
            }
        }
    }

    /// The regions whose buffers hold pixels, in increasing order.
    pub fn dirty_regions(&self) -> (r: Vec<usize>)
        requires
            self.wf(),
        ensures
            forall|k: int|
                0 <= k < r@.len() ==> #[trigger] r@[k] < self.buffers().len() && self.buffered(
                    r@[k] as int,
                ).len() > 0,
            forall|k: int, l: int| 0 <= k < l < r@.len() ==> r@[k] < r@[l],
            forall|i: int|
                0 <= i < self.buffers().len() && self.buffered(i).len() > 0 ==> r@.contains(
                    i as usize,
                ),
    {
        let mut r: Vec<usize> = Vec::new();
        let n = self.pixel_buffers.len();
        let mut i: usize = 0;
        while i < n
            invariant
                n == self.buffers().len(),
                i <= n,
                forall|k: int|
                    0 <= k < r@.len() ==> #[trigger] r@[k] < i && self.buffered(r@[k] as int).len()
                        > 0,
                forall|k: int, l: int| 0 <= k < l < r@.len() ==> r@[k] < r@[l],
                forall|j: int|
                    0 <= j < i && self.buffered(j).len() > 0 ==> r@.contains(j as usize),
            decreases n - i,
        {
            let ghost r0 = r@;
            if self.pixel_buffers[i].len() > 0 {
                r.push(i);
                assert forall|j: int|
                    0 <= j <= i && self.buffered(j).len() > 0 implies r@.contains(j as usize) by {
                    if j < i {
                        let k = choose|k: int| 0 <= k < r0.len() && r0[k] == j as usize;
                        assert(r@[k] == j as usize);
                    } else {
                        assert(r@[r@.len() - 1] == i);
                    }
                }
            }
            i += 1;
        }
        r
    }
}

impl RegionBuffers {
    pub fn width(&self) -> (r: u64)
        ensures
            r == self.spec_width(),
    {
        self.width
    }

    pub fn height(&self) -> (r: u64)
        ensures
            r == self.spec_height(),
    {
        self.height
    }

    /// Counters per region.
    pub fn file_buffer_size(&self) -> (r: usize)
        ensures
            r == self.spec_region_size(),
    {
        self.file_buffer_size
    }

    pub fn pixel_buffer_cutoff_size(&self) -> (r: usize)
        ensures
            r == self.spec_cutoff(),
    {
        self.pixel_buffer_cutoff_size
    }

    /// Number of regions; the last one may reach past the grid.
    pub fn region_count(&self) -> (r: usize)
        requires
            self.wf(),
        ensures
            r == self.buffers().len(),
            r == region_count_of(self.spec_width(), self.spec_height(), self.spec_region_size()),
    {
        self.pixel_buffers.len()
    }

    /// Byte offset of region `r` in the file.
    pub fn region_byte_offset(&self, r: usize) -> (o: u64)
        requires
            self.wf(),
            r < self.buffers().len(),
        ensures
            o == 4 * r * self.spec_region_size(),
    {
        proof {
            lemma_padded_len(self.width * self.height, self.file_buffer_size as int);
            assert(r * self.file_buffer_size <= (self.buffers().len() - 1) * self.file_buffer_size)
                by (nonlinear_arith)
                requires
                    r <= self.buffers().len() - 1,
            ;
            assert((self.buffers().len() - 1) * self.file_buffer_size == self.buffers().len()
                * self.file_buffer_size - self.file_buffer_size) by (nonlinear_arith);
            assert(r * self.file_buffer_size < self.width * self.height);
        }
        let start = (r as u64) * (self.file_buffer_size as u64);
        assert(4 * r * self.spec_region_size() == 4 * (r * self.spec_region_size())) by (nonlinear_arith);
        4 * start
    }

    /// Length of the file in bytes: the grid padded up to whole regions.
    pub fn file_len_bytes(&self) -> (n: u64)
        requires
            self.wf(),
        ensures
            n == 4 * region_count_of(self.spec_width(), self.spec_height(), self.spec_region_size())
                * self.spec_region_size(),
            4 * self.spec_width() * self.spec_height() <= n,
            n < 4 * (self.spec_width() * self.spec_height() + self.spec_region_size()),
    {
        proof {
            lemma_padded_len(self.width * self.height, self.file_buffer_size as int);
        }
        let counters = (self.pixel_buffers.len() as u64) * (self.file_buffer_size as u64);
        assert(4 * region_count_of(self.width, self.height, self.file_buffer_size)
            * self.file_buffer_size == 4 * (region_count_of(self.width, self.height, self.file_buffer_size)
            * self.file_buffer_size)) by (nonlinear_arith);
        assert(4 * self.width * self.height == 4 * (self.width * self.height)) by (nonlinear_arith);
        4 * counters
    }
}

proof fn lemma_padded_len(total: int, size: int)
    requires
        total >= 0,
        size > 0,
    ensures
        ((total + size - 1) / size) * size >= total,
        ((total + size - 1) / size) * size < total + size,
        ((total + size - 1) / size) >= 0,
{
    let q = (total + size - 1) / size;
    let m = (total + size - 1) % size;
    assert(q * size + m == total + size - 1 && 0 <= m < size) by (nonlinear_arith)
        requires
            size > 0,
            q == (total + size - 1) / size,
            m == (total + size - 1) % size,
    ;
    assert(q >= 0) by (nonlinear_arith)
        requires
            size > 0,
            total >= 0,
            q == (total + size - 1) / size,
    ;
}

proof fn lemma_sum_update(s: Seq<u32>, j: int, v: u32)
    requires
        0 <= j < s.len(),
    ensures
        sum_counts(s.update(j, v)) == sum_counts(s) - s[j] + v,
    decreases s.len(),
{
    let u = s.update(j, v);
    if j == s.len() - 1 {
        assert(u.drop_last() =~= s.drop_last());
    } else {
        lemma_sum_update(s.drop_last(), j, v);
        assert(u.drop_last() =~= s.drop_last().update(j, v));
    }
}

/// Flushing a buffer of pixels into a region raises the region's total by
/// exactly the number of pixels: no increment is lost or counted twice, as
/// long as no counter reaches `u32::MAX`.
pub proof fn lemma_flush_conserves(c: Seq<u32>, p: Seq<(u64, u64)>, w: u64, size: usize)
    requires
        size > 0,
        c.len() == size,
        forall|j: int| 0 <= j < p.len() ==> flat_index(#[trigger] p[j], w) >= 0,
        forall|i: int| 0 <= i < size ==> c[i] + #[trigger] hits(p, w, size, i) <= u32::MAX,
    ensures
        sum_counts(add_hits(c, p, w, size)) == sum_counts(c) + p.len(),
    decreases p.len(),
{
    if p.len() == 0 {
        lemma_flush_empty_is_identity(c, p, w, size);
    } else {
        let q = p.last();
        let p0 = p.drop_last();
        assert(p0.push(q) =~= p);
        assert forall|i: int| 0 <= i < size implies c[i] + #[trigger] hits(p0, w, size, i)
            <= u32::MAX by {
            assert(hits(p, w, size, i) >= hits(p0, w, size, i));
        }
        assert forall|j: int| 0 <= j < p0.len() implies flat_index(#[trigger] p0[j], w) >= 0 by {
            assert(p0[j] == p[j]);
        }
        lemma_flush_conserves(c, p0, w, size);
        assert(flat_index(p[p.len() - 1], w) >= 0);
        lemma_add_hits_push(c, p0, q, w, size);
        let off = flat_index(q, w) % size as int;
        let a = add_hits(c, p0, w, size);
        assert(hits(p, w, size, off) == hits(p0, w, size, off) + 1);
        assert(a[off] + 1 <= u32::MAX);
        lemma_sum_update(a, off, (a[off] + 1) as u32);
    }
}

proof fn lemma_sum_concat(a: Seq<u32>, b: Seq<u32>)
    ensures
        sum_counts(a + b) == sum_counts(a) + sum_counts(b),
    decreases b.len(),
{
    if b.len() > 0 {
        lemma_sum_concat(a, b.drop_last());
        assert((a + b).drop_last() =~= a + b.drop_last());
    } else {
        assert(a + b =~= a);
    }
}

/// The file's counters once region `r` (counters `start .. start + size`)
/// has been replaced by `c`.
pub open spec fn with_region(f: Seq<u32>, start: int, size: int, c: Seq<u32>) -> Seq<u32> {
    f.subrange(0, start) + c + f.subrange(start + size, f.len() as int)
}

/// Reading region `r` from the file, flushing buffer `p` into it and writing
/// it back raises the total of all the file's counters by exactly the
/// number of buffered increments, as long as no counter reaches `u32::MAX`.
pub proof fn lemma_file_flush_conserves(f: Seq<u32>, r: int, p: Seq<(u64, u64)>, w: u64, size: usize)
    requires
        size > 0,
        0 <= r,
        (r + 1) * size <= f.len(),
        forall|j: int| 0 <= j < p.len() ==> flat_index(#[trigger] p[j], w) >= 0,
        forall|i: int|
            0 <= i < size ==> f[r * size + i] + #[trigger] hits(p, w, size, i) <= u32::MAX,
    ensures
        ({
            let start = r * size;
            let region = f.subrange(start, start + size);
            sum_counts(with_region(f, start, size as int, add_hits(region, p, w, size))) == sum_counts(f) + p.len()
        }),
{
    let start = r * size;
    assert((r + 1) * size == start + size) by (nonlinear_arith)
        requires
            start == r * size,
    ;
    assert(0 <= start) by (nonlinear_arith)
        requires
            start == r * size,
            0 <= r,
            size > 0,
    ;
    let a = f.subrange(0, start);
    let region = f.subrange(start, start + size);
    let b = f.subrange(start + size, f.len() as int);
    assert(f =~= a + region + b);
    assert forall|i: int| 0 <= i < size implies region[i] + #[trigger] hits(p, w, size, i)
        <= u32::MAX by {
        assert(region[i] == f[r * size + i]);
    }
    lemma_flush_conserves(region, p, w, size);
    let flushed = add_hits(region, p, w, size);
    lemma_sum_concat(a, region);
    lemma_sum_concat(a + region, b);
    lemma_sum_concat(a, flushed);
    lemma_sum_concat(a + flushed, b);
}

/// Flushing a region whose buffer is empty leaves its counters as they are.
pub proof fn lemma_flush_empty_is_identity(c: Seq<u32>, p: Seq<(u64, u64)>, w: u64, size: usize)
    requires
        p.len() == 0,
    ensures
        add_hits(c, p, w, size) == c,
{
    assert(add_hits(c, p, w, size) =~= c);
}

/// A flush empties the buffer, so flushing again, as teardown does, leaves
/// the region's counters as the first flush wrote them.
pub proof fn lemma_flush_twice(c: Seq<u32>, p: Seq<(u64, u64)>, w: u64, size: usize)
    ensures
        add_hits(add_hits(c, p, w, size), Seq::<(u64, u64)>::empty(), w, size) == add_hits(
            c,
            p,
            w,
            size,
        ),
{
    lemma_flush_empty_is_identity(add_hits(c, p, w, size), Seq::<(u64, u64)>::empty(), w, size);
}

proof fn lemma_hit_has_pixel(p: Seq<(u64, u64)>, w: u64, size: usize, off: int)
    requires
        hits(p, w, size, off) > 0,
    ensures
        exists|k: int| 0 <= k < p.len() && flat_index(#[trigger] p[k], w) % size as int == off,
    decreases p.len(),
{
    if hits(p.drop_last(), w, size, off) > 0 {
        lemma_hit_has_pixel(p.drop_last(), w, size, off);
        let k = choose|k: int|
            0 <= k < p.drop_last().len() && flat_index(#[trigger] p.drop_last()[k], w) % size as int
                == off;
        assert(p[k] == p.drop_last()[k]);
    } else {
        assert(flat_index(p[p.len() - 1], w) % size as int == off);
    }
}

/// Every counter that flushing region `r` changes is the counter of a
/// buffered pixel that lies on the grid: `x < width` and `y < height`.
pub proof fn lemma_flush_stays_in_grid(b: RegionBuffers, r: int, c: Seq<u32>, i: int)
    requires
        b.wf(),
        0 <= r < b.buffers().len(),
        c.len() == b.spec_region_size(),
        0 <= i < c.len(),
        add_hits(c, b.buffered(r), b.spec_width(), b.spec_region_size())[i] != c[i],
    ensures
        exists|k: int|
            0 <= k < b.buffered(r).len() && {
                let p = #[trigger] b.buffered(r)[k];
                &&& p.0 < b.spec_width()
                &&& p.1 < b.spec_height()
                &&& flat_index(p, b.spec_width()) == r * b.spec_region_size() + i
            },
{
    let w = b.spec_width();
    let size = b.spec_region_size();
    let p = b.buffered(r);
    assert(hits(p, w, size, i) > 0);
    lemma_hit_has_pixel(p, w, size, i);
    let k = choose|k: int| 0 <= k < p.len() && flat_index(#[trigger] p[k], w) % size as int == i;
    let q = p[k];
    let f = flat_index(q, w);
    assert(f / size as int == r);
    assert(f == (f / size as int) * size + f % size as int) by (nonlinear_arith)
        requires
            size > 0,
    ;
}

proof fn lemma_total_len_update(b: Seq<Vec<(u64, u64)>>, r: int, v: Vec<(u64, u64)>)
    requires
        0 <= r < b.len(),
    ensures
        total_len(b.update(r, v)) == total_len(b) - b[r]@.len() + v@.len(),
    decreases b.len(),
{
    let u = b.update(r, v);
    if r == b.len() - 1 {
        assert(u.drop_last() =~= b.drop_last());
    } else {
        lemma_total_len_update(b.drop_last(), r, v);
        assert(u.drop_last() =~= b.drop_last().update(r, v));
    }
}

proof fn lemma_add_hits_push(c: Seq<u32>, p: Seq<(u64, u64)>, q: (u64, u64), w: u64, size: usize)
    requires
        size > 0,
        c.len() == size,
        flat_index(q, w) >= 0,
    ensures
        ({
            let off = flat_index(q, w) % size as int;
            let a = add_hits(c, p, w, size);
            add_hits(c, p.push(q), w, size) == a.update(off, saturate(a[off] + 1))
        }),
{
    let off = flat_index(q, w) % size as int;
    let a = add_hits(c, p, w, size);
    assert(p.push(q).drop_last() =~= p);
    assert forall|i: int| 0 <= i < c.len() implies #[trigger] add_hits(c, p.push(q), w, size)[i]
        == a.update(off, saturate(a[off] + 1))[i] by {
        assert(hits(p.push(q), w, size, i) == hits(p, w, size, i) + if off == i {
            1nat
        } else {
            0nat
        });
    }
    assert(add_hits(c, p.push(q), w, size) =~= a.update(off, saturate(a[off] + 1)));
}

} // verus!
