//! A histogram loaded for post-processing, and the raster mapped from it.
use vstd::prelude::*;
use std::collections::BTreeMap;
use crate::codec::{counter_at, decode_counters};
use crate::regions::sum_counts;

verus! {

/// Relies on image::ColorType, the image writer's name for a pixel layout;
/// it is only carried through to the writer, never inspected.
#[verifier::external_type_specification]
#[verifier::external_body]
pub struct ExColorType(image::ColorType);

/// How often `v` occurs in `s`.
pub open spec fn occurrences(s: Seq<u32>, v: u32) -> nat
    decreases s.len(),
{
    if s.len() == 0 {
        0
    } else {
        occurrences(s.drop_last(), v) + if s.last() == v {
            1nat
        } else {
            0nat
        }
    }
}

/// Each counter value that occurs in `s`, mapped to how often it occurs.
pub open spec fn height_counts(s: Seq<u32>) -> Map<u32, u64> {
    Map::new(|v: u32| occurrences(s, v) > 0, |v: u32| occurrences(s, v) as u64)
}

/// The largest value of a non-empty `s`.
pub open spec fn max_height(s: Seq<u32>) -> u32
    decreases s.len(),
{
    if s.len() <= 1 {
        s[0]
    } else {
        let m = max_height(s.drop_last());
        if s.last() > m {
            s.last()
        } else {
            m
        }
    }
}

/// The counter at pixel index `i` of a file of `bytes`; counters past the
/// end of the file read as zero.
pub open spec fn read_counter(bytes: Seq<u8>, i: int) -> u32 {
    if 4 * i + 4 <= bytes.len() {
        counter_at(bytes, i) as u32
    } else {
        0
    }
}

/// A `width` x `height` grid of counters, row-major.
pub struct ImageData {
    data: Vec<u32>,
    width: usize,
    height: usize,
}

proof fn lemma_max_height_step(s: Seq<u32>, i: int)
    requires
        0 <= i < s.len(),
    ensures
        s.take(i + 1).drop_last() == s.take(i),
        s.take(i + 1).last() == s[i],
{
    assert(s.take(i + 1).drop_last() =~= s.take(i));
}

proof fn lemma_max_height_is_max(s: Seq<u32>)
    requires
        s.len() > 0,
    ensures
        s.contains(max_height(s)),
        forall|i: int| 0 <= i < s.len() ==> s[i] <= max_height(s),
    decreases s.len(),
{
    if s.len() > 1 {
        lemma_max_height_is_max(s.drop_last());
        let m = max_height(s.drop_last());
        let k = choose|k: int| 0 <= k < s.drop_last().len() && s.drop_last()[k] == m;
        assert(s[k] == m);
        assert(s[s.len() - 1] == s.last());
        assert forall|i: int| 0 <= i < s.len() implies s[i] <= max_height(s) by {
            if i < s.len() - 1 {
                assert(s[i] == s.drop_last()[i]);
            }
        }
    } else {
        assert(s[0] == max_height(s));
    }
}

proof fn lemma_sum_prefix(s: Seq<u32>, i: int)
    requires
        0 <= i <= s.len(),
    ensures
        0 <= sum_counts(s.take(i)) <= sum_counts(s),
    decreases s.len(),
{
    if i < s.len() {
        lemma_sum_prefix(s.drop_last(), i);
        assert(s.drop_last().take(i) =~= s.take(i));
    } else {
        assert(s.take(i) =~= s);
        lemma_sum_nonneg(s);
    }
}

proof fn lemma_sum_nonneg(s: Seq<u32>)
    ensures
        0 <= sum_counts(s),
    decreases s.len(),
{
    if s.len() > 0 {
        lemma_sum_nonneg(s.drop_last());
    }
}

impl ImageData {
    pub closed spec fn spec_data(&self) -> Seq<u32> {
        self.data@
    }

    pub closed spec fn spec_width(&self) -> usize {
        self.width
    }

    pub closed spec fn spec_height(&self) -> usize {
        self.height
    }

    /// Loads the first `width * height` counters of a histogram file's bytes;
    /// a short file reads as zeros past its end.
    pub fn read_fully(bytes: &[u8], width: usize, height: usize) -> (r: ImageData)
        requires
            width * height <= usize::MAX,
        ensures
            r.spec_width() == width,
            r.spec_height() == height,
            r.spec_data().len() == width * height,
            forall|i: int| 0 <= i < width * height ==> #[trigger] r.spec_data()[i] == read_counter(bytes@, i),
    {
        let counters = decode_counters(bytes);
        let n = width * height;
        let mut data: Vec<u32> = Vec::with_capacity(n);
        let mut i: usize = 0;
        while i < n
            invariant
                n == width * height,
                i <= n,
                counters@ == crate::codec::decoded(bytes@),
                data@.len() == i,
                forall|k: int| 0 <= k < i ==> #[trigger] data@[k] == read_counter(bytes@, k),
            decreases n - i,
        {
            if i < counters.len() {
                data.push(counters[i]);
            } else {
                data.push(0);
            }
            i += 1;
        }
        ImageData { data, width, height }
    }

    /// The grid of `image1` holding the counters of `image2`.
    pub fn join(image1: ImageData, image2: ImageData) -> (r: ImageData)
        requires
            image2.spec_data().len() >= image1.spec_data().len(),
        ensures
            r.spec_width() == image1.spec_width(),
            r.spec_height() == image1.spec_height(),
            r.spec_data() == image2.spec_data().take(image1.spec_data().len() as int),
    {
        let ghost w = image1.width;
        let ghost h = image1.height;
        let mut joined = image1;
        let n = joined.data.len();
        let mut i: usize = 0;
        while i < n
            invariant
                n == joined.data@.len(),
                n <= image2.data@.len(),
                i <= n,
                forall|k: int| 0 <= k < i ==> #[trigger] joined.data@[k] == image2.data@[k],
                joined.width == w,
                joined.height == h,
            decreases n - i,
        {
            joined.data.set(i, image2.data[i]);
            i += 1;
        }
        assert(joined.data@ =~= image2.data@.take(n as int));
        joined
    }

    /// How many pixels hold each counter value.
    pub fn count_heights(&self) -> (r: BTreeMap<u32, u64>)
        ensures
            r@ == height_counts(self.spec_data()),
    {
        broadcast use vstd::laws_cmp::group_laws_cmp, vstd::std_specs::btree::group_btree_axioms;

        let mut values: BTreeMap<u32, u64> = BTreeMap::new();
        let n = self.data.len();
        let mut i: usize = 0;
        while i < n
            invariant
                n == self.data@.len(),
                i <= n,
                values@ == height_counts(self.data@.take(i as int)),
                forall|v: u32| occurrences(#[trigger] self.data@.take(i as int), v) <= i,
            decreases n - i,
        {
            let height = self.data[i];
            let ghost s = self.data@.take(i as int);
            let ghost t = self.data@.take(i + 1);
            proof {
                assert(t.drop_last() =~= s);
                assert(t.last() == height);
            }
            let count: u64 = match values.get(&height) {
                Some(c) => *c + 1,
                None => 1,
            };
            values.insert(height, count);
            proof {
                assert forall|v: u32| occurrences(t, v) <= i + 1 by {
                    assert(occurrences(self.data@.take(i as int), v) <= i);
                }
                assert(values@ =~= height_counts(t));
            }
            i += 1;
        }
        assert(self.data@.take(n as int) =~= self.data@);
        values
    }

    /// The largest counter.
    pub fn highest(&self) -> (r: u32)
        requires
            self.spec_data().len() > 0,
        ensures
            r == max_height(self.spec_data()),
            self.spec_data().contains(r),
            forall|i: int| 0 <= i < self.spec_data().len() ==> self.spec_data()[i] <= r,
    {
        let n = self.data.len();
        let mut m = self.data[0];
        let mut i: usize = 1;
        assert(self.data@.take(1) =~= seq![self.data@[0]]);
        while i < n
            invariant
                n == self.data@.len(),
                1 <= i <= n,
                m == max_height(self.data@.take(i as int)),
            decreases n - i,
        {
            proof {
                lemma_max_height_step(self.data@, i as int);
            }
            if self.data[i] > m {
                m = self.data[i];
            }
            i += 1;
        }
        assert(self.data@.take(n as int) =~= self.data@);
        proof {
            lemma_max_height_is_max(self.data@);
        }
        m
    }

    /// The sum of all counters.
    pub fn sum(&self) -> (r: u32)
        requires
            sum_counts(self.spec_data()) <= u32::MAX,
        ensures
            r == sum_counts(self.spec_data()),
    {
        let n = self.data.len();
        let mut acc: u32 = 0;
        let mut i: usize = 0;
        while i < n
            invariant
                n == self.data@.len(),
                i <= n,
                acc == sum_counts(self.data@.take(i as int)),
                sum_counts(self.data@) <= u32::MAX,
            decreases n - i,
        {
            proof {
                assert(self.data@.take(i + 1).drop_last() =~= self.data@.take(i as int));
                lemma_sum_prefix(self.data@, i + 1);
            }
            acc = acc + self.data[i];
            i += 1;
        }
        assert(self.data@.take(n as int) =~= self.data@);
        acc
    }

    /// Replaces every counter `v` by `map(v)`; returns the image for
    /// further chained calls.
    pub fn map<F: Fn(u32) -> u32>(&mut self, map: &F) -> (r: &mut ImageData)
        requires
            forall|v: u32| map.requires((v,)),
        ensures
            r.spec_width() == old(self).spec_width(),
            r.spec_height() == old(self).spec_height(),
            r.spec_data().len() == old(self).spec_data().len(),
            forall|i: int|
                0 <= i < old(self).spec_data().len() ==> map.ensures(
                    (old(self).spec_data()[i],),
                    #[trigger] r.spec_data()[i],
                ),
            *final(self) == *final(r),
    {
        let n = self.data.len();
        let mut i: usize = 0;
        while i < n
            invariant
                n == self.data@.len(),
                n == old(self).data@.len(),
                i <= n,
                self.width == old(self).width,
                self.height == old(self).height,
                forall|v: u32| map.requires((v,)),
                forall|k: int| i <= k < n ==> self.data@[k] == old(self).data@[k],
                forall|k: int| 0 <= k < i ==> map.ensures((old(self).data@[k],), #[trigger] self.data@[k]),
            decreases n - i,
        {
            let v = map(self.data[i]);
            self.data.set(i, v);
            i += 1;
        }
        self
    }

    pub fn width(&self) -> (r: usize)
        ensures
            r == self.spec_width(),
    {
        self.width
    }

    pub fn height(&self) -> (r: usize)
        ensures
            r == self.spec_height(),
    {
        self.height
    }

    /// The counters, row-major.
    pub fn data(&self) -> (r: &Vec<u32>)
        ensures
            r@ == self.spec_data(),
    {
        &self.data
    }

    /// A one-byte-per-pixel raster: pixel `i` is `map(counter i, highest
    /// counter)`.
    pub fn map_to_image1<F: Fn(u32, u32) -> u8>(&self, map: &F, color_type: image::ColorType) -> (r: Image)
        requires
            self.spec_data().len() > 0,
            forall|v: u32, h: u32| map.requires((v, h)),
        ensures
            r.spec_width() == self.spec_width(),
            r.spec_height() == self.spec_height(),
            r.spec_color_type() == color_type,
            r.spec_data().len() == self.spec_data().len(),
            forall|i: int|
                0 <= i < self.spec_data().len() ==> map.ensures(
                    (self.spec_data()[i], max_height(self.spec_data())),
                    #[trigger] r.spec_data()[i],
                ),
    {
        let highest = self.highest();
        let n = self.data.len();
        let mut mapped: Vec<u8> = Vec::with_capacity(n);
        let mut i: usize = 0;
        while i < n
            invariant
                n == self.data@.len(),
                i <= n,
                highest == max_height(self.data@),
                forall|v: u32, h: u32| map.requires((v, h)),
                mapped@.len() == i,
                forall|k: int| 0 <= k < i ==> map.ensures((self.data@[k], highest), #[trigger] mapped@[k]),
            decreases n - i,
        {
            let v = map(self.data[i], highest);
            mapped.push(v);
            i += 1;
        }
        Image { data: mapped, color_type, width: self.width, height: self.height }
    }

    /// A three-bytes-per-pixel raster: pixel `i` is the three bytes of
    /// `map(counter i, highest counter)`.
    pub fn map_to_image3<F: Fn(u32, u32) -> [u8; 3]>(&self, map: &F, color_type: image::ColorType) -> (r: Image)
        requires
            self.spec_data().len() > 0,
            3 * self.spec_data().len() <= usize::MAX,
            forall|v: u32, h: u32| map.requires((v, h)),
        ensures
            r.spec_width() == self.spec_width(),
            r.spec_height() == self.spec_height(),
            r.spec_color_type() == color_type,
            r.spec_data().len() == 3 * self.spec_data().len(),
            forall|i: int|
                0 <= i < self.spec_data().len() ==> #[trigger] pixel_mapped3(
                    *map,
                    self.spec_data()[i],
                    max_height(self.spec_data()),
                    r.spec_data(),
                    i,
                ),
    {
        let highest = self.highest();
        let n = self.data.len();
        let mut mapped: Vec<u8> = Vec::with_capacity(3 * n);
        let mut i: usize = 0;
        let ghost mut cs: Seq<[u8; 3]> = Seq::empty();
        while i < n
            invariant
                n == self.data@.len(),
                3 * n <= usize::MAX,
                i <= n,
                highest == max_height(self.data@),
                forall|v: u32, h: u32| map.requires((v, h)),
                mapped@.len() == 3 * i,
                cs.len() == i,
                forall|k: int|
                    0 <= k < i ==> {
                        &&& map.ensures((self.data@[k], highest), #[trigger] cs[k])
                        &&& mapped@[3 * k] == cs[k][0]
                        &&& mapped@[3 * k + 1] == cs[k][1]
                        &&& mapped@[3 * k + 2] == cs[k][2]
                    },
            decreases n - i,
        {
            let c = map(self.data[i], highest);
            let ghost before = mapped@;
            mapped.push(c[0]);
            mapped.push(c[1]);
            mapped.push(c[2]);
            proof {
                let cs0 = cs;
                cs = cs.push(c);
                assert forall|k: int| 0 <= k < i + 1 implies {
                    &&& map.ensures((self.data@[k], highest), #[trigger] cs[k])
                    &&& mapped@[3 * k] == cs[k][0]
                    &&& mapped@[3 * k + 1] == cs[k][1]
                    &&& mapped@[3 * k + 2] == cs[k][2]
                } by {
                    if k < i {
                        assert(cs[k] == cs0[k]);
                        assert(mapped@[3 * k] == before[3 * k]);
                        assert(mapped@[3 * k + 1] == before[3 * k + 1]);
                        assert(mapped@[3 * k + 2] == before[3 * k + 2]);
                    }
                }
            }
            i += 1;
        }
        proof {
            assert forall|k: int| 0 <= k < n implies #[trigger] pixel_mapped3(
                *map,
                self.data@[k],
                highest,
                mapped@,
                k,
            ) by {
                assert(map.ensures((self.data@[k], highest), cs[k]));
            }
        }
        Image { data: mapped, color_type, width: self.width, height: self.height }
    }
}

/// Bytes `3 * i .. 3 * i + 3` of `bytes` are a colour that `map` may give
/// for counter `v` under the highest counter `h`.
pub open spec fn pixel_mapped3<F: Fn(u32, u32) -> [u8; 3]>(map: F, v: u32, h: u32, bytes: Seq<u8>, i: int) -> bool {
    exists|c: [u8; 3]|
        #[trigger] map.ensures((v, h), c) && bytes[3 * i] == c[0] && bytes[3 * i + 1] == c[1]
            && bytes[3 * i + 2] == c[2]
}

/// A raster of bytes ready for the image writer.
pub struct Image {
    data: Vec<u8>,
    color_type: image::ColorType,
    width: usize,
    height: usize,
}

impl Image {
    pub closed spec fn spec_data(&self) -> Seq<u8> {
        self.data@
    }

    pub closed spec fn spec_color_type(&self) -> image::ColorType {
        self.color_type
    }

    pub closed spec fn spec_width(&self) -> usize {
        self.width
    }

    pub closed spec fn spec_height(&self) -> usize {
        self.height
    }

    /// Interleaves three one-byte rasters into one of three bytes per pixel,
    /// with the size of `image1`.
    pub fn join(image1: &Image, image2: &Image, image3: &Image, color_type: image::ColorType) -> (r: Image)
        requires
            image2.spec_data().len() >= image1.spec_data().len(),
            image3.spec_data().len() >= image1.spec_data().len(),
            3 * image1.spec_data().len() <= usize::MAX,
        ensures
            r.spec_width() == image1.spec_width(),
            r.spec_height() == image1.spec_height(),
            r.spec_color_type() == color_type,
            r.spec_data().len() == 3 * image1.spec_data().len(),
            forall|i: int|
                0 <= i < image1.spec_data().len() ==> {
                    &&& #[trigger] r.spec_data()[3 * i] == image1.spec_data()[i]
                    &&& r.spec_data()[3 * i + 1] == image2.spec_data()[i]
                    &&& r.spec_data()[3 * i + 2] == image3.spec_data()[i]
                },
    {
        let n = image1.data.len();
        let mut data: Vec<u8> = Vec::with_capacity(3 * n);
        let mut i: usize = 0;
        while i < n
            invariant
                n == image1.data@.len(),
                n <= image2.data@.len(),
                n <= image3.data@.len(),
                3 * n <= usize::MAX,
                i <= n,
                data@.len() == 3 * i,
                forall|k: int|
                    0 <= k < i ==> {
                        &&& #[trigger] data@[3 * k] == image1.data@[k]
                        &&& data@[3 * k + 1] == image2.data@[k]
                        &&& data@[3 * k + 2] == image3.data@[k]
                    },
            decreases n - i,
        {
            let ghost before = data@;
            data.push(image1.data[i]);
            data.push(image2.data[i]);
            data.push(image3.data[i]);
            proof {
                assert forall|k: int| 0 <= k < i + 1 implies {
                    &&& #[trigger] data@[3 * k] == image1.data@[k]
                    &&& data@[3 * k + 1] == image2.data@[k]
                    &&& data@[3 * k + 2] == image3.data@[k]
                } by {
                    if k < i {
                        assert(data@[3 * k] == before[3 * k]);
                        assert(data@[3 * k + 1] == before[3 * k + 1]);
                        assert(data@[3 * k + 2] == before[3 * k + 2]);
                    }
                }
            }
            i += 1;
        }
        Image { data, color_type, width: image1.width, height: image1.height }
    }

    /// The bytes of the raster.
    pub fn data(&self) -> (r: &Vec<u8>)
        ensures
            r@ == self.spec_data(),
    {
        &self.data
    }

    pub fn color_type(&self) -> (r: image::ColorType)
        ensures
            r == self.spec_color_type(),
    {
        self.color_type
    }

    pub fn width(&self) -> (r: usize)
        ensures
            r == self.spec_width(),
    {
        self.width
    }

    pub fn height(&self) -> (r: usize)
        ensures
            r == self.spec_height(),
    {
        self.height
    }
}

} // verus!
