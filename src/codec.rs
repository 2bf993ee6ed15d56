//! The histogram file format: a flat array of little-endian `u32` counters.
use vstd::prelude::*;

verus! {

/// The counter stored in four little-endian bytes.
pub open spec fn le_value(b0: u8, b1: u8, b2: u8, b3: u8) -> int {
    b0 as int + 256 * (b1 as int) + 65536 * (b2 as int) + 16777216 * (b3 as int)
}

/// Byte `k` (0 = least significant) of the little-endian form of `v`.
pub open spec fn le_byte(v: u32, k: int) -> u8 {
    ((v as int / pow256(k)) % 256) as u8
}

pub open spec fn pow256(k: int) -> int {
    if k <= 0 { 1 } else if k == 1 { 256 } else if k == 2 { 65536 } else { 16777216 }
}

/// The counter at index `i` of a byte buffer holding counters back to back.
pub open spec fn counter_at(bytes: Seq<u8>, i: int) -> int {
    le_value(bytes[4 * i], bytes[4 * i + 1], bytes[4 * i + 2], bytes[4 * i + 3])
}

/// The counters that a byte buffer holds; trailing bytes short of a full
/// counter are ignored.
pub open spec fn decoded(bytes: Seq<u8>) -> Seq<u32> {
    Seq::new((bytes.len() / 4) as nat, |i: int| counter_at(bytes, i) as u32)
}

/// The bytes that hold a sequence of counters.
pub open spec fn encoded(counts: Seq<u32>) -> Seq<u8> {
    Seq::new(4 * counts.len(), |j: int| le_byte(counts[j / 4], j % 4))
}

proof fn lemma_le_value_bound(b0: u8, b1: u8, b2: u8, b3: u8)
    ensures
        0 <= le_value(b0, b1, b2, b3) <= u32::MAX,
{
}

fn read_le(b0: u8, b1: u8, b2: u8, b3: u8) -> (r: u32)
    ensures
        r == le_value(b0, b1, b2, b3),
{
    let r = (b0 as u32) | ((b1 as u32) << 8u32) | ((b2 as u32) << 16u32) | ((b3 as u32) << 24u32);
    assert(r == b0 as u32 + 256 * (b1 as u32) + 65536 * (b2 as u32) + 16777216 * (b3 as u32)) by (bit_vector)
        requires
            r == (b0 as u32) | ((b1 as u32) << 8u32) | ((b2 as u32) << 16u32) | ((b3 as u32) << 24u32),
    ;
    r
}

fn write_le(v: u32) -> (r: (u8, u8, u8, u8))
    ensures
        r.0 == le_byte(v, 0),
        r.1 == le_byte(v, 1),
        r.2 == le_byte(v, 2),
        r.3 == le_byte(v, 3),
{
    let b0 = (v & 0xffu32) as u8;
    let b1 = ((v >> 8u32) & 0xffu32) as u8;
    let b2 = ((v >> 16u32) & 0xffu32) as u8;
    let b3 = ((v >> 24u32) & 0xffu32) as u8;
    assert(v & 0xffu32 == v % 256 && (v >> 8u32) & 0xffu32 == (v / 256) % 256 && (v >> 16u32)
        & 0xffu32 == (v / 65536) % 256 && (v >> 24u32) & 0xffu32 == (v / 16777216) % 256)
        by (bit_vector);
    (b0, b1, b2, b3)
}

/// Reads the counters held back to back in `bytes`.
pub fn decode_counters(bytes: &[u8]) -> (r: Vec<u32>)
    ensures
        r@ == decoded(bytes@),
{
    let len = bytes.len();
    let n = len / 4;
    assert(4 * n <= bytes@.len() <= usize::MAX);
    let mut r: Vec<u32> = Vec::with_capacity(n);
    let mut i: usize = 0;
    while i < n
        invariant
            n == bytes@.len() / 4,
            4 * n <= bytes@.len() <= usize::MAX,
            i <= n,
            r@.len() == i,
            forall|k: int| 0 <= k < i ==> r@[k] == counter_at(bytes@, k),
        decreases n - i,
    {
        assert(4 * i + 4 <= bytes@.len());
        let k: usize = 4 * i;
        let v = read_le(bytes[k], bytes[k + 1], bytes[k + 2], bytes[k + 3]);
        r.push(v);
        i += 1;
    }
    assert(r@ =~= decoded(bytes@));
    r
}

/// Writes counters back to back as little-endian bytes.
pub fn encode_counters(counts: &[u32]) -> (r: Vec<u8>)
    requires
        4 * counts@.len() <= usize::MAX,
    ensures
        r@ == encoded(counts@),
{
    let n = counts.len();
    let mut r: Vec<u8> = Vec::with_capacity(4 * n);
    let mut i: usize = 0;
    while i < n
        invariant
            n == counts@.len(),
            4 * n <= usize::MAX,
            i <= n,
            r@.len() == 4 * i,
            forall|j: int| 0 <= j < 4 * i ==> r@[j] == le_byte(counts@[j / 4], j % 4),
        decreases n - i,
    {
        let (b0, b1, b2, b3) = write_le(counts[i]);
        r.push(b0);
        r.push(b1);
        r.push(b2);
        r.push(b3);
        i += 1;
    }
    assert(r@ =~= encoded(counts@));
    r
}

/// Reading back what was written gives the same counters: the format is
/// fixed little-endian, whatever the host.
pub proof fn lemma_round_trip(counts: Seq<u32>)
    ensures
        decoded(encoded(counts)) == counts,
{
    let e = encoded(counts);
    assert forall|i: int| 0 <= i < counts.len() implies #[trigger] decoded(e)[i] == counts[i] by {
        let v = counts[i];
        assert(e[4 * i] == le_byte(v, 0));
        assert(e[4 * i + 1] == le_byte(v, 1));
        assert(e[4 * i + 2] == le_byte(v, 2));
        assert(e[4 * i + 3] == le_byte(v, 3));
        let vi = v as int;
        assert(vi % 256 + 256 * ((vi / 256) % 256) + 65536 * ((vi / 65536) % 256) + 16777216 * ((
        vi / 16777216) % 256) == vi) by (nonlinear_arith)
            requires
                0 <= vi < 0x1_0000_0000,
        ;
    }
    assert(decoded(e) =~= counts);
}

} // verus!
