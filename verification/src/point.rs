//! The point codec: one stored sample is a 12-byte record, a 4-byte
//! big-endian timestamp followed by the 8-byte big-endian IEEE-754 bit
//! pattern of the value. A stored timestamp of zero marks an empty slot.

use vstd::prelude::*;

verus! {

broadcast use vstd::std_specs::vec::group_vec_axioms;

/// Number of bytes of one stored point.
pub const POINT_SIZE: usize = 12;

/// One sample. `value` holds the IEEE-754 double bit pattern of the
/// sampled value; the library moves those bits around unchanged and only
/// combines them when averaging a window during a cascade.
#[derive(Clone, Copy, PartialEq, Eq, Structural, Debug)]
pub struct Point {
    pub timestamp: u64,
    pub value: u64,
}

pub open spec fn spec_u32_to_be_bytes(x: u32) -> Seq<u8> {
    seq![
        (x >> 24) as u8,
        (x >> 16) as u8,
        (x >> 8) as u8,
        x as u8,
    ]
}

pub open spec fn spec_u32_from_be_bytes(s: Seq<u8>) -> u32 {
    (((s[0] as u32) << 24) | ((s[1] as u32) << 16) | ((s[2] as u32) << 8) | (s[3] as u32)) as u32
}

pub open spec fn spec_u64_to_be_bytes(x: u64) -> Seq<u8> {
    seq![
        (x >> 56) as u8,
        (x >> 48) as u8,
        (x >> 40) as u8,
        (x >> 32) as u8,
        (x >> 24) as u8,
        (x >> 16) as u8,
        (x >> 8) as u8,
        x as u8,
    ]
}

pub open spec fn spec_u64_from_be_bytes(s: Seq<u8>) -> u64 {
    (((s[0] as u64) << 56) | ((s[1] as u64) << 48) | ((s[2] as u64) << 40) | ((s[3] as u64) << 32)
        | ((s[4] as u64) << 24) | ((s[5] as u64) << 16) | ((s[6] as u64) << 8) | (s[7] as u64)) as u64
}

/// The 12 bytes that stand for a point whose timestamp fits in 32 bits.
pub open spec fn spec_encode_point(timestamp: u32, value: u64) -> Seq<u8> {
    spec_u32_to_be_bytes(timestamp) + spec_u64_to_be_bytes(value)
}

/// The point read back from the first 12 bytes of `s`.
pub open spec fn spec_decode_point(s: Seq<u8>) -> Point {
    Point {
        timestamp: spec_u32_from_be_bytes(s.subrange(0, 4)) as u64,
        value: spec_u64_from_be_bytes(s.subrange(4, 12)),
    }
}

pub proof fn lemma_u32_be_roundtrip(x: u32)
    ensures
        spec_u32_from_be_bytes(spec_u32_to_be_bytes(x)) == x,
{
    assert((((((x >> 24) as u8) as u32) << 24) | ((((x >> 16) as u8) as u32) << 16)
        | ((((x >> 8) as u8) as u32) << 8) | (((x as u8) as u32))) == x) by (bit_vector);
}

pub proof fn lemma_u64_be_roundtrip(x: u64)
    ensures
        spec_u64_from_be_bytes(spec_u64_to_be_bytes(x)) == x,
{
    assert((((((x >> 56) as u8) as u64) << 56) | ((((x >> 48) as u8) as u64) << 48)
        | ((((x >> 40) as u8) as u64) << 40) | ((((x >> 32) as u8) as u64) << 32)
        | ((((x >> 24) as u8) as u64) << 24) | ((((x >> 16) as u8) as u64) << 16)
        | ((((x >> 8) as u8) as u64) << 8) | (((x as u8) as u64))) == x) by (bit_vector);
}

/// Round-trip law of the codec: decoding an encoded point yields the
/// original timestamp and value bits, for every 32-bit timestamp and
/// every 64-bit value pattern.
pub proof fn lemma_point_codec_roundtrip(timestamp: u32, value: u64)
    ensures
        spec_decode_point(spec_encode_point(timestamp, value)) == (Point {
            timestamp: timestamp as u64,
            value: value,
        }),
{
    let enc = spec_encode_point(timestamp, value);
    assert(enc.subrange(0, 4) =~= spec_u32_to_be_bytes(timestamp));
    assert(enc.subrange(4, 12) =~= spec_u64_to_be_bytes(value));
    lemma_u32_be_roundtrip(timestamp);
    lemma_u64_be_roundtrip(value);
}

/// The 32-bit big-endian word stored at byte offset `off`.
pub open spec fn spec_u32_at(data: Seq<u8>, off: int) -> u32 {
    spec_u32_from_be_bytes(data.subrange(off, off + 4))
}

/// The point stored at byte offset `off`.
pub open spec fn spec_point_at(data: Seq<u8>, off: int) -> Point {
    spec_decode_point(data.subrange(off, off + 12))
}

/// `data` with the bytes at `[off, off + bytes.len())` replaced by `bytes`.
pub open spec fn spec_store_bytes(data: Seq<u8>, off: int, bytes: Seq<u8>) -> Seq<u8> {
    data.take(off) + bytes + data.skip(off + bytes.len())
}

/// Read the big-endian `u32` at byte offset `off`.
pub fn read_u32_at(data: &Vec<u8>, off: usize) -> (r: u32)
    requires
        off + 4 <= data@.len(),
    ensures
        r == spec_u32_at(data@, off as int),
{
    proof {
        vstd::std_specs::vec::axiom_spec_len(data);
    }
    let r: u32 = ((data[off] as u32) << 24) | ((data[off + 1] as u32) << 16)
        | ((data[off + 2] as u32) << 8) | (data[off + 3] as u32);
    proof {
        let s = data@.subrange(off as int, off + 4);
        assert(s[0] == data@[off as int]);
        assert(s[1] == data@[off + 1]);
        assert(s[2] == data@[off + 2]);
        assert(s[3] == data@[off + 3]);
    }
    r
}

/// Read the point stored at byte offset `off`.
pub fn read_point_at(data: &Vec<u8>, off: usize) -> (p: Point)
    requires
        off + 12 <= data@.len(),
    ensures
        p == spec_point_at(data@, off as int),
{
    proof {
        vstd::std_specs::vec::axiom_spec_len(data);
    }
    let ts: u32 = read_u32_at(data, off);
    let value: u64 = ((data[off + 4] as u64) << 56) | ((data[off + 5] as u64) << 48) | ((data[off
        + 6] as u64) << 40) | ((data[off + 7] as u64) << 32) | ((data[off + 8] as u64) << 24) | ((
    data[off + 9] as u64) << 16) | ((data[off + 10] as u64) << 8) | (data[off + 11] as u64);
    proof {
        let s = data@.subrange(off as int, off + 12);
        assert(s.subrange(0, 4) =~= data@.subrange(off as int, off + 4));
        assert(s.subrange(4, 12)[0] == data@[off + 4]);
        assert(s.subrange(4, 12)[1] == data@[off + 5]);
        assert(s.subrange(4, 12)[2] == data@[off + 6]);
        assert(s.subrange(4, 12)[3] == data@[off + 7]);
        assert(s.subrange(4, 12)[4] == data@[off + 8]);
        assert(s.subrange(4, 12)[5] == data@[off + 9]);
        assert(s.subrange(4, 12)[6] == data@[off + 10]);
        assert(s.subrange(4, 12)[7] == data@[off + 11]);
    }
    Point { timestamp: ts as u64, value }
}

/// Write the 12-byte record of `(timestamp, value)` at byte offset `off`,
/// leaving every other byte unchanged.
pub fn write_point_at(data: &mut Vec<u8>, off: usize, timestamp: u64, value: u64)
    requires
        off + 12 <= old(data)@.len(),
        timestamp < 0x1_0000_0000,
    ensures
        final(data)@.len() == old(data)@.len(),
        final(data)@ == spec_store_bytes(old(data)@, off as int, spec_encode_point(
            timestamp as u32, value)),
{
    proof {
        vstd::std_specs::vec::axiom_spec_len(&*data);
    }
    let ts: u32 = timestamp as u32;
    data[off] = (ts >> 24) as u8;
    data[off + 1] = (ts >> 16) as u8;
    data[off + 2] = (ts >> 8) as u8;
    data[off + 3] = ts as u8;
    data[off + 4] = (value >> 56) as u8;
    data[off + 5] = (value >> 48) as u8;
    data[off + 6] = (value >> 40) as u8;
    data[off + 7] = (value >> 32) as u8;
    data[off + 8] = (value >> 24) as u8;
    data[off + 9] = (value >> 16) as u8;
    data[off + 10] = (value >> 8) as u8;
    data[off + 11] = value as u8;
    proof {
        assert(data@ =~= spec_store_bytes(old(data)@, off as int, spec_encode_point(
            timestamp as u32, value)));
    }
}

/// Decode the first 12 bytes of `buf` into a point.
pub fn buf_to_point(buf: &Vec<u8>) -> (p: Point)
    requires
        buf@.len() >= 12,
    ensures
        p == spec_decode_point(buf@),
{
    let ts: u32 = ((buf[0] as u32) << 24) | ((buf[1] as u32) << 16) | ((buf[2] as u32) << 8)
        | (buf[3] as u32);
    let value: u64 = ((buf[4] as u64) << 56) | ((buf[5] as u64) << 48) | ((buf[6] as u64) << 40)
        | ((buf[7] as u64) << 32) | ((buf[8] as u64) << 24) | ((buf[9] as u64) << 16)
        | ((buf[10] as u64) << 8) | (buf[11] as u64);
    proof {
        assert(buf@.subrange(0, 4)[0] == buf@[0]);
        assert(buf@.subrange(0, 4)[1] == buf@[1]);
        assert(buf@.subrange(0, 4)[2] == buf@[2]);
        assert(buf@.subrange(0, 4)[3] == buf@[3]);
        assert(buf@.subrange(4, 12)[0] == buf@[4]);
        assert(buf@.subrange(4, 12)[1] == buf@[5]);
        assert(buf@.subrange(4, 12)[2] == buf@[6]);
        assert(buf@.subrange(4, 12)[3] == buf@[7]);
        assert(buf@.subrange(4, 12)[4] == buf@[8]);
        assert(buf@.subrange(4, 12)[5] == buf@[9]);
        assert(buf@.subrange(4, 12)[6] == buf@[10]);
        assert(buf@.subrange(4, 12)[7] == buf@[11]);
    }
    Point { timestamp: ts as u64, value: value }
}

/// Encode `(interval_ceiling, point_value)` into the first 12 bytes of
/// `buf`, leaving the rest of `buf` unchanged.
pub fn fill_buf(buf: &mut Vec<u8>, interval_ceiling: u64, point_value: u64)
    requires
        old(buf)@.len() >= 12,
        interval_ceiling < 0x1_0000_0000,
    ensures
        final(buf)@.len() == old(buf)@.len(),
        final(buf)@ == spec_encode_point(interval_ceiling as u32, point_value)
            + old(buf)@.skip(12),
{
    let ts: u32 = interval_ceiling as u32;
    buf[0] = (ts >> 24) as u8;
    buf[1] = (ts >> 16) as u8;
    buf[2] = (ts >> 8) as u8;
    buf[3] = ts as u8;
    buf[4] = (point_value >> 56) as u8;
    buf[5] = (point_value >> 48) as u8;
    buf[6] = (point_value >> 40) as u8;
    buf[7] = (point_value >> 32) as u8;
    buf[8] = (point_value >> 24) as u8;
    buf[9] = (point_value >> 16) as u8;
    buf[10] = (point_value >> 8) as u8;
    buf[11] = point_value as u8;
    proof {
        assert(buf@ =~= spec_encode_point(interval_ceiling as u32, point_value)
            + old(buf)@.skip(12));
    }
}

} // verus!
