//! The file header: the metadata record followed by one 12-byte index
//! entry per archive. Reading validates the layout invariants of the
//! format; writing emits the metadata and the entries in order.

use vstd::prelude::*;

use crate::archive_info::ArchiveInfo;
use crate::error::WhisperError;
use crate::metadata::{
    AggregationType, Metadata, spec_aggregation_code, spec_decode_metadata, spec_encode_metadata,
};
use crate::point::{read_u32_at, spec_u32_at, spec_u32_to_be_bytes, lemma_u32_be_roundtrip};

verus! {

broadcast use vstd::std_specs::vec::group_vec_axioms;

/// The in-memory mirror of a file's header.
#[derive(Clone, Debug)]
pub struct Header {
    pub metadata: Metadata,
    pub archive_infos: Vec<ArchiveInfo>,
}

/// The 12 bytes of one archive index entry.
pub open spec fn spec_encode_entry(ai: ArchiveInfo) -> Seq<u8> {
    spec_u32_to_be_bytes(ai.offset as u32) + spec_u32_to_be_bytes(ai.seconds_per_point as u32)
        + spec_u32_to_be_bytes(ai.points as u32)
}

pub open spec fn spec_encode_entries(ars: Seq<ArchiveInfo>) -> Seq<u8>
    decreases ars.len(),
{
    if ars.len() == 0 {
        Seq::empty()
    } else {
        spec_encode_entries(ars.drop_last()) + spec_encode_entry(ars.last())
    }
}

/// The whole header: metadata, then the archive index in order.
pub open spec fn spec_encode_header(md: Metadata, ars: Seq<ArchiveInfo>) -> Seq<u8> {
    spec_encode_metadata(md) + spec_encode_entries(ars)
}

/// The archive descriptor read back from the 12 bytes at `off`, with its
/// retention derived from the stored fields.
pub open spec fn spec_parse_entry(data: Seq<u8>, off: int) -> ArchiveInfo {
    let offset = spec_u32_at(data, off);
    let spp = spec_u32_at(data, off + 4);
    let points = spec_u32_at(data, off + 8);
    ArchiveInfo {
        offset: offset as u64,
        seconds_per_point: spp as u64,
        points: points as u64,
        retention: ((spp as int) * (points as int)) as u64,
    }
}

pub open spec fn spec_parse_entries(data: Seq<u8>, count: int) -> Seq<ArchiveInfo> {
    Seq::new(count as nat, |i: int| spec_parse_entry(data, 16 + 12 * i))
}

/// The layout invariants of a well-formed header: at least one archive,
/// sane per-archive geometry, the first data region right after the
/// index, contiguous regions in declaration order, strictly finer to
/// coarser resolutions, each archive wide enough to fill one slot of the
/// next, and the metadata's retention equal to the coarsest archive's.
pub open spec fn spec_archives_wf(md: Metadata, ars: Seq<ArchiveInfo>) -> bool {
    &&& ars.len() >= 1
    &&& md.archive_count == ars.len()
    &&& (forall|i: int| 0 <= i < ars.len() ==> (#[trigger] ars[i]).wf())
    &&& ars[0].offset == 16 + 12 * ars.len()
    &&& (forall|i: int|
        0 <= i < ars.len() - 1 ==> (#[trigger] ars[i + 1]).offset == ars[i].offset + 12
            * ars[i].points)
    &&& (forall|i: int|
        0 <= i < ars.len() - 1 ==> (#[trigger] ars[i]).seconds_per_point < ars[i
            + 1].seconds_per_point)
    &&& (forall|i: int|
        0 <= i < ars.len() - 1 ==> (#[trigger] ars[i + 1]).seconds_per_point
            / ars[i].seconds_per_point <= ars[i].points)
    &&& md.max_retention == ars[ars.len() - 1].retention
}

/// What reading a header from `data` yields: the metadata and the archive
/// descriptors when the bytes carry a well-formed header, nothing
/// otherwise.
pub open spec fn spec_header_of(data: Seq<u8>) -> Option<(Metadata, Seq<ArchiveInfo>)> {
    if data.len() < 16 {
        None
    } else {
        match spec_decode_metadata(data) {
            None => None,
            Some(md) => {
                let count = md.archive_count as int;
                if data.len() < 16 + 12 * count {
                    None
                } else {
                    let ars = spec_parse_entries(data, count);
                    if spec_archives_wf(md, ars) {
                        Some((md, ars))
                    } else {
                        None
                    }
                }
            },
        }
    }
}

impl Header {
    pub open spec fn wf(self) -> bool {
        spec_archives_wf(self.metadata, self.archive_infos@)
    }

    /// Bytes taken by the metadata and the archive index.
    pub open spec fn spec_header_size(self) -> int {
        16 + 12 * (self.archive_infos@.len() as int)
    }

    /// Total size of a file with this header: the end of the last
    /// archive's data region.
    pub open spec fn spec_total_size(self) -> int {
        let last = self.archive_infos@[self.archive_infos@.len() - 1];
        last.offset + 12 * last.points
    }
}

pub proof fn lemma_encode_entries_len(ars: Seq<ArchiveInfo>)
    ensures
        spec_encode_entries(ars).len() == 12 * ars.len(),
    decreases ars.len(),
{
    if ars.len() > 0 {
        lemma_encode_entries_len(ars.drop_last());
    }
}

pub proof fn lemma_encode_entries_index(ars: Seq<ArchiveInfo>, i: int)
    requires
        0 <= i < ars.len(),
    ensures
        spec_encode_entries(ars).subrange(12 * i, 12 * i + 12) == spec_encode_entry(ars[i]),
    decreases ars.len(),
{
    lemma_encode_entries_len(ars);
    lemma_encode_entries_len(ars.drop_last());
    if i == ars.len() - 1 {
        assert(spec_encode_entries(ars).subrange(12 * i, 12 * i + 12) =~= spec_encode_entry(
            ars.last()));
    } else {
        lemma_encode_entries_index(ars.drop_last(), i);
        assert(spec_encode_entries(ars).subrange(12 * i, 12 * i + 12) =~= spec_encode_entries(
            ars.drop_last()).subrange(12 * i, 12 * i + 12));
    }
}

pub proof fn lemma_encode_entries_push(ars: Seq<ArchiveInfo>, ai: ArchiveInfo)
    ensures
        spec_encode_entries(ars.push(ai)) == spec_encode_entries(ars) + spec_encode_entry(ai),
{
    assert(ars.push(ai).drop_last() =~= ars);
    assert(ars.push(ai).last() == ai);
}

/// The metadata record reads back from the encoded header, whatever
/// follows it.
#[verifier::rlimit(100)]
pub proof fn lemma_decode_encoded_metadata(md: Metadata, ars: Seq<ArchiveInfo>, rest: Seq<u8>)
    ensures
        spec_decode_metadata(spec_encode_header(md, ars) + rest) == Some(md),
        (spec_encode_header(md, ars) + rest).len() == 16 + 12 * ars.len() + rest.len(),
{
    let data = spec_encode_header(md, ars) + rest;
    lemma_encode_entries_len(ars);
    assert(spec_encode_metadata(md).len() == 16);
    let code = spec_aggregation_code(md.aggregation_type);
    assert(data.subrange(0, 4) =~= spec_u32_to_be_bytes(code));
    assert(data.subrange(4, 8) =~= spec_u32_to_be_bytes(md.max_retention));
    assert(data.subrange(8, 12) =~= spec_u32_to_be_bytes(md.x_files_factor));
    assert(data.subrange(12, 16) =~= spec_u32_to_be_bytes(md.archive_count));
    lemma_u32_be_roundtrip(code);
    lemma_u32_be_roundtrip(md.max_retention);
    lemma_u32_be_roundtrip(md.x_files_factor);
    lemma_u32_be_roundtrip(md.archive_count);
    crate::metadata::lemma_aggregation_code_roundtrip(md.aggregation_type);
}

/// Each archive index entry reads back from the encoded header.
#[verifier::rlimit(100)]
pub proof fn lemma_parse_encoded_entry(md: Metadata, ars: Seq<ArchiveInfo>, rest: Seq<u8>, i: int)
    requires
        0 <= i < ars.len(),
        ars[i].wf(),
    ensures
        spec_parse_entry(spec_encode_header(md, ars) + rest, 16 + 12 * i) == ars[i],
{
    let data = spec_encode_header(md, ars) + rest;
    lemma_encode_entries_len(ars);
    assert(spec_encode_metadata(md).len() == 16);
    lemma_encode_entries_index(ars, i);
    let chunk = spec_encode_entry(ars[i]);
    assert(data.subrange(16 + 12 * i, 16 + 12 * i + 4) =~= chunk.subrange(0, 4));
    assert(data.subrange(16 + 12 * i + 4, 16 + 12 * i + 8) =~= chunk.subrange(4, 8));
    assert(data.subrange(16 + 12 * i + 8, 16 + 12 * i + 12) =~= chunk.subrange(8, 12));
    assert(chunk.subrange(0, 4) =~= spec_u32_to_be_bytes(ars[i].offset as u32));
    assert(chunk.subrange(4, 8) =~= spec_u32_to_be_bytes(ars[i].seconds_per_point as u32));
    assert(chunk.subrange(8, 12) =~= spec_u32_to_be_bytes(ars[i].points as u32));
    lemma_u32_be_roundtrip(ars[i].offset as u32);
    lemma_u32_be_roundtrip(ars[i].seconds_per_point as u32);
    lemma_u32_be_roundtrip(ars[i].points as u32);
}

/// Header round-trip: the bytes written for a well-formed header read
/// back as exactly that header, whatever follows them in the file.
#[verifier::rlimit(100)]
pub proof fn lemma_header_roundtrip(md: Metadata, ars: Seq<ArchiveInfo>, rest: Seq<u8>)
    requires
        spec_archives_wf(md, ars),
    ensures
        spec_header_of(spec_encode_header(md, ars) + rest) == Some((md, ars)),
{
    let data = spec_encode_header(md, ars) + rest;
    lemma_decode_encoded_metadata(md, ars, rest);
    let count = md.archive_count as int;
    assert(count == ars.len());
    assert forall|i: int| 0 <= i < count implies spec_parse_entry(data, 16 + 12 * i) == ars[i] by {
        assert(ars[i].wf());
        lemma_parse_encoded_entry(md, ars, rest, i);
    }
    assert(spec_parse_entries(data, count) =~= ars);
}

/// Read and validate the header at the start of `data`.
#[verifier::rlimit(100)]
pub fn read_header(data: &Vec<u8>) -> (r: Result<Header, WhisperError>)
    ensures
        match r {
            Ok(h) => h.wf() && spec_header_of(data@) == Some((h.metadata, h.archive_infos@)),
            Err(e) => spec_header_of(data@) is None && e == WhisperError::HeaderCorrupt,
        },
{
    proof {
        vstd::std_specs::vec::axiom_spec_len(data);
    }
    if data.len() < 16 {
        return Err(WhisperError::HeaderCorrupt);
    }
    let code = read_u32_at(data, 0);
    let aggregation_type = match AggregationType::from_code(code) {
        Some(t) => t,
        None => {
            return Err(WhisperError::HeaderCorrupt);
        },
    };
    let max_retention = read_u32_at(data, 4);
    let x_files_factor = read_u32_at(data, 8);
    let archive_count = read_u32_at(data, 12);
    let metadata = Metadata { aggregation_type, max_retention, x_files_factor, archive_count };
    proof {
        assert(spec_decode_metadata(data@) == Some(metadata));
    }
    let count: u64 = archive_count as u64;
    if count < 1 {
        proof {
            assert(!spec_archives_wf(metadata, spec_parse_entries(data@, count as int)));
        }
        return Err(WhisperError::HeaderCorrupt);
    }
    if (data.len() as u64) < 16 + 12 * count {
        return Err(WhisperError::HeaderCorrupt);
    }
    let ghost spec_ars = spec_parse_entries(data@, count as int);

    let mut archive_infos: Vec<ArchiveInfo> = Vec::new();
    let mut i: u64 = 0;
    while i < count
        invariant
            0 <= i <= count,
            count == archive_count,
            16 + 12 * count <= data@.len(),
            data@.len() <= usize::MAX,
            spec_ars == spec_parse_entries(data@, count as int),
            archive_infos@.len() == i,
            forall|j: int| 0 <= j < i ==> archive_infos@[j] == spec_ars[j],
        decreases count - i,
    {
        let off: usize = (16 + 12 * i) as usize;
        let offset = read_u32_at(data, off);
        let spp = read_u32_at(data, off + 4);
        let points = read_u32_at(data, off + 8);
        proof {
            assert((spp as int) * (points as int) <= 0xFFFF_FFFFu64 * 0xFFFF_FFFFu64)
                by (nonlinear_arith)
                requires
                    spp <= 0xFFFF_FFFFu32 && points <= 0xFFFF_FFFFu32,
            {
            }
        }
        let retention: u64 = (spp as u64) * (points as u64);
        let ai = ArchiveInfo {
            offset: offset as u64,
            seconds_per_point: spp as u64,
            points: points as u64,
            retention,
        };
        proof {
            assert(ai == spec_parse_entry(data@, 16 + 12 * (i as int)));
        }
        archive_infos.push(ai);
        i = i + 1;
    }
    proof {
        assert(archive_infos@ =~= spec_ars);
    }

    // validate the layout invariants; any failure means no well-formed
    // header encodes these bytes
    if archive_infos[0].offset != 16 + 12 * count {
        proof {
            assert(!spec_archives_wf(metadata, spec_ars));
        }
        return Err(WhisperError::HeaderCorrupt);
    }
    let n: usize = archive_infos.len();
    let mut k: usize = 0;
    while k < n
        invariant
            0 <= k <= n,
            n == archive_infos@.len(),
            archive_infos@ == spec_ars,
            data@.len() >= 16,
            spec_decode_metadata(data@) == Some(metadata),
            metadata.archive_count == count,
            count >= 1,
            n == count,
            16 + 12 * (count as int) <= data@.len(),
            spec_ars == spec_parse_entries(data@, count as int),
            forall|j: int| 0 <= j < k ==> (#[trigger] spec_ars[j]).wf(),
            forall|j: int|
                0 <= j < k && j < n - 1 ==> (#[trigger] spec_ars[j + 1]).offset == spec_ars[j].offset
                    + 12 * spec_ars[j].points,
            forall|j: int|
                0 <= j < k && j < n - 1 ==> (#[trigger] spec_ars[j]).seconds_per_point < spec_ars[j
                    + 1].seconds_per_point,
            forall|j: int|
                0 <= j < k && j < n - 1 ==> (#[trigger] spec_ars[j + 1]).seconds_per_point
                    / spec_ars[j].seconds_per_point <= spec_ars[j].points,
        decreases n - k,
    {
        let ai = archive_infos[k];
        proof {
            assert(spec_ars[k as int] == spec_parse_entry(data@, 16 + 12 * (k as int)));
        }
        if ai.seconds_per_point < 1 || ai.points < 1 || ai.offset + 12 * ai.points > 0xFFFF_FFFF {
            proof {
                assert(!spec_ars[k as int].wf());
                assert(!spec_archives_wf(metadata, spec_ars));
            }
            return Err(WhisperError::HeaderCorrupt);
        }
        proof {
            assert((ai.seconds_per_point as int) * (ai.points as int)
                < 0x1_0000_0000_0000_0000) by (nonlinear_arith)
                requires
                    ai.seconds_per_point <= 0xFFFF_FFFFu64 && ai.points <= 0xFFFF_FFFFu64,
            {
            }
            assert(ai.wf());
        }
        if k + 1 < n {
            let next = archive_infos[k + 1];
            if next.offset != ai.offset + 12 * ai.points {
                proof {
                    assert(!spec_archives_wf(metadata, spec_ars));
                }
                return Err(WhisperError::HeaderCorrupt);
            }
            if next.seconds_per_point <= ai.seconds_per_point {
                proof {
                    assert(!spec_archives_wf(metadata, spec_ars));
                }
                return Err(WhisperError::HeaderCorrupt);
            }
            if next.seconds_per_point / ai.seconds_per_point > ai.points {
                proof {
                    assert(!spec_archives_wf(metadata, spec_ars));
                }
                return Err(WhisperError::HeaderCorrupt);
            }
        }
        k = k + 1;
    }
    if (max_retention as u64) != archive_infos[n - 1].retention {
        proof {
            assert(!spec_archives_wf(metadata, spec_ars));
        }
        return Err(WhisperError::HeaderCorrupt);
    }
    let header = Header { metadata, archive_infos };
    proof {
        assert(spec_archives_wf(metadata, spec_ars));
    }
    Ok(header)
}

/// Append the big-endian bytes of `x` to `out`.
fn push_u32_be(out: &mut Vec<u8>, x: u32)
    ensures
        final(out)@ == old(out)@ + spec_u32_to_be_bytes(x),
{
    out.push((x >> 24) as u8);
    out.push((x >> 16) as u8);
    out.push((x >> 8) as u8);
    out.push(x as u8);
    proof {
        assert(out@ =~= old(out)@ + spec_u32_to_be_bytes(x));
    }
}

/// The 16 metadata bytes of a new file image.
fn write_metadata_bytes(md: &Metadata) -> (out: Vec<u8>)
    ensures
        out@ == spec_encode_metadata(*md),
{
    let mut out: Vec<u8> = Vec::new();
    push_u32_be(&mut out, md.aggregation_type.code());
    push_u32_be(&mut out, md.max_retention);
    push_u32_be(&mut out, md.x_files_factor);
    push_u32_be(&mut out, md.archive_count);
    proof {
        assert(out@ =~= spec_encode_metadata(*md));
    }
    out
}

/// Emit the metadata record and the archive index, in order, as the
/// first bytes of a new file image.
#[verifier::rlimit(100)]
pub fn write_header(header: &Header) -> (out: Vec<u8>)
    requires
        header.wf(),
    ensures
        out@ == spec_encode_header(header.metadata, header.archive_infos@),
        out@.len() == header.spec_header_size(),
{
    let mut out: Vec<u8> = write_metadata_bytes(&header.metadata);
    proof {
        assert(spec_encode_metadata(header.metadata) + spec_encode_entries(
            header.archive_infos@.take(0)) =~= out@);
    }
    let ghost ars = header.archive_infos@;
    let n: usize = header.archive_infos.len();
    let mut k: usize = 0;
    while k < n
        invariant
            0 <= k <= n,
            n == ars.len(),
            header.archive_infos@ == ars,
            forall|j: int| 0 <= j < ars.len() ==> (#[trigger] ars[j]).wf(),
            out@ == spec_encode_metadata(header.metadata) + spec_encode_entries(ars.take(k as int)),
        decreases n - k,
    {
        let ai = header.archive_infos[k];
        push_u32_be(&mut out, ai.offset as u32);
        push_u32_be(&mut out, ai.seconds_per_point as u32);
        push_u32_be(&mut out, ai.points as u32);
        proof {
            lemma_encode_entries_push(ars.take(k as int), ars[k as int]);
            assert(ars.take(k as int).push(ars[k as int]) =~= ars.take(k as int + 1));
            assert(out@ =~= spec_encode_metadata(header.metadata) + spec_encode_entries(ars.take(
                k as int + 1)));
        }
        k = k + 1;
    }
    proof {
        assert(ars.take(n as int) =~= ars);
        lemma_encode_entries_len(ars);
    }
    out
}

} // verus!
