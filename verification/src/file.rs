//! The file object and its cascading write path, working on an in-memory
//! image of the file's bytes. A write selects the finest archive whose
//! retention still covers the sample, stores the aligned point there, and
//! then folds the sample's window from each archive into the next coarser
//! one until the coverage threshold stops the cascade.

use vstd::prelude::*;
use vstd::arithmetic::div_mod::{
    lemma_fundamental_div_mod, lemma_mod_bound, lemma_small_mod, lemma_mod_sub_multiples_vanish,
};
use vstd::arithmetic::mul::lemma_mul_inequality;

use crate::archive_info::ArchiveInfo;
use crate::error::WhisperError;
use crate::header::{
    spec_archives_wf, spec_encode_header, spec_header_of, Header, read_header, write_header,
};
use crate::schema::{lemma_prefix_points_mono, spec_prefix_points, Schema};
use crate::metadata::{AggregationType, Metadata};
use crate::point::{
    read_point_at, spec_encode_point, spec_point_at, spec_store_bytes, Point,
};
use crate::value::{coverage_below, mean_bits, spec_coverage_below, spec_mean_bits};
use crate::write_op::{build_write_op, WriteOp};

verus! {

broadcast use vstd::std_specs::vec::group_vec_axioms;

/// An open file: the header read at open (or written at creation) and
/// the image of the file's bytes, updated in place by writes.
pub struct WhisperFile {
    pub header: Header,
    pub data: Vec<u8>,
}

/// The first index at or after `i` whose archive still retains a sample
/// of the given age, in declaration (finest-first) order.
pub open spec fn spec_split(ars: Seq<ArchiveInfo>, age: int, i: int) -> Option<int>
    decreases ars.len() - i when 0 <= i <= ars.len()
{
    if i >= ars.len() {
        None
    } else if ars[i].retention > age {
        Some(i)
    } else {
        spec_split(ars, age, i + 1)
    }
}

/// The value bits of the window slots whose stored timestamp matches the
/// expected one, in window order: slot `start_slot + j` (mod ring) must
/// hold `wstart + j * seconds_per_point` to be kept.
pub open spec fn spec_kept_values(
    data: Seq<u8>,
    fine: ArchiveInfo,
    wstart: int,
    start_slot: int,
    count: int,
) -> Seq<u64>
    decreases count,
{
    if count <= 0 {
        Seq::empty()
    } else {
        let prev = spec_kept_values(data, fine, wstart, start_slot, count - 1);
        let j = count - 1;
        let idx = (start_slot + j) % (fine.points as int);
        let p = spec_point_at(data, fine.offset + 12 * idx);
        let expected = wstart + j * (fine.seconds_per_point as int);
        if p.timestamp == expected {
            prev.push(p.value)
        } else {
            prev
        }
    }
}

/// The aggregate written into a coarse slot, when coverage allows one:
/// the mean of the kept values under `Average`, the reserved default
/// otherwise; nothing when no value was kept or coverage falls below the
/// x-files-factor.
pub open spec fn spec_aggregate(md: Metadata, kept: Seq<u64>, possible: int) -> Option<u64> {
    if kept.len() == 0 || spec_coverage_below(kept.len() as int, possible, md.x_files_factor) {
        None
    } else if md.aggregation_type is Average {
        Some(spec_mean_bits(kept))
    } else {
        Some(0u64)
    }
}

/// The slot where a window anchored at `wstart` starts in the fine
/// archive: slot 0 of an empty archive, the ring slot of `wstart`
/// relative to the base timestamp otherwise.
pub open spec fn spec_fine_start_slot(data: Seq<u8>, fine: ArchiveInfo, wstart: int) -> int {
    let fbase = spec_point_at(data, fine.offset as int).timestamp as int;
    if fbase == 0 {
        0
    } else {
        fine.spec_slot_index(wstart, fbase)
    }
}

/// One downsampling step from `fine` into `coarse`, anchored at the
/// written sample's timestamp: either the planned coarse slot write, or
/// nothing when the kept fine slots do not reach the coverage threshold.
pub open spec fn spec_downsample(
    data: Seq<u8>,
    md: Metadata,
    fine: ArchiveInfo,
    coarse: ArchiveInfo,
    anchor: int,
) -> Option<(int, Seq<u8>)> {
    let wstart = coarse.spec_interval_ceiling(anchor);
    let needed = (coarse.seconds_per_point as int) / (fine.seconds_per_point as int);
    let start_slot = spec_fine_start_slot(data, fine, wstart);
    let kept = spec_kept_values(data, fine, wstart, start_slot, needed);
    match spec_aggregate(md, kept, needed) {
        None => None,
        Some(agg) => {
            let cbase = spec_point_at(data, coarse.offset as int).timestamp as int;
            let woff = coarse.spec_seek_offset(wstart, cbase);
            Some((woff, spec_encode_point(wstart as u32, agg)))
        },
    }
}

/// The cascade from archive `i` upward: apply each step's write and move
/// on; the first skipped step stops the cascade.
pub open spec fn spec_cascade(
    data: Seq<u8>,
    md: Metadata,
    ars: Seq<ArchiveInfo>,
    i: int,
    anchor: int,
) -> Seq<u8>
    decreases ars.len() - i when 0 <= i
{
    if i < 0 || i + 1 >= ars.len() {
        data
    } else {
        match spec_downsample(data, md, ars[i], ars[i + 1], anchor) {
            None => data,
            Some((off, bytes)) => spec_cascade(
                spec_store_bytes(data, off, bytes),
                md,
                ars,
                i + 1,
                anchor,
            ),
        }
    }
}

/// Cascade monotonicity: when downsampling into the next coarser archive
/// is skipped, the cascade ends there, so within the same write no
/// coarser archive is touched either.
pub proof fn lemma_cascade_stops_at_skip(
    data: Seq<u8>,
    md: Metadata,
    ars: Seq<ArchiveInfo>,
    i: int,
    anchor: int,
)
    requires
        0 <= i,
        i + 1 < ars.len() ==> spec_downsample(data, md, ars[i], ars[i + 1], anchor) is None,
    ensures
        spec_cascade(data, md, ars, i, anchor) == data,
{
}

/// With a zero coverage threshold, one kept sample is enough to
/// aggregate, and the aggregate of a single sample under `Average` is
/// that sample's mean.
pub proof fn lemma_single_sample_aggregated(md: Metadata, v: u64, possible: int)
    requires
        md.x_files_factor == 0u32,
        md.aggregation_type is Average,
        possible >= 1,
    ensures
        spec_aggregate(md, seq![v], possible) == Some(spec_mean_bits(seq![v])),
{
    assert(!crate::value::spec_xff_sign(0u32)) by (bit_vector);
    assert(crate::value::spec_xff_exp(0u32) == 0) by (bit_vector);
    assert(crate::value::spec_xff_frac(0u32) == 0) by (bit_vector);
    assert(1 * vstd::arithmetic::power2::pow2(150) >= 0) by (nonlinear_arith)
        requires
            vstd::arithmetic::power2::pow2(150) >= 0,
    {
    }
    assert(crate::value::spec_xff_m(0u32) == 0);
    assert(crate::value::spec_xff_m(0u32) * vstd::arithmetic::power2::pow2(
        crate::value::spec_xff_e(0u32) as nat,
    ) * possible == 0) by (nonlinear_arith)
        requires
            crate::value::spec_xff_m(0u32) == 0,
    {
    }
    assert(!spec_coverage_below(1, possible, 0u32));
}

/// The image after the primary write: the aligned point, stored in the
/// slot that the archive's base timestamp assigns it.
pub open spec fn spec_primary_written(data: Seq<u8>, ai: ArchiveInfo, ts: int, value: u64) -> Seq<
    u8,
> {
    let base = spec_point_at(data, ai.offset as int).timestamp as int;
    let off = ai.spec_seek_offset(ts, base);
    spec_store_bytes(data, off, spec_encode_point(ai.spec_interval_ceiling(ts) as u32, value))
}

/// Idempotence of the primary write: repeating the same point's write on
/// the image it produced seeks the same slot and stores the same bytes,
/// so the image does not change again. Whether the first write seeded an
/// empty archive or rewrote slot 0, the base timestamp it leaves behind
/// sends the repeated write to the slot it already filled.
pub proof fn lemma_primary_write_idempotent(data: Seq<u8>, ai: ArchiveInfo, ts: int, value: u64)
    requires
        ai.wf(),
        0 <= ts < 0x1_0000_0000,
        ai.offset + 12 * ai.points <= data.len(),
    ensures
        spec_primary_written(spec_primary_written(data, ai, ts, value), ai, ts, value)
            == spec_primary_written(data, ai, ts, value),
{
    let spp = ai.seconds_per_point as int;
    let pts = ai.points as int;
    let base = spec_point_at(data, ai.offset as int).timestamp as int;
    let off = ai.spec_seek_offset(ts, base);
    let aligned = ai.spec_interval_ceiling(ts);
    let enc = spec_encode_point(aligned as u32, value);
    let d1 = spec_store_bytes(data, off, enc);
    let base1 = spec_point_at(d1, ai.offset as int).timestamp as int;
    let off1 = ai.spec_seek_offset(ts, base1);

    lemma_mod_bound(ts, spp);
    vstd::arithmetic::div_mod::lemma_mod_decreases(ts as nat, spp as nat);
    assert(0 <= aligned < 0x1_0000_0000);
    crate::archive_info::lemma_seek_within_archive(ai, ts, base);
    assert(off + 12 <= data.len()) by {
        lemma_mul_inequality(1, pts, 12);
    }
    assert(d1.len() == data.len());

    if off == ai.offset {
        // slot 0 now holds the aligned timestamp
        assert(d1.subrange(ai.offset as int, ai.offset + 12) =~= enc);
        crate::point::lemma_point_codec_roundtrip(aligned as u32, value);
        assert(base1 == aligned);
    } else {
        // slot 0 is untouched: the base stays what it was
        assert(d1.subrange(ai.offset as int, ai.offset + 12) =~= data.subrange(
            ai.offset as int,
            ai.offset + 12,
        ));
        assert(base1 == base);
    }

    // the repeated seek lands on the very slot the first write filled
    if base1 == aligned && base1 != 0 {
        assert((aligned - aligned) / spp == 0) by {
            vstd::arithmetic::div_mod::lemma_div_of0(spp);
        }
        assert(0int % pts == 0) by {
            lemma_small_mod(0nat, pts as nat);
        }
        assert(ai.spec_slot_index(aligned, base1) == 0);
        assert(off1 == ai.offset);
    }
    if base == 0 {
        assert(off == ai.offset);
        if aligned == 0 {
            assert(base1 == 0);
            assert(off1 == ai.offset);
        } else {
            assert(off1 == ai.offset);
        }
    } else {
        if off == ai.offset {
            if aligned == 0 {
                // the stored record's timestamp is zero only when the
                // aligned timestamp was zero, so the base reads as empty
                assert(base1 == 0);
                assert(off1 == ai.offset);
            } else {
                assert(off1 == ai.offset);
            }
        } else {
            assert(base1 == base);
            assert(off1 == off);
        }
    }
    assert(off1 == off);

    // storing the same bytes at the same place changes nothing further
    assert(spec_store_bytes(d1, off, enc) =~= d1);
}

/// The whole write path over the image: select the finest covering
/// archive, store the point, cascade upward.
pub open spec fn spec_write(
    data: Seq<u8>,
    md: Metadata,
    ars: Seq<ArchiveInfo>,
    current_time: int,
    ts: int,
    value: u64,
) -> Seq<u8> {
    match spec_split(ars, current_time - ts, 0) {
        None => data,
        Some(i) => spec_cascade(spec_primary_written(data, ars[i], ts, value), md, ars, i, ts),
    }
}

/// In a well-formed header the end of each archive's data region is at
/// most the end of the last one's, which is the file's size.
pub proof fn lemma_archive_end_le_total(md: Metadata, ars: Seq<ArchiveInfo>, i: int)
    requires
        spec_archives_wf(md, ars),
        0 <= i < ars.len(),
    ensures
        ars[i].offset + 12 * ars[i].points <= ars[ars.len() - 1].offset + 12 * ars[ars.len()
            - 1].points,
    decreases ars.len() - i,
{
    if i < ars.len() - 1 {
        lemma_archive_end_le_total(md, ars, i + 1);
        assert(ars[i + 1].offset == ars[i].offset + 12 * ars[i].points);
        assert(ars[i + 1].wf());
        lemma_mul_inequality(1, ars[i + 1].points as int, 12);
    }
}

/// The archive descriptors that a schema lays out: contiguous data
/// regions right after the index, in the schema's order.
pub open spec fn spec_archives_of(ps: Seq<crate::schema::RetentionPolicy>) -> Seq<ArchiveInfo> {
    Seq::new(
        ps.len(),
        |i: int|
            ArchiveInfo {
                offset: (16 + 12 * (ps.len() as int) + 12 * spec_prefix_points(ps, i)) as u64,
                seconds_per_point: ps[i].precision,
                points: ps[i].spec_points() as u64,
                retention: ps[i].retention,
            },
    )
}

impl WhisperFile {
    /// A usable handle: a well-formed header whose declared layout is
    /// exactly the image's size.
    pub open spec fn wf(self) -> bool {
        &&& self.header.wf()
        &&& self.data@.len() == self.header.spec_total_size()
    }

    /// Index of the finest archive that retains a sample of age
    /// `current_time - point_timestamp`, if any does.
    pub fn split(&self, current_time: u64, point_timestamp: u64) -> (r: Option<usize>)
        requires
            self.wf(),
            point_timestamp <= current_time,
        ensures
            match r {
                Some(i) => i < self.header.archive_infos@.len() && spec_split(
                    self.header.archive_infos@,
                    current_time - point_timestamp,
                    0,
                ) == Some(i as int),
                None => spec_split(
                    self.header.archive_infos@,
                    current_time - point_timestamp,
                    0,
                ) is None,
            },
    {
        let age: u64 = current_time - point_timestamp;
        let ghost ars = self.header.archive_infos@;
        let n: usize = self.header.archive_infos.len();
        let mut i: usize = 0;
        while i < n
            invariant
                0 <= i <= n,
                n == ars.len(),
                self.header.archive_infos@ == ars,
                age == current_time - point_timestamp,
                spec_split(ars, age as int, 0) == spec_split(ars, age as int, i as int),
            decreases n - i,
        {
            if self.header.archive_infos[i].retention > age {
                proof {
                    assert(spec_split(ars, age as int, i as int) == Some(i as int));
                }
                return Some(i);
            }
            i = i + 1;
        }
        None
    }

    /// The point stored at absolute byte offset `offset` of the image.
    pub fn read_point(&self, offset: u64) -> (p: Point)
        requires
            offset + 12 <= self.data@.len(),
        ensures
            p == spec_point_at(self.data@, offset as int),
            p.timestamp < 0x1_0000_0000,
    {
        proof {
            vstd::std_specs::vec::axiom_spec_len(&self.data);
        }
        let p = read_point_at(&self.data, offset as usize);
        proof {
            let s = self.data@.subrange(offset as int, offset as int + 12);
            crate::point::lemma_u32_be_roundtrip(crate::point::spec_u32_from_be_bytes(s.subrange(
                0,
                4,
            )));
        }
        p
    }

    /// The `count` points stored back to back from `offset`.
    pub fn read_points(&self, offset: u64, count: u64) -> (ps: Vec<Point>)
        requires
            offset + 12 * count <= self.data@.len(),
        ensures
            ps@.len() == count,
            forall|j: int|
                0 <= j < count ==> ps@[j] == spec_point_at(self.data@, offset + 12 * j),
    {
        proof {
            vstd::std_specs::vec::axiom_spec_len(&self.data);
        }
        let mut ps: Vec<Point> = Vec::new();
        let mut j: u64 = 0;
        while j < count
            invariant
                0 <= j <= count,
                offset + 12 * count <= self.data@.len(),
                self.data@.len() <= usize::MAX,
                ps@.len() == j,
                forall|k: int|
                    0 <= k < j ==> ps@[k] == spec_point_at(self.data@, offset + 12 * k),
            decreases count - j,
        {
            proof {
                lemma_mul_inequality(j as int + 1, count as int, 12);
            }
            let p = read_point_at(&self.data, (offset + 12 * j) as usize);
            ps.push(p);
            j = j + 1;
        }
        ps
    }

    /// Store a planned write into the image.
    fn perform_write_op(&mut self, write_op: &WriteOp)
        requires
            write_op.offset + write_op.bytes@.len() <= old(self).data@.len(),
        ensures
            final(self).header == old(self).header,
            final(self).data@.len() == old(self).data@.len(),
            final(self).data@ == spec_store_bytes(
                old(self).data@,
                write_op.offset as int,
                write_op.bytes@,
            ),
    {
        proof {
            vstd::std_specs::vec::axiom_spec_len(&self.data);
            vstd::std_specs::vec::axiom_spec_len(&write_op.bytes);
        }
        let m: usize = write_op.bytes.len();
        let base: usize = write_op.offset as usize;
        let mut k: usize = 0;
        while k < m
            invariant
                0 <= k <= m,
                m == write_op.bytes@.len(),
                base == write_op.offset,
                base + m <= self.data@.len(),
                self.data@.len() <= usize::MAX,
                self.data@.len() == old(self).data@.len(),
                self.header == old(self).header,
                forall|idx: int|
                    0 <= idx < self.data@.len() ==> self.data@[idx] == if base <= idx < base + k {
                        write_op.bytes@[idx - base]
                    } else {
                        old(self).data@[idx]
                    },
            decreases m - k,
        {
            self.data[base + k] = write_op.bytes[k];
            k = k + 1;
        }
        proof {
            assert(self.data@ =~= spec_store_bytes(
                old(self).data@,
                write_op.offset as int,
                write_op.bytes@,
            ));
        }
    }

    /// Decide whether the kept values of a window are written: their
    /// coverage of the window must reach the x-files-factor, and at least
    /// one value must be there to aggregate. Under `Average` the result
    /// is the mean's bit pattern; the reserved methods fall back to the
    /// zero pattern.
    pub fn aggregate_samples_consume(&self, valid_points: Vec<u64>, points_possible: u64) -> (r:
        Option<u64>)
        requires
            1 <= points_possible <= 0xFFFF_FFFFu64,
            valid_points@.len() <= points_possible,
        ensures
            r == spec_aggregate(self.header.metadata, valid_points@, points_possible as int),
    {
        proof {
            vstd::std_specs::vec::axiom_spec_len(&valid_points);
        }
        if valid_points.len() == 0 {
            return None;
        }
        if coverage_below(
            valid_points.len() as u64,
            points_possible,
            self.header.metadata.x_files_factor,
        ) {
            return None;
        }
        match self.header.metadata.aggregation_type {
            AggregationType::Average => Some(mean_bits(&valid_points)),
            _ => Some(0u64),
        }
    }

    /// One downsampling step from archive `h_idx` into the adjacent
    /// coarser archive: read the anchored window, keep the slots that
    /// still hold their expected timestamps, and plan the coarse write if
    /// coverage reaches the threshold.
    #[verifier::rlimit(100)]
    pub fn downsample(&self, h_idx: usize, anchor: u64) -> (r: Option<WriteOp>)
        requires
            self.wf(),
            h_idx + 1 < self.header.archive_infos@.len(),
            anchor < 0x1_0000_0000,
        ensures
            ({
                let ars = self.header.archive_infos@;
                let sd = spec_downsample(
                    self.data@,
                    self.header.metadata,
                    ars[h_idx as int],
                    ars[h_idx as int + 1],
                    anchor as int,
                );
                match r {
                    Some(op) => sd == Some((op.offset as int, op.bytes@)) && op.offset
                        + op.bytes@.len() <= self.data@.len() && op.bytes@.len() == 12,
                    None => sd is None,
                }
            }),
    {
        let ghost ars = self.header.archive_infos@;
        let fine = self.header.archive_infos[h_idx];
        let coarse = self.header.archive_infos[h_idx + 1];
        proof {
            assert(fine.wf());
            assert(coarse.wf());
            lemma_archive_end_le_total(self.header.metadata, ars, h_idx as int);
            lemma_archive_end_le_total(self.header.metadata, ars, h_idx as int + 1);
            lemma_mul_inequality(1, fine.points as int, 12);
            lemma_mul_inequality(1, coarse.points as int, 12);
        }
        let wstart = coarse.interval_ceiling(anchor);
        proof {
            assert(ars[h_idx as int].seconds_per_point < ars[h_idx as int + 1].seconds_per_point);
            assert(ars[h_idx as int + 1].seconds_per_point / ars[h_idx as int].seconds_per_point
                <= ars[h_idx as int].points);
        }
        let needed: u64 = coarse.seconds_per_point / fine.seconds_per_point;
        proof {
            // the window is non-empty: the coarser archive's resolution
            // is a longer span than the finer one's
            vstd::arithmetic::div_mod::lemma_div_is_ordered(fine.seconds_per_point as int,
                coarse.seconds_per_point as int, fine.seconds_per_point as int);
            vstd::arithmetic::div_mod::lemma_div_by_self(fine.seconds_per_point as int);
            assert(needed >= 1);
            assert(needed <= fine.points);
        }
        let fbase = self.read_point(fine.offset).timestamp;
        let start_slot: u64 = if fbase == 0 {
            0u64
        } else {
            fine.slot_for(wstart, fbase)
        };
        proof {
            assert(start_slot == spec_fine_start_slot(self.data@, fine, wstart as int));
            assert(start_slot < fine.points);
            lemma_fundamental_div_mod(coarse.seconds_per_point as int,
                fine.seconds_per_point as int);
            lemma_mod_bound(coarse.seconds_per_point as int, fine.seconds_per_point as int);
        }
        let mut kept: Vec<u64> = Vec::new();
        let mut j: u64 = 0;
        while j < needed
            invariant
                0 <= j <= needed,
                1 <= needed <= fine.points,
                self.wf(),
                fine.wf(),
                fine == self.header.archive_infos@[h_idx as int],
                h_idx < self.header.archive_infos@.len(),
                fine.offset + 12 * fine.points <= self.data@.len(),
                start_slot < fine.points,
                wstart < 0x1_0000_0000,
                (needed as int) * (fine.seconds_per_point as int) <= coarse.seconds_per_point
                    <= 0xFFFF_FFFFu64,
                kept@.len() <= j,
                kept@ == spec_kept_values(self.data@, fine, wstart as int, start_slot as int,
                    j as int),
            decreases needed - j,
        {
            let s: u64 = start_slot + j;
            let idx: u64 = if s >= fine.points {
                s - fine.points
            } else {
                s
            };
            proof {
                if s >= fine.points {
                    lemma_mod_sub_multiples_vanish(s as int, fine.points as int);
                    lemma_small_mod((s - fine.points) as nat, fine.points as nat);
                } else {
                    lemma_small_mod(s as nat, fine.points as nat);
                }
                assert(idx == (start_slot + j) % (fine.points as int));
                assert(idx < fine.points);
                lemma_mul_inequality(idx as int + 1, fine.points as int, 12);
                assert((j as int) * (fine.seconds_per_point as int) <= (needed as int) * (
                fine.seconds_per_point as int)) by (nonlinear_arith)
                    requires
                        0 <= j <= needed,
                        fine.seconds_per_point >= 0,
                {
                }
            }
            let off: u64 = fine.offset + 12 * idx;
            let p = self.read_point(off);
            let expected: u64 = wstart + j * fine.seconds_per_point;
            if p.timestamp == expected {
                kept.push(p.value);
            }
            proof {
                assert(kept@ =~= spec_kept_values(self.data@, fine, wstart as int,
                    start_slot as int, j as int + 1));
            }
            j = j + 1;
        }
        let aggregated = self.aggregate_samples_consume(kept, needed);
        match aggregated {
            None => None,
            Some(agg) => {
                let cbase = self.read_point(coarse.offset).timestamp;
                let l_res_point = Point { timestamp: wstart, value: agg };
                let op = build_write_op(&coarse, &l_res_point, cbase);
                proof {
                    assert(coarse.spec_interval_ceiling(wstart as int) == wstart as int);
                }
                Some(op)
            },
        }
    }

    /// The cascading update: reject a sample from the future or beyond
    /// every retention, write it into the finest covering archive, then
    /// downsample archive by archive until a step is skipped. The image
    /// afterwards is exactly the specified write path's result; on an
    /// error nothing changes.
    pub fn write(&mut self, current_time: u64, point: Point) -> (r: Result<(), WhisperError>)
        requires
            old(self).wf(),
            current_time < 0x1_0000_0000,
            point.timestamp < 0x1_0000_0000,
        ensures
            final(self).header == old(self).header,
            final(self).wf(),
            match r {
                Ok(()) => point.timestamp <= current_time && spec_split(
                    old(self).header.archive_infos@,
                    current_time - point.timestamp,
                    0,
                ) is Some && final(self).data@ == spec_write(
                    old(self).data@,
                    old(self).header.metadata,
                    old(self).header.archive_infos@,
                    current_time as int,
                    point.timestamp as int,
                    point.value,
                ),
                Err(WhisperError::PointInFuture) => point.timestamp > current_time
                    && final(self).data@ == old(self).data@,
                Err(WhisperError::PointOutsideRetention) => point.timestamp <= current_time
                    && spec_split(
                    old(self).header.archive_infos@,
                    current_time - point.timestamp,
                    0,
                ) is None && final(self).data@ == old(self).data@,
                Err(_) => false,
            },
    {
        if point.timestamp > current_time {
            return Err(WhisperError::PointInFuture);
        }
        let high_precision_index = match self.split(current_time, point.timestamp) {
            Some(i) => i,
            None => {
                return Err(WhisperError::PointOutsideRetention);
            },
        };
        let ghost ars = self.header.archive_infos@;
        let ghost md = self.header.metadata;
        let ghost d0 = self.data@;
        let ai = self.header.archive_infos[high_precision_index];
        proof {
            assert(ai.wf());
            lemma_archive_end_le_total(md, ars, high_precision_index as int);
            lemma_mul_inequality(1, ai.points as int, 12);
        }
        let base_point = self.read_point(ai.offset);
        let write_op = build_write_op(&ai, &point, base_point.timestamp);
        self.perform_write_op(&write_op);
        let ghost d1 = self.data@;
        proof {
            assert(d1 == spec_primary_written(d0, ai, point.timestamp as int, point.value));
        }

        let n: usize = self.header.archive_infos.len();
        let mut i: usize = high_precision_index;
        let mut stopped: bool = false;
        while !stopped && i + 1 < n
            invariant
                high_precision_index <= i < n,
                n == ars.len(),
                self.header.archive_infos@ == ars,
                self.header.metadata == md,
                self.header == old(self).header,
                self.wf(),
                self.data@.len() == d1.len(),
                spec_cascade(d1, md, ars, high_precision_index as int, point.timestamp as int)
                    == spec_cascade(self.data@, md, ars, i as int, point.timestamp as int),
                stopped ==> spec_cascade(self.data@, md, ars, i as int, point.timestamp as int)
                    == self.data@,
                point.timestamp < 0x1_0000_0000,
            decreases n - i, (if stopped { 0int } else { 1int }),
        {
            match self.downsample(i, point.timestamp) {
                Some(op) => {
                    self.perform_write_op(&op);
                    i = i + 1;
                },
                None => {
                    stopped = true;
                },
            }
        }
        proof {
            if !stopped {
                assert(spec_cascade(self.data@, md, ars, i as int, point.timestamp as int)
                    == self.data@);
            }
        }
        Ok(())
    }
}

/// The descriptors a well-formed schema lays out form a well-formed
/// archive index.
#[verifier::rlimit(100)]
proof fn lemma_schema_archives_wf(schema: Schema, md: Metadata)
    requires
        schema.wf(),
        md.archive_count == schema.retention_policies@.len(),
        md.max_retention == schema.retention_policies@[schema.retention_policies@.len()
            - 1].retention,
    ensures
        spec_archives_wf(md, spec_archives_of(schema.retention_policies@)),
        forall|k: int|
            0 <= k < schema.retention_policies@.len() ==> (#[trigger] spec_archives_of(
                schema.retention_policies@,
            )[k]).offset + 12 * spec_archives_of(schema.retention_policies@)[k].points == 16 + 12
                * (schema.retention_policies@.len() as int) + 12 * spec_prefix_points(
                schema.retention_policies@,
                k + 1,
            ),
        schema.retention_policies@.len() <= 0xFFFF_FFFF,
{
    lemma_prefix_points_mono(schema.retention_policies@, 0,
        schema.retention_policies@.len() as int);
    let ps = schema.retention_policies@;
    let ars = spec_archives_of(ps);
    assert forall|k: int| 0 <= k < ars.len() implies (#[trigger] ars[k]).wf() by {
        assert(ps[k].wf());
        vstd::arithmetic::div_mod::lemma_div_nonincreasing(ps[k].retention as int,
            ps[k].precision as int);
        vstd::arithmetic::div_mod::lemma_div_pos_is_pos(ps[k].retention as int,
            ps[k].precision as int);
        vstd::arithmetic::div_mod::lemma_fundamental_div_mod(ps[k].retention as int,
            ps[k].precision as int);
        lemma_prefix_points_mono(ps, k + 1, ps.len() as int);
        lemma_prefix_points_mono(ps, 0, k);
        assert(ars[k].offset + 12 * ars[k].points == 16 + 12 * (ps.len() as int) + 12
            * spec_prefix_points(ps, k + 1));
    }
    assert forall|k: int|
        0 <= k < ps.len() implies (#[trigger] ars[k]).offset + 12 * ars[k].points == 16 + 12 * (
    ps.len() as int) + 12 * spec_prefix_points(ps, k + 1) by {
        assert(ps[k].wf());
        vstd::arithmetic::div_mod::lemma_div_nonincreasing(ps[k].retention as int,
            ps[k].precision as int);
        vstd::arithmetic::div_mod::lemma_div_pos_is_pos(ps[k].retention as int,
            ps[k].precision as int);
        lemma_prefix_points_mono(ps, k + 1, ps.len() as int);
        lemma_prefix_points_mono(ps, 0, k);
    }
    assert forall|k: int|
        0 <= k < ars.len() - 1 implies (#[trigger] ars[k + 1]).offset == ars[k].offset + 12
        * ars[k].points by {
        assert(ps[k].wf());
        vstd::arithmetic::div_mod::lemma_div_nonincreasing(ps[k].retention as int,
            ps[k].precision as int);
        vstd::arithmetic::div_mod::lemma_div_pos_is_pos(ps[k].retention as int,
            ps[k].precision as int);
        lemma_prefix_points_mono(ps, k + 1, ps.len() as int);
        lemma_prefix_points_mono(ps, k, ps.len() as int);
        lemma_prefix_points_mono(ps, 0, k);
        assert(spec_prefix_points(ps, k + 1) == spec_prefix_points(ps, k) + ps[k].spec_points());
    }
    assert(ars[0].offset == 16 + 12 * ars.len());
}

/// A fresh file's bytes: the encoded header, then zeroed slots up to the
/// declared size.
#[verifier::rlimit(100)]
fn build_image(header: &Header, total: u64) -> (data: Vec<u8>)
    requires
        header.wf(),
        total <= 0xFFFF_FFFFu64,
        16 + 12 * (header.archive_infos@.len() as int) <= total,
    ensures
        data@.len() == total,
        data@ == spec_encode_header(header.metadata, header.archive_infos@) + Seq::new(
            (total - 16 - 12 * (header.archive_infos@.len() as int)) as nat,
            |i: int| 0u8,
        ),
{
    let ghost ars = header.archive_infos@;
    let ghost md = header.metadata;
    let mut data = write_header(header);
    let ghost header_len = data@.len();
    proof {
        assert(usize::MAX >= 0xFFFF_FFFFu64);
        assert(data@ =~= spec_encode_header(md, ars) + Seq::new(
            (data@.len() - header_len) as nat,
            |q: int| 0u8,
        ));
    }
    while data.len() < total as usize
        invariant
            data@.len() >= header_len,
            data@.len() <= total,
            total <= 0xFFFF_FFFFu64,
            usize::MAX >= 0xFFFF_FFFFu64,
            data@ == spec_encode_header(md, ars) + Seq::new(
                (data@.len() - header_len) as nat,
                |q: int| 0u8,
            ),
            header_len == spec_encode_header(md, ars).len(),
            md == header.metadata,
            ars == header.archive_infos@,
        decreases total - data@.len(),
    {
        data.push(0u8);
        proof {
            assert(data@ =~= spec_encode_header(md, ars) + Seq::new(
                (data@.len() - header_len) as nat,
                |q: int| 0u8,
            ));
        }
    }
    data
}

/// Lay out a schema's archives: each descriptor with its absolute offset,
/// and the total file size they imply.
#[verifier::rlimit(100)]
fn layout_archives(schema: &Schema) -> (r: (Vec<ArchiveInfo>, u64))
    requires
        schema.wf(),
    ensures
        r.0@ == spec_archives_of(schema.retention_policies@),
        r.1 == 16 + 12 * (schema.retention_policies@.len() as int) + 12 * spec_prefix_points(
            schema.retention_policies@,
            schema.retention_policies@.len() as int,
        ),
        16 + 12 * (schema.retention_policies@.len() as int) <= r.1 <= 0xFFFF_FFFFu64,
{
    let ghost ps = schema.retention_policies@;
    let n: usize = schema.retention_policies.len();
    proof {
        lemma_prefix_points_mono(ps, 0, ps.len() as int);
    }
    let mut archive_infos: Vec<ArchiveInfo> = Vec::new();
    let mut archive_offset: u64 = 16 + 12 * (n as u64);
    let mut i: usize = 0;
    while i < n
        invariant
            0 <= i <= n,
            n == ps.len(),
            schema.retention_policies@ == ps,
            schema.wf(),
            archive_infos@.len() == i,
            forall|k: int| 0 <= k < i ==> archive_infos@[k] == spec_archives_of(ps)[k],
            archive_offset == 16 + 12 * (ps.len() as int) + 12 * spec_prefix_points(ps, i as int),
            archive_offset <= 0xFFFF_FFFFu64,
        decreases n - i,
    {
        let rp = schema.retention_policies[i];
        proof {
            assert(ps[i as int].wf());
            vstd::arithmetic::div_mod::lemma_div_nonincreasing(rp.retention as int,
                rp.precision as int);
            vstd::arithmetic::div_mod::lemma_div_pos_is_pos(rp.retention as int,
                rp.precision as int);
            lemma_prefix_points_mono(ps, i as int + 1, ps.len() as int);
            lemma_prefix_points_mono(ps, 0, i as int);
        }
        let pts = rp.points();
        let ai = ArchiveInfo {
            offset: archive_offset,
            seconds_per_point: rp.precision,
            points: pts,
            retention: rp.retention,
        };
        archive_infos.push(ai);
        archive_offset = archive_offset + 12 * pts;
        i = i + 1;
    }
    proof {
        assert(archive_infos@ =~= spec_archives_of(ps));
        lemma_prefix_points_mono(ps, 0, ps.len() as int);
    }
    (archive_infos, archive_offset)
}

impl WhisperFile {
    /// Create the image of a fresh file from a retention schema: the
    /// header with the default aggregation and coverage threshold, and
    /// every slot zeroed, meaning empty.
    #[verifier::rlimit(100)]
    pub fn new(schema: &Schema) -> (r: Result<WhisperFile, WhisperError>)
        ensures
            match r {
                Ok(f) => {
                    &&& schema.wf()
                    &&& f.wf()
                    &&& f.header.metadata == (Metadata {
                        aggregation_type: AggregationType::Average,
                        max_retention: schema.spec_max_retention() as u32,
                        x_files_factor: 0x3F00_0000u32,
                        archive_count: schema.retention_policies@.len() as u32,
                    })
                    &&& f.header.archive_infos@ == spec_archives_of(schema.retention_policies@)
                    &&& f.data@.len() == schema.spec_size_on_disk()
                    &&& f.data@ == spec_encode_header(f.header.metadata, f.header.archive_infos@)
                        + Seq::new(
                        (schema.spec_size_on_disk() - 16 - 12 * (
                        schema.retention_policies@.len() as int)) as nat,
                        |i: int| 0u8,
                    )
                },
                Err(e) => e == WhisperError::SchemaInvalid && !schema.wf(),
            },
    {
        if !schema.validate() {
            return Err(WhisperError::SchemaInvalid);
        }
        let ghost ps = schema.retention_policies@;
        let n: usize = schema.retention_policies.len();
        proof {
            lemma_prefix_points_mono(ps, 0, ps.len() as int);
        }
        let last = schema.retention_policies[n - 1];
        let metadata = Metadata {
            aggregation_type: AggregationType::Average,
            max_retention: last.retention as u32,
            x_files_factor: 0x3F00_0000,
            archive_count: n as u32,
        };
        let (archive_infos, total) = layout_archives(schema);
        let ghost ars = spec_archives_of(ps);
        proof {
            lemma_schema_archives_wf(*schema, metadata);
        }
        let header = Header { metadata, archive_infos };
        let data = build_image(&header, total);
        let f = WhisperFile { header, data };
        proof {
            assert(ars[ars.len() - 1].offset + 12 * ars[ars.len() - 1].points == 16 + 12 * (
            ps.len() as int) + 12 * spec_prefix_points(ps, ps.len() as int));
            assert(f.header.spec_total_size() == total);
            assert(f.data@.len() == total);
        }
        Ok(f)
    }
}

/// Open a file image: read and validate the header, and check that the
/// image has exactly the size the header declares.
#[verifier::rlimit(100)]
pub fn open(bytes: Vec<u8>) -> (r: Result<WhisperFile, WhisperError>)
    ensures
        match r {
            Ok(f) => f.wf() && spec_header_of(bytes@) == Some(
                (f.header.metadata, f.header.archive_infos@),
            ) && f.data@ == bytes@,
            Err(e) => e == WhisperError::HeaderCorrupt && (spec_header_of(bytes@) is None || (
            match spec_header_of(bytes@) {
                Some((md, ars)) => bytes@.len() != ars[ars.len() - 1].offset + 12 * ars[ars.len()
                    - 1].points,
                None => true,
            })),
        },
{
    proof {
        vstd::std_specs::vec::axiom_spec_len(&bytes);
    }
    let header = match read_header(&bytes) {
        Ok(h) => h,
        Err(e) => {
            return Err(e);
        },
    };
    let n: usize = header.archive_infos.len();
    let last = header.archive_infos[n - 1];
    if (bytes.len() as u64) != last.offset + 12 * last.points {
        return Err(WhisperError::HeaderCorrupt);
    }
    Ok(WhisperFile { header, data: bytes })
}

} // verus!
