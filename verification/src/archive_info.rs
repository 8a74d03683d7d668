//! Geometry of one circular archive: pure arithmetic for interval
//! alignment, slot indexing, seek offsets, and splitting a window into at
//! most two contiguous runs of slots.

use vstd::prelude::*;
use vstd::arithmetic::div_mod::{
    lemma_fundamental_div_mod, lemma_fundamental_div_mod_converse, lemma_mod_bound,
    lemma_div_multiples_vanish, lemma_mod_multiples_vanish, lemma_mod_decreases,
};
use vstd::arithmetic::mul::lemma_mul_inequality;

use crate::point::Point;

verus! {

/// Descriptor of one circular archive: `points` slots of 12 bytes each,
/// one slot per `seconds_per_point`, starting at absolute byte `offset`.
#[derive(Clone, Copy, PartialEq, Eq, Structural, Debug)]
pub struct ArchiveInfo {
    pub offset: u64,
    pub seconds_per_point: u64,
    pub points: u64,
    pub retention: u64,
}

impl ArchiveInfo {
    /// A descriptor that a well-formed file can hold: non-trivial geometry,
    /// `retention` exactly the covered span, and a data region whose bytes
    /// lie within the 32-bit offset space of the format.
    pub open spec fn wf(self) -> bool {
        &&& 1 <= self.seconds_per_point <= 0xFFFF_FFFFu64
        &&& 1 <= self.points <= 0xFFFF_FFFFu64
        &&& self.retention == self.seconds_per_point * self.points
        &&& self.offset + 12 * self.points <= 0xFFFF_FFFFu64
    }

    pub open spec fn spec_size_in_bytes(self) -> int {
        12 * self.points
    }

    /// Timestamp aligned down to the archive's grid.
    pub open spec fn spec_interval_ceiling(self, ts: int) -> int {
        ts - ts % (self.seconds_per_point as int)
    }

    /// The slot that an aligned timestamp falls in, relative to the
    /// aligned timestamp stored in slot 0. The quotient and remainder are
    /// Euclidean, so a timestamp behind the base wraps to a valid slot.
    pub open spec fn spec_slot_index(self, aligned: int, base: int) -> int {
        ((aligned - base) / (self.seconds_per_point as int)) % (self.points as int)
    }

    /// Absolute byte offset at which a point with timestamp `ts` is
    /// stored, given the base timestamp read from slot 0. A base of zero
    /// means the archive is empty and the write seeds slot 0.
    pub open spec fn spec_seek_offset(self, ts: int, base: int) -> int {
        if base == 0 {
            self.offset as int
        } else {
            self.offset + 12 * self.spec_slot_index(self.spec_interval_ceiling(ts), base)
        }
    }

    pub fn size_in_bytes(&self) -> (r: u64)
        requires
            self.wf(),
        ensures
            r == self.spec_size_in_bytes(),
    {
        12 * self.points
    }

    /// Align `timestamp` down to the nearest multiple of
    /// `seconds_per_point`.
    pub fn interval_ceiling(&self, timestamp: u64) -> (r: u64)
        requires
            self.wf(),
        ensures
            r == self.spec_interval_ceiling(timestamp as int),
            r <= timestamp,
            r % self.seconds_per_point == 0,
    {
        proof {
            let t = timestamp as int;
            let m = self.seconds_per_point as int;
            lemma_mod_decreases(timestamp as nat, self.seconds_per_point as nat);
            lemma_fundamental_div_mod(t, m);
            assert(t - t % m == (t / m) * m) by (nonlinear_arith)
                requires
                    t == m * (t / m) + t % m,
            {
            }
            vstd::arithmetic::div_mod::lemma_mod_multiples_basic(t / m, m);
        }
        timestamp - timestamp % self.seconds_per_point
    }

    /// The slot of an aligned timestamp relative to a non-zero base
    /// timestamp, wrapping Euclidean-style in both directions.
    pub fn slot_for(&self, aligned: u64, base: u64) -> (slot: u64)
        requires
            self.wf(),
            aligned < 0x1_0000_0000,
            base < 0x1_0000_0000,
        ensures
            slot == self.spec_slot_index(aligned as int, base as int),
            slot < self.points,
    {
        let spp = self.seconds_per_point;
        let pts = self.points;
        if aligned >= base {
            let d: u64 = aligned - base;
            (d / spp) % pts
        } else {
            let d: u64 = base - aligned;
            let q: u64 = (d - 1) / spp + 1;
            let r: u64 = q % pts;
            let slot: u64 = if r == 0 { 0u64 } else { pts - r };
            proof {
                let di = d as int;
                let sppi = spp as int;
                let ptsi = pts as int;
                let a = (di - 1) / sppi;
                let b = (di - 1) % sppi;
                lemma_fundamental_div_mod(di - 1, sppi);
                lemma_mod_bound(di - 1, sppi);
                let q0 = a + 1;
                let r0 = sppi - b - 1;
                assert(-di == (-q0) * sppi + r0) by (nonlinear_arith)
                    requires
                        q0 == a + 1,
                        r0 == sppi - b - 1,
                        di - 1 == a * sppi + b,
                {
                }
                lemma_fundamental_div_mod_converse(-di, sppi, -q0, r0);
                assert((aligned as int - base as int) / sppi == -q0);
                // now (-q0) % ptsi == slot
                let qa = q0 / ptsi;
                let qb = q0 % ptsi;
                lemma_fundamental_div_mod(q0, ptsi);
                lemma_mod_bound(q0, ptsi);
                if qb == 0 {
                    assert((-q0) == (-qa) * ptsi + 0) by (nonlinear_arith)
                        requires
                            q0 == qa * ptsi + qb,
                            qb == 0,
                    {
                    }
                    lemma_fundamental_div_mod_converse(-q0, ptsi, -qa, 0);
                } else {
                    assert((-q0) == (-(qa + 1)) * ptsi + (ptsi - qb)) by (nonlinear_arith)
                        requires
                            q0 == qa * ptsi + qb,
                    {
                    }
                    lemma_fundamental_div_mod_converse(-q0, ptsi, -(qa + 1), ptsi - qb);
                }
            }
            slot
        }
    }

    /// Absolute byte offset of the slot that receives `point`, given the
    /// base timestamp read from slot 0 of this archive.
    pub fn calculate_seek(&self, point: &Point, base_timestamp: u64) -> (r: u64)
        requires
            self.wf(),
            point.timestamp < 0x1_0000_0000,
            base_timestamp < 0x1_0000_0000,
        ensures
            r == self.spec_seek_offset(point.timestamp as int, base_timestamp as int),
            self.offset <= r < self.offset + self.spec_size_in_bytes(),
    {
        if base_timestamp == 0 {
            proof {
                lemma_mul_inequality(1, self.points as int, 12);
            }
            self.offset
        } else {
            let aligned = self.interval_ceiling(point.timestamp);
            let slot = self.slot_for(aligned, base_timestamp);
            proof {
                lemma_mul_inequality(slot + 1, self.points as int, 12);
            }
            self.offset + 12 * slot
        }
    }

    /// Split a window of `count` slots starting at slot `start` into one
    /// contiguous run when it does not cross the ring boundary, otherwise
    /// two: the tail of the ring and its head.
    pub fn window_slice(&self, start: u64, count: u64) -> (r: ((u64, u64), Option<(u64, u64)>))
        requires
            self.wf(),
            start < self.points,
            1 <= count <= self.points,
        ensures
            r.0.0 == start,
            start + count <= self.points ==> r.0.1 == count && r.1 is None,
            start + count > self.points ==> r.0.1 == self.points - start && r.1 == Some(
                (0u64, (count - (self.points - start)) as u64),
            ),
    {
        if count <= self.points - start {
            ((start, count), None)
        } else {
            ((start, self.points - start), Some((0, count - (self.points - start))))
        }
    }
}

/// Slot locality: wherever a seek lands, it lands inside the archive's
/// own data region.
pub proof fn lemma_seek_within_archive(ai: ArchiveInfo, ts: int, base: int)
    requires
        ai.wf(),
    ensures
        ai.offset <= ai.spec_seek_offset(ts, base) < ai.offset + ai.spec_size_in_bytes(),
{
    if base == 0 {
        lemma_mul_inequality(1, ai.points as int, 12);
    } else {
        let slot = ai.spec_slot_index(ai.spec_interval_ceiling(ts), base);
        lemma_mod_bound((ai.spec_interval_ceiling(ts) - base) / (ai.seconds_per_point as int),
            ai.points as int);
        lemma_mul_inequality(slot + 1, ai.points as int, 12);
    }
}

/// Ring closure: from a non-zero aligned base, stepping `k` grid points
/// in either direction seeks to slot `k mod points`, wrapping Euclidean
/// style.
pub proof fn lemma_ring_closure(ai: ArchiveInfo, base: int, k: int)
    requires
        ai.wf(),
        base != 0,
        base % (ai.seconds_per_point as int) == 0,
    ensures
        ai.spec_seek_offset(base + k * (ai.seconds_per_point as int), base) == ai.offset + 12 * (
        k % (ai.points as int)),
{
    let spp = ai.seconds_per_point as int;
    let ts = base + k * spp;
    assert(ts == spp * k + base) by (nonlinear_arith)
        requires
            ts == base + k * spp,
    {
    }
    lemma_mod_multiples_vanish(k, base, spp);
    assert(ts % spp == base % spp);
    assert(ai.spec_interval_ceiling(ts) == ts);
    lemma_div_multiples_vanish(k, spp);
    assert((ts - base) / spp == k);
}

} // verus!
