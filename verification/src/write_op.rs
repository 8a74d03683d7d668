//! One planned slot write: an absolute byte offset and the 12 encoded
//! bytes to place there.

use vstd::prelude::*;

use crate::archive_info::ArchiveInfo;
use crate::point::{fill_buf, spec_encode_point, Point};

verus! {

pub struct WriteOp {
    pub offset: u64,
    pub bytes: Vec<u8>,
}

/// Plan the write of `point` into `archive_info`: align the timestamp to
/// the archive's grid, encode the record, and seek the slot relative to
/// the archive's base timestamp.
pub fn build_write_op(archive_info: &ArchiveInfo, point: &Point, base_timestamp: u64) -> (op:
    WriteOp)
    requires
        archive_info.wf(),
        point.timestamp < 0x1_0000_0000,
        base_timestamp < 0x1_0000_0000,
    ensures
        op.offset == archive_info.spec_seek_offset(point.timestamp as int, base_timestamp as int),
        archive_info.offset <= op.offset,
        op.offset + 12 <= archive_info.offset + archive_info.spec_size_in_bytes(),
        op.bytes@ == spec_encode_point(
            archive_info.spec_interval_ceiling(point.timestamp as int) as u32,
            point.value,
        ),
        op.bytes@.len() == 12,
{
    let interval_ceiling = archive_info.interval_ceiling(point.timestamp);
    let mut bytes: Vec<u8> = Vec::new();
    let mut k: usize = 0;
    while k < 12
        invariant
            bytes@.len() == k,
            k <= 12,
        decreases 12 - k,
    {
        bytes.push(0u8);
        k = k + 1;
    }
    fill_buf(&mut bytes, interval_ceiling, point.value);
    let offset = archive_info.calculate_seek(point, base_timestamp);
    proof {
        assert(bytes@ =~= spec_encode_point(
            archive_info.spec_interval_ceiling(point.timestamp as int) as u32,
            point.value,
        ));
    }
    WriteOp { offset, bytes }
}

} // verus!
