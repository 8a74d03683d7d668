//! The 16-byte metadata record at the start of a file: aggregation
//! method, maximum retention, x-files-factor and archive count, each a
//! 4-byte big-endian field. The x-files-factor is carried as the raw bit
//! pattern of the stored 32-bit float.

use vstd::prelude::*;

use crate::point::{spec_u32_to_be_bytes, spec_u32_at};

verus! {

/// How a window of finer samples is folded into one coarser sample.
/// Only `Average` has defined semantics; the other codes are reserved.
#[derive(Clone, Copy, PartialEq, Eq, Structural, Debug)]
pub enum AggregationType {
    Average,
    Sum,
    Last,
    Max,
    Min,
}

pub open spec fn spec_aggregation_code(t: AggregationType) -> u32 {
    match t {
        AggregationType::Average => 1u32,
        AggregationType::Sum => 2u32,
        AggregationType::Last => 3u32,
        AggregationType::Max => 4u32,
        AggregationType::Min => 5u32,
    }
}

pub open spec fn spec_aggregation_from_code(code: u32) -> Option<AggregationType> {
    if code == 1 {
        Some(AggregationType::Average)
    } else if code == 2 {
        Some(AggregationType::Sum)
    } else if code == 3 {
        Some(AggregationType::Last)
    } else if code == 4 {
        Some(AggregationType::Max)
    } else if code == 5 {
        Some(AggregationType::Min)
    } else {
        None
    }
}

impl AggregationType {
    pub fn code(&self) -> (r: u32)
        ensures
            r == spec_aggregation_code(*self),
    {
        match self {
            AggregationType::Average => 1,
            AggregationType::Sum => 2,
            AggregationType::Last => 3,
            AggregationType::Max => 4,
            AggregationType::Min => 5,
        }
    }

    pub fn from_code(code: u32) -> (r: Option<AggregationType>)
        ensures
            r == spec_aggregation_from_code(code),
    {
        if code == 1 {
            Some(AggregationType::Average)
        } else if code == 2 {
            Some(AggregationType::Sum)
        } else if code == 3 {
            Some(AggregationType::Last)
        } else if code == 4 {
            Some(AggregationType::Max)
        } else if code == 5 {
            Some(AggregationType::Min)
        } else {
            None
        }
    }
}

/// The codes name their own aggregation method and nothing else.
pub proof fn lemma_aggregation_code_roundtrip(t: AggregationType)
    ensures
        spec_aggregation_from_code(spec_aggregation_code(t)) == Some(t),
{
}

#[derive(Clone, Copy, PartialEq, Eq, Structural, Debug)]
pub struct Metadata {
    pub aggregation_type: AggregationType,
    /// Retention of the coarsest archive, in seconds.
    pub max_retention: u32,
    /// Raw IEEE-754 single bit pattern of the coverage threshold.
    pub x_files_factor: u32,
    pub archive_count: u32,
}

/// The 16 bytes of a metadata record.
pub open spec fn spec_encode_metadata(md: Metadata) -> Seq<u8> {
    spec_u32_to_be_bytes(spec_aggregation_code(md.aggregation_type)) + spec_u32_to_be_bytes(
        md.max_retention) + spec_u32_to_be_bytes(md.x_files_factor) + spec_u32_to_be_bytes(
        md.archive_count)
}

/// The metadata read back from the first 16 bytes of `data`, when its
/// aggregation code is a known one.
pub open spec fn spec_decode_metadata(data: Seq<u8>) -> Option<Metadata> {
    match spec_aggregation_from_code(spec_u32_at(data, 0)) {
        Some(t) => Some(
            Metadata {
                aggregation_type: t,
                max_retention: spec_u32_at(data, 4),
                x_files_factor: spec_u32_at(data, 8),
                archive_count: spec_u32_at(data, 12),
            },
        ),
        None => None,
    }
}

} // verus!
