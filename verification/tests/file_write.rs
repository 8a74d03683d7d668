use whisper::archive_info::ArchiveInfo;
use whisper::error::WhisperError;
use whisper::file::{open, WhisperFile};
use whisper::metadata::AggregationType;
use whisper::point::Point;
use whisper::schema::Schema;
use whisper::write_op::build_write_op;

// an hour-aligned epoch second
const T0: u64 = 1_000_800_000;

fn minute_hour_file() -> WhisperFile {
    let schema = Schema::new_from_retention_specs(vec!["1m:1h".to_string()]).unwrap();
    WhisperFile::new(&schema).unwrap()
}

fn two_level_file() -> WhisperFile {
    let schema =
        Schema::new_from_retention_specs(vec!["1m:1h".to_string(), "1h:1d".to_string()]).unwrap();
    WhisperFile::new(&schema).unwrap()
}

/// Overwrite the stored x-files-factor of an image with the given float.
fn with_xff(file: WhisperFile, xff: f32) -> WhisperFile {
    let mut bytes = file.data;
    let b = xff.to_bits().to_be_bytes();
    bytes[8] = b[0];
    bytes[9] = b[1];
    bytes[10] = b[2];
    bytes[11] = b[3];
    open(bytes).unwrap()
}

#[test]
fn create_finest_only_schema() {
    let f = minute_hour_file();
    assert_eq!(f.data.len(), 16 + 12 + 60 * 12);
    assert_eq!(f.header.metadata.aggregation_type, AggregationType::Average);
    assert_eq!(f.header.metadata.max_retention, 3600);
    assert_eq!(f.header.metadata.x_files_factor, 0.5f32.to_bits());
    assert_eq!(f.header.metadata.archive_count, 1);
    assert_eq!(f.header.archive_infos.len(), 1);
    assert_eq!(
        f.header.archive_infos[0],
        ArchiveInfo { offset: 28, seconds_per_point: 60, points: 60, retention: 3600 }
    );
    // every slot starts zeroed
    assert!(f.data[28..].iter().all(|b| *b == 0));
}

#[test]
fn header_round_trip_through_open() {
    let f = two_level_file();
    let g = open(f.data.clone()).unwrap();
    assert_eq!(g.header.metadata, f.header.metadata);
    assert_eq!(g.header.archive_infos, f.header.archive_infos);
    assert_eq!(g.data, f.data);
}

#[test]
fn single_write_into_fresh_file() {
    let mut f = minute_hour_file();
    let v = 42.0f64.to_bits();
    f.write(1_000_000_000, Point { timestamp: 1_000_000_000, value: v }).unwrap();
    let p = f.read_point(28);
    assert_eq!(p, Point { timestamp: 999_999_960, value: v });
}

#[test]
fn out_of_retention_rejected_and_file_unchanged() {
    let mut f = minute_hour_file();
    let before = f.data.clone();
    let r = f.write(
        1_000_000_000,
        Point { timestamp: 1_000_000_000 - 3600, value: 7.0f64.to_bits() },
    );
    assert_eq!(r, Err(WhisperError::PointOutsideRetention));
    assert_eq!(f.data, before);
}

#[test]
fn future_point_rejected_and_file_unchanged() {
    let mut f = minute_hour_file();
    let before = f.data.clone();
    let r = f.write(T0, Point { timestamp: T0 + 10, value: 1.0f64.to_bits() });
    assert_eq!(r, Err(WhisperError::PointInFuture));
    assert_eq!(f.data, before);
}

#[test]
fn cascade_with_full_coverage_writes_mean() {
    let mut f = two_level_file();
    for i in 0..60u64 {
        let ts = T0 + 60 * i;
        f.write(ts, Point { timestamp: ts, value: (i as f64).to_bits() }).unwrap();
    }
    // fine archive starts at 40, coarse at 40 + 720 = 760
    let coarse = f.read_point(760);
    assert_eq!(coarse, Point { timestamp: T0, value: 29.5f64.to_bits() });
}

#[test]
fn cascade_at_exact_threshold_writes() {
    // 30 of 60 slots filled gives coverage exactly 0.5, which reaches the
    // default threshold of 0.5
    let mut f = two_level_file();
    for i in 0..30u64 {
        let ts = T0 + 120 * i;
        f.write(ts, Point { timestamp: ts, value: (i as f64).to_bits() }).unwrap();
    }
    let coarse = f.read_point(760);
    assert_eq!(coarse, Point { timestamp: T0, value: 14.5f64.to_bits() });
}

#[test]
fn xff_skip_leaves_coarse_slot_untouched() {
    let mut f = with_xff(two_level_file(), 0.9);
    for i in 0..30u64 {
        let ts = T0 + 120 * i;
        f.write(ts, Point { timestamp: ts, value: (i as f64).to_bits() }).unwrap();
    }
    // coverage 0.5 stays below 0.9: the coarse slot was never written
    let coarse = f.read_point(760);
    assert_eq!(coarse, Point { timestamp: 0, value: 0 });
}

#[test]
fn single_sample_with_zero_xff_propagates_value() {
    let mut f = with_xff(two_level_file(), 0.0);
    let v = 42.0f64.to_bits();
    let ts = T0 + 60 * 7 + 30;
    f.write(ts, Point { timestamp: ts, value: v }).unwrap();
    // a fresh archive's first write seeds slot 0 with the aligned sample
    let fine = f.read_point(f.header.archive_infos[0].offset);
    assert_eq!(fine, Point { timestamp: T0 + 60 * 7, value: v });
    // one kept sample is its own mean, stored at the hour boundary
    let coarse = f.read_point(760);
    assert_eq!(coarse, Point { timestamp: T0, value: v });
}

#[test]
fn writing_twice_is_idempotent() {
    let mut f = two_level_file();
    let v = 3.25f64.to_bits();
    let ts = T0 + 60 * 31;
    f.write(ts, Point { timestamp: ts, value: v }).unwrap();
    let after_once = f.data.clone();
    f.write(ts, Point { timestamp: ts, value: v }).unwrap();
    assert_eq!(f.data, after_once);
}

#[test]
fn ring_wrap_overwrites_slot_zero() {
    let mut f = minute_hour_file();
    let v1 = 1.0f64.to_bits();
    let v2 = 2.0f64.to_bits();
    f.write(T0, Point { timestamp: T0, value: v1 }).unwrap();
    let t = T0 + 60 * 60;
    f.write(t, Point { timestamp: t, value: v2 }).unwrap();
    let p = f.read_point(28);
    assert_eq!(p, Point { timestamp: t, value: v2 });
}

#[test]
fn open_rejects_garbage() {
    assert_eq!(open(vec![0u8; 10]).err(), Some(WhisperError::HeaderCorrupt));
    assert_eq!(open(vec![0u8; 64]).err(), Some(WhisperError::HeaderCorrupt));
}

#[test]
fn open_rejects_truncated_image() {
    let f = minute_hour_file();
    let mut bytes = f.data.clone();
    bytes.pop();
    assert_eq!(open(bytes).err(), Some(WhisperError::HeaderCorrupt));
}

#[test]
fn seek_stays_inside_archive() {
    let ai = ArchiveInfo { offset: 28, seconds_per_point: 60, points: 60, retention: 3600 };
    let base = T0;
    for k in 0..200u64 {
        let p = Point { timestamp: T0 + 60 * k, value: 0 };
        let off = ai.calculate_seek(&p, base);
        assert!(off >= 28 && off < 28 + 720);
    }
}

#[test]
fn ring_closure_wraps_negative_distances() {
    let ai = ArchiveInfo { offset: 28, seconds_per_point: 60, points: 60, retention: 3600 };
    let base = T0;
    // one step behind the base lands in the last slot
    let p = Point { timestamp: T0 - 60, value: 0 };
    assert_eq!(ai.calculate_seek(&p, base), 28 + 59 * 12);
    // a full ring behind the base lands back on slot 0
    let q = Point { timestamp: T0 - 3600, value: 0 };
    assert_eq!(ai.calculate_seek(&q, base), 28);
}

#[test]
fn window_slice_splits_at_ring_boundary() {
    let ai = ArchiveInfo { offset: 28, seconds_per_point: 60, points: 60, retention: 3600 };
    // a run that fits stays one range
    assert_eq!(ai.window_slice(10, 20), ((10, 20), None));
    // a run that crosses the boundary wraps into a tail and a head
    assert_eq!(ai.window_slice(55, 10), ((55, 5), Some((0, 5))));
    // the whole ring from slot 0 is a single range
    assert_eq!(ai.window_slice(0, 60), ((0, 60), None));
}

#[test]
fn build_write_op_aligns_and_encodes() {
    let ai = ArchiveInfo { offset: 28, seconds_per_point: 60, points: 60, retention: 3600 };
    let v = 10.0f64.to_bits();
    let op = build_write_op(&ai, &Point { timestamp: T0 + 90, value: v }, T0);
    // 90 seconds past the base aligns down to one slot past it
    assert_eq!(op.offset, 28 + 12);
    let aligned = T0 + 60;
    assert_eq!(&op.bytes[0..4], &(aligned as u32).to_be_bytes());
    assert_eq!(&op.bytes[4..12], &v.to_be_bytes());
}

#[test]
fn read_points_returns_consecutive_slots() {
    let mut f = minute_hour_file();
    for i in 0..3u64 {
        let ts = T0 + 60 * i;
        f.write(ts, Point { timestamp: ts, value: (i as f64).to_bits() }).unwrap();
    }
    let ps = f.read_points(28, 3);
    assert_eq!(ps.len(), 3);
    for i in 0..3u64 {
        assert_eq!(
            ps[i as usize],
            Point { timestamp: T0 + 60 * i, value: (i as f64).to_bits() }
        );
    }
}

#[test]
fn aggregation_codes_round_trip() {
    assert_eq!(AggregationType::from_code(1), Some(AggregationType::Average));
    assert_eq!(AggregationType::from_code(5), Some(AggregationType::Min));
    assert_eq!(AggregationType::from_code(0), None);
    assert_eq!(AggregationType::from_code(6), None);
    assert_eq!(AggregationType::Average.code(), 1);
}

#[test]
fn error_descriptions_are_distinct() {
    let kinds = [
        WhisperError::HeaderCorrupt,
        WhisperError::SchemaInvalid,
        WhisperError::PointInFuture,
        WhisperError::PointOutsideRetention,
    ];
    for a in 0..kinds.len() {
        for b in 0..kinds.len() {
            if a != b {
                assert_ne!(kinds[a].describe(), kinds[b].describe());
            }
        }
    }
}
