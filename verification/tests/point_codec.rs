use whisper::point::{buf_to_point, fill_buf, read_point_at, read_u32_at, write_point_at, Point, POINT_SIZE};

#[test]
fn codec_round_trip() {
    let mut buf: Vec<u8> = vec![0u8; 12];
    let v = 42.5f64.to_bits();
    fill_buf(&mut buf, 12345, v);
    let p = buf_to_point(&buf);
    assert_eq!(p, Point { timestamp: 12345, value: v });
}

#[test]
fn codec_round_trip_extremes() {
    let mut buf: Vec<u8> = vec![0u8; 12];
    let v = f64::NEG_INFINITY.to_bits();
    fill_buf(&mut buf, 0xFFFF_FFFF, v);
    let p = buf_to_point(&buf);
    assert_eq!(p.timestamp, 0xFFFF_FFFF);
    assert_eq!(p.value, v);
}

#[test]
fn encode_is_big_endian() {
    let mut buf: Vec<u8> = vec![0u8; 12];
    // 999999960 = 0x3B9AC9D8; 42.0 = 0x4045000000000000
    fill_buf(&mut buf, 999_999_960, 42.0f64.to_bits());
    assert_eq!(&buf[0..4], &[0x3B, 0x9A, 0xC9, 0xD8]);
    assert_eq!(&buf[4..12], &[0x40, 0x45, 0, 0, 0, 0, 0, 0]);
}

#[test]
fn point_size_is_twelve() {
    assert_eq!(POINT_SIZE, 12);
}

#[test]
fn offset_read_write() {
    let mut data: Vec<u8> = vec![0u8; 40];
    let v = (-1.5f64).to_bits();
    write_point_at(&mut data, 16, 600, v);
    let p = read_point_at(&data, 16);
    assert_eq!(p, Point { timestamp: 600, value: v });
    // bytes outside the record stay zero
    assert!(data[0..16].iter().all(|b| *b == 0));
    assert!(data[28..40].iter().all(|b| *b == 0));
    assert_eq!(read_u32_at(&data, 16), 600);
}

#[test]
fn zero_timestamp_is_empty_marker() {
    let data: Vec<u8> = vec![0u8; 12];
    let p = buf_to_point(&data);
    assert_eq!(p.timestamp, 0);
    assert_eq!(p.value, 0);
}
