use whisper::error::WhisperError;
use whisper::schema::{parse_spec, RetentionPolicy, Schema};

#[test]
fn parse_minute_hour() {
    let rp = parse_spec("1m:1h").unwrap();
    assert_eq!(rp, RetentionPolicy { precision: 60, retention: 3600 });
}

#[test]
fn parse_units() {
    assert_eq!(parse_spec("10s:1d").unwrap(), RetentionPolicy { precision: 10, retention: 86400 });
    assert_eq!(parse_spec("1h:1w").unwrap(), RetentionPolicy { precision: 3600, retention: 604800 });
    assert_eq!(
        parse_spec("1w:52w").unwrap(),
        RetentionPolicy { precision: 604800, retention: 31449600 }
    );
    assert_eq!(parse_spec("1d:1y").unwrap(), RetentionPolicy { precision: 86400, retention: 31536000 });
    assert_eq!(parse_spec("15m:8d").unwrap(), RetentionPolicy { precision: 900, retention: 691200 });
}

#[test]
fn parse_rejects_zero_precision() {
    assert_eq!(parse_spec("0s:1h"), Err(WhisperError::SchemaInvalid));
}

#[test]
fn parse_rejects_non_divisible_retention() {
    // 90 seconds is not a whole number of minutes
    assert_eq!(parse_spec("1m:90s"), Err(WhisperError::SchemaInvalid));
}

#[test]
fn parse_rejects_malformed() {
    assert_eq!(parse_spec(""), Err(WhisperError::SchemaInvalid));
    assert_eq!(parse_spec("1m"), Err(WhisperError::SchemaInvalid));
    assert_eq!(parse_spec("m:1h"), Err(WhisperError::SchemaInvalid));
    assert_eq!(parse_spec("1x:1h"), Err(WhisperError::SchemaInvalid));
    assert_eq!(parse_spec("1m:"), Err(WhisperError::SchemaInvalid));
    assert_eq!(parse_spec(":1h"), Err(WhisperError::SchemaInvalid));
    assert_eq!(parse_spec("1m:1h:1d"), Err(WhisperError::SchemaInvalid));
}

#[test]
fn parse_rejects_retention_shorter_than_precision() {
    assert_eq!(parse_spec("1h:30m"), Err(WhisperError::SchemaInvalid));
}

#[test]
fn parse_rejects_year_not_divisible_by_week() {
    // a year of seconds is not a whole number of weeks
    assert_eq!(parse_spec("1w:1y"), Err(WhisperError::SchemaInvalid));
}

#[test]
fn parse_rejects_oversized_values() {
    // 200 years of seconds does not fit a 32-bit field
    assert_eq!(parse_spec("1m:200y"), Err(WhisperError::SchemaInvalid));
}

#[test]
fn schema_sorts_by_precision() {
    let schema = Schema::new_from_retention_specs(vec![
        "1h:1d".to_string(),
        "1m:1h".to_string(),
    ])
    .unwrap();
    assert_eq!(schema.retention_policies.len(), 2);
    assert_eq!(schema.retention_policies[0], RetentionPolicy { precision: 60, retention: 3600 });
    assert_eq!(schema.retention_policies[1], RetentionPolicy { precision: 3600, retention: 86400 });
}

#[test]
fn schema_rejects_duplicate_precision() {
    let r = Schema::new_from_retention_specs(vec!["1m:1h".to_string(), "1m:2h".to_string()]);
    assert_eq!(r.err(), Some(WhisperError::SchemaInvalid));
}

#[test]
fn schema_rejects_non_multiple_precisions() {
    // 90s is not a whole multiple of 60s
    let r = Schema::new_from_retention_specs(vec!["1m:1h".to_string(), "90s:3h".to_string()]);
    assert_eq!(r.err(), Some(WhisperError::SchemaInvalid));
}

#[test]
fn schema_rejects_archive_too_narrow_for_next() {
    // two minutes of minutes cannot fill one slot of an hour archive
    let r = Schema::new_from_retention_specs(vec!["1m:2m".to_string(), "1h:1d".to_string()]);
    assert_eq!(r.err(), Some(WhisperError::SchemaInvalid));
}

#[test]
fn schema_rejects_empty_list() {
    let r = Schema::new_from_retention_specs(Vec::new());
    assert_eq!(r.err(), Some(WhisperError::SchemaInvalid));
}

#[test]
fn policy_sizes() {
    let rp = parse_spec("1m:1h").unwrap();
    assert_eq!(rp.points(), 60);
    assert_eq!(rp.size_on_disk(), 720);
}
