use forkd::audit::{audit_line, format_unix_seconds_as_rfc3339, now_rfc3339, record_now, AuditRecord};

#[test]
fn rfc3339_format_epoch_zero() {
    assert_eq!(format_unix_seconds_as_rfc3339(0), "1970-01-01T00:00:00Z");
}

#[test]
fn rfc3339_format_known_timestamp() {
    assert_eq!(format_unix_seconds_as_rfc3339(1_704_067_200), "2024-01-01T00:00:00Z");
}

#[test]
fn rfc3339_format_negative_pre_epoch() {
    assert_eq!(format_unix_seconds_as_rfc3339(-1), "1969-12-31T23:59:59Z");
}

#[test]
fn rfc3339_format_far_future_does_not_overflow() {
    assert_eq!(format_unix_seconds_as_rfc3339(253_402_300_799), "9999-12-31T23:59:59Z");
}

#[test]
fn rfc3339_format_out_of_range_returns_sentinel() {
    assert_eq!(format_unix_seconds_as_rfc3339(1_000_000_000_000_000_000), "outside-time-range");
}

#[test]
fn edges_of_the_representable_years() {
    assert_eq!(format_unix_seconds_as_rfc3339(253_402_300_800), "outside-time-range");
    assert_eq!(format_unix_seconds_as_rfc3339(-377_705_116_800), "-9999-01-01T00:00:00Z");
    assert_eq!(format_unix_seconds_as_rfc3339(-377_705_116_801), "outside-time-range");
    assert_eq!(format_unix_seconds_as_rfc3339(i64::MIN), "outside-time-range");
    assert_eq!(format_unix_seconds_as_rfc3339(-62_167_219_200), "0000-01-01T00:00:00Z");
    assert_eq!(format_unix_seconds_as_rfc3339(-62_167_219_201), "-0001-12-31T23:59:59Z");
    assert_eq!(format_unix_seconds_as_rfc3339(1_709_208_000), "2024-02-29T12:00:00Z");
}

#[test]
fn clock_shows_this_era() {
    let now = now_rfc3339();
    assert_eq!(now.len(), 20);
    assert!(now.as_str() > "2020-01-01T00:00:00Z", "{now}");
}

#[test]
fn one_line_per_request() {
    let line = audit_line(&AuditRecord {
        ts: "2024-01-01T00:00:00Z".to_string(),
        method: "GET".to_string(),
        path: "/v1/\"a\"\nb".to_string(),
        status: 200,
        latency_us: 1234,
        remote: "127.0.0.1:5000".to_string(),
        ua: "curl/8".to_string(),
    });
    assert_eq!(
        line,
        "{\"latency_us\":1234,\"method\":\"GET\",\"path\":\"/v1/\\\"a\\\"\\nb\",\
         \"remote\":\"127.0.0.1:5000\",\"status\":200,\"ts\":\"2024-01-01T00:00:00Z\",\"ua\":\"curl/8\"}"
    );
    assert!(!line.contains('\n'));
    let v: serde_json::Value = serde_json::from_str(&line).unwrap();
    assert_eq!(v["path"].as_str(), Some("/v1/\"a\"\nb"));
    assert_eq!(v.as_object().unwrap().len(), 7);
}

#[test]
fn records_keep_what_they_are_given() {
    let micros = (1u128 << 64) + 5;
    let r = record_now("POST", "/p", 201, micros, "r", "u");
    assert_eq!((r.method.as_str(), r.path.as_str(), r.status), ("POST", "/p", 201));
    assert_eq!(r.latency_us, micros as u64);
    assert_eq!(r.latency_us, 5);
    assert_eq!((r.remote.as_str(), r.ua.as_str()), ("r", "u"));
    assert_eq!(r.ts.len(), 20);
}
