use forkd::calendar::{chrono_like_now, epoch_to_ymd_hms, stamp, unix_secs_now};
use forkd::sizes::{human_age, human_age_at, human_bytes};

#[test]
fn human_bytes_formats() {
    assert_eq!(human_bytes(0), "0 KiB");
    assert_eq!(human_bytes(1024), "1 KiB");
    assert_eq!(human_bytes(2 * 1024 * 1024), "2.0 MiB");
    assert_eq!(human_bytes(3 * 1024 * 1024 * 1024), "3.00 GiB");
}

fn by_double(n: u64) -> String {
    let n = n as f64;
    if n >= 1024.0 * 1024.0 * 1024.0 {
        format!("{:.2} GiB", n / 1024.0 / 1024.0 / 1024.0)
    } else if n >= 1024.0 * 1024.0 {
        format!("{:.1} MiB", n / 1024.0 / 1024.0)
    } else {
        format!("{:.0} KiB", n / 1024.0)
    }
}

#[test]
fn byte_counts_are_what_doubles_come_to() {
    let mut n: u64 = 0x9e37_79b9_7f4a_7c15;
    for shift in 0..64u32 {
        for _ in 0..200 {
            n = n.wrapping_mul(6364136223846793005).wrapping_add(1442695040888963407);
            let x = n >> shift;
            assert_eq!(human_bytes(x), by_double(x), "{x}");
        }
    }
    for exp in 0..64u32 {
        let p = 1u64 << exp;
        for x in [p - 1, p, p + 1, p + p / 2, p + p / 4, p + p / 8, p | 512, p | 0x8_0000, p | 0x2000_0000] {
            assert_eq!(human_bytes(x), by_double(x), "{x}");
        }
    }
    for x in [512, 1536, 2560, 1_048_575, 1_073_741_823, (1 << 53) + 1, (1 << 53) + 3, u64::MAX, u64::MAX - 1024] {
        assert_eq!(human_bytes(x), by_double(x), "{x}");
    }
}

#[test]
fn ages_in_words() {
    assert_eq!(human_age_at(1_000_000_000, 0), "—");
    assert_eq!(human_age_at(100, 100), "0s ago");
    assert_eq!(human_age_at(100, 200), "0s ago");
    assert_eq!(human_age_at(159, 100), "59s ago");
    assert_eq!(human_age_at(160, 100), "1m ago");
    assert_eq!(human_age_at(1 + 3599, 1), "59m ago");
    assert_eq!(human_age_at(1 + 3600, 1), "1h ago");
    assert_eq!(human_age_at(1 + 12 * 3600, 1), "12h ago");
    assert_eq!(human_age_at(1 + 86399, 1), "23h ago");
    assert_eq!(human_age_at(1 + 2 * 86400, 1), "2d ago");
    assert_eq!(human_age_at(1 + 30 * 86400 - 1, 1), "29d ago");
    assert_eq!(human_age_at(1 + 30 * 86400, 1), "1mo ago");
    assert_eq!(human_age_at(1 + 65 * 86400, 1), "2mo ago");
    assert_eq!(human_age(0), "—");
    assert!(human_age(1).ends_with("mo ago"));
    assert!(human_age(u64::MAX).ends_with("s ago"));
}

#[test]
fn epoch_basic() {
    // 2020-01-01T00:00:00Z = 1577836800
    let (y, m, d, h, mm, s) = epoch_to_ymd_hms(1_577_836_800);
    assert_eq!((y, m, d, h, mm, s), (2020, 1, 1, 0, 0, 0));
}

#[test]
fn dates_agree_with_another_calendar() {
    for day in (0..2_900_000u64).step_by(997) {
        let secs = day * 86400 + day % 86400;
        let t = time::OffsetDateTime::from_unix_timestamp(secs as i64).unwrap();
        assert_eq!(
            epoch_to_ymd_hms(secs),
            (
                t.year() as u32,
                u8::from(t.month()) as u32,
                t.day() as u32,
                t.hour() as u32,
                t.minute() as u32,
                t.second() as u32
            )
        );
    }
    assert_eq!(epoch_to_ymd_hms(951_782_400), (2000, 2, 29, 0, 0, 0));
    assert_eq!(epoch_to_ymd_hms(4_107_542_400), (2100, 3, 1, 0, 0, 0));
}

#[test]
fn stamps() {
    assert_eq!(stamp(0), "1970-01-01T00:00:00Z");
    assert_eq!(stamp(1_577_836_799), "2019-12-31T23:59:59Z");
    assert_eq!(stamp(253_402_300_800), "10000-01-01T00:00:00Z");
    assert!(unix_secs_now() > 1_577_836_800);
    assert!(chrono_like_now().as_str() > "2020-01-01T00:00:00Z");
}
