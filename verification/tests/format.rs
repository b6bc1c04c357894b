use rfc3339::{format_unix, format_unix_fixed, rdn_to_ymd};

#[test]
fn test_format_unix() {
    let seconds: u64 = 1445470140;
    let micros: u32 = 123456;

    let result = format_unix(seconds, micros);

    let expected = "2015-10-21T23:29:00.123456Z";
    assert_eq!(result.as_str(), expected);
}

#[test]
fn test_known_value_round_trip() {
    let result = format_unix(1609459200, 0);
    assert_eq!(result.as_str(), "2021-01-01T00:00:00.000000Z");
}

#[test]
fn test_epoch_boundary() {
    let result = format_unix(0, 0);
    assert_eq!(result.as_str(), "1970-01-01T00:00:00.000000Z");
}

#[test]
fn test_leap_day_2020() {
    // 2020-02-29T00:00:00Z
    let result = format_unix(1582934400, 0);
    assert_eq!(result.as_str(), "2020-02-29T00:00:00.000000Z");
}

#[test]
fn test_century_non_leap_2100() {
    // 2100 is divisible by 4 but not by 400, so it has no Feb 29: the last
    // second of 2100-02-28 is followed directly by March 1.
    let last = format_unix(4107542399, 0);
    assert_eq!(last.as_str(), "2100-02-28T23:59:59.000000Z");
    let next = format_unix(4107542400, 0);
    assert_eq!(next.as_str(), "2100-03-01T00:00:00.000000Z");
}

#[test]
fn test_leap_day_2000() {
    // 2000 is divisible by 400 and keeps its Feb 29.
    let result = format_unix(951782400, 0);
    assert_eq!(result.as_str(), "2000-02-29T00:00:00.000000Z");
}

#[test]
fn test_string_order_matches_time_order() {
    let pairs: [(u64, u64); 4] = [
        (100, 101),
        (1609459199, 1609459200),
        (951782399, 951782400),
        (0, 4107542400),
    ];
    for (s1, s2) in pairs {
        let a = format_unix(s1, 5);
        let b = format_unix(s2, 5);
        assert!(a < b, "{} should sort before {}", a, b);
    }
}

#[test]
fn test_deterministic() {
    let a = format_unix(1445470140, 123456);
    let b = format_unix(1445470140, 123456);
    assert_eq!(a, b);
}

#[test]
fn test_field_widths_and_separators() {
    let inputs: [(u64, u32); 3] = [(0, 0), (1445470140, 123456), (4107542399, 999999)];
    for (seconds, micros) in inputs {
        let s = format_unix(seconds, micros);
        let bytes = s.as_bytes();
        assert_eq!(bytes.len(), 27);
        assert_eq!(bytes[4], b'-');
        assert_eq!(bytes[7], b'-');
        assert_eq!(bytes[10], b'T');
        assert_eq!(bytes[13], b':');
        assert_eq!(bytes[16], b':');
        assert_eq!(bytes[19], b'.');
        assert_eq!(bytes[26], b'Z');
        for (i, c) in bytes.iter().enumerate() {
            if ![4, 7, 10, 13, 16, 19, 26].contains(&i) {
                assert!(c.is_ascii_digit(), "position {} of {}", i, s);
            }
        }
    }
}

#[test]
fn test_micros_out_of_range_rendered_as_given() {
    // A microsecond value of 1,000,000 or more is not reduced: it widens the
    // fraction field instead of being silently wrapped.
    let result = format_unix(0, 1000000);
    assert_eq!(result.as_str(), "1970-01-01T00:00:00.1000000Z");
}

#[test]
fn test_five_digit_year() {
    // The year field is four digits minimum but never truncated.
    let result = format_unix(253402300800, 0);
    assert_eq!(result.as_str(), "10000-01-01T00:00:00.000000Z");
}

#[test]
fn test_rdn_to_ymd_known_days() {
    assert_eq!(rdn_to_ymd(0), (0, 12, 31));
    assert_eq!(rdn_to_ymd(1), (1, 1, 1));
    assert_eq!(rdn_to_ymd(719163), (1970, 1, 1));
    // Feb 29 of year 2000, day by day across the leap boundary.
    assert_eq!(rdn_to_ymd(730179), (2000, 2, 29));
    assert_eq!(rdn_to_ymd(730180), (2000, 3, 1));
    // 2100 has no Feb 29.
    assert_eq!(rdn_to_ymd(766703), (2100, 2, 28));
    assert_eq!(rdn_to_ymd(766704), (2100, 3, 1));
}

#[test]
fn test_fixed_matches_growable() {
    let fixed = format_unix_fixed(1445470140, 123456);
    let grown = format_unix(1445470140, 123456);
    assert_eq!(fixed.as_str(), grown.as_str());
    assert_eq!(fixed.as_str(), "2015-10-21T23:29:00.123456Z");
}

#[test]
fn test_fixed_epoch() {
    let fixed = format_unix_fixed(0, 0);
    assert_eq!(fixed.as_str(), "1970-01-01T00:00:00.000000Z");
    assert_eq!(fixed.len(), 27);
}
