use lap_leaderboard::duration::{parse_duration, SLOWEST_MS};

#[test]
fn parses_minute_colon_form() {
    // 1 minute 30.5 seconds = 90.5 s = 90_500 ms
    assert_eq!(parse_duration("1:30.500"), 90_500);
    assert_eq!(90_500 as f64 / 1000.0, 90.5);
}

#[test]
fn parses_plain_seconds_with_fraction() {
    assert_eq!(parse_duration("90.500"), 90_500);
}

#[test]
fn parses_dotted_minute_form() {
    // 1.30.500 reads as 1 min, 30 s, 500 ms
    assert_eq!(parse_duration("1.30.500"), 90_500);
}

#[test]
fn unparsable_string_is_slowest() {
    assert_eq!(parse_duration("garbage"), SLOWEST_MS);
    assert_eq!(SLOWEST_MS, u64::MAX);
}

#[test]
fn parses_whole_seconds() {
    assert_eq!(parse_duration("90"), 90_000);
    assert_eq!(parse_duration("0"), 0);
}

#[test]
fn parsing_is_deterministic() {
    assert_eq!(parse_duration("1:29.999"), parse_duration("1:29.999"));
    assert_eq!(parse_duration("1:29.999"), 89_999);
}

#[test]
fn unparsable_components_default_to_zero() {
    // In the colon form bad parts count as zero, as does a bare colon.
    assert_eq!(parse_duration("abc:def"), 0);
    assert_eq!(parse_duration(":"), 0);
    assert_eq!(parse_duration("abc:30"), 30_000);
    assert_eq!(parse_duration("2:abc"), 120_000);
}

#[test]
fn empty_string_is_slowest() {
    assert_eq!(parse_duration(""), SLOWEST_MS);
}

#[test]
fn too_many_dots_is_slowest() {
    assert_eq!(parse_duration("1.2.3.4"), SLOWEST_MS);
}

#[test]
fn fractional_digits_truncate_past_milliseconds() {
    assert_eq!(parse_duration("0.5009"), 500);
    assert_eq!(parse_duration("0.5"), 500);
    assert_eq!(parse_duration("0.05"), 50);
}

#[test]
fn fractional_minutes_count() {
    // 1.5 minutes and 30 seconds
    assert_eq!(parse_duration("1.5:30"), 120_000);
}

#[test]
fn bare_dot_forms() {
    // "." splits into two empty parts, both zero
    assert_eq!(parse_duration("."), 0);
    assert_eq!(parse_duration("5."), 5_000);
    assert_eq!(parse_duration(".5"), 500);
}

#[test]
fn splits_once_on_colon() {
    // the remainder after the first ':' is one seconds component;
    // with another ':' inside it is unparsable and counts as zero
    assert_eq!(parse_duration("1:30:45"), 60_000);
    assert_eq!(parse_duration(":30:45"), 0);
    assert_eq!(parse_duration("2:15.5:9"), 120_000);
}
