use nescio::time::{civil_from_days, days_from_civil, format_unix, parse_when, parse_when_in_range};

#[test]
fn civil_roundtrip() {
    assert_eq!(days_from_civil(1970, 1, 1), 0);
    assert_eq!(days_from_civil(2026, 7, 3), 20_637);
    for z in [-1000, 0, 20_637, 99_999] {
        let (y, m, d) = civil_from_days(z);
        assert_eq!(days_from_civil(y, m, d), z);
    }
}

#[test]
fn parse_variants() {
    assert_eq!(parse_when("0").unwrap(), 0);
    assert_eq!(parse_when("2026-07-03").unwrap(), 20_637 * 86_400);
    assert_eq!(
        parse_when("2026-07-03T01:02:03").unwrap(),
        20_637 * 86_400 + 3723
    );
    assert!(parse_when("gestern").is_err());
    assert_eq!(format_unix(20_637 * 86_400), "2026-07-03");
}

#[test]
fn civil_dates_known_values() {
    assert_eq!(civil_from_days(0), (1970, 1, 1));
    assert_eq!(civil_from_days(-1), (1969, 12, 31));
    assert_eq!(civil_from_days(11_016), (2000, 2, 29));
    assert_eq!(civil_from_days(-719_162), (1, 1, 1));
    assert_eq!(days_from_civil(2000, 2, 29), 11_016);
    assert_eq!(days_from_civil(1, 1, 1), -719_162);
    // A day past the end of its month counts on.
    assert_eq!(days_from_civil(2026, 2, 31), days_from_civil(2026, 3, 3));
}

#[test]
fn parse_forms_and_whitespace() {
    assert_eq!(parse_when("  1751500800 ").unwrap(), 1_751_500_800);
    assert_eq!(parse_when("-5").unwrap(), -5);
    assert_eq!(parse_when("+7").unwrap(), 7);
    assert_eq!(parse_when("2026-06-25").unwrap(), 1_782_345_600);
    assert_eq!(parse_when("2026-07-03 14:30").unwrap(), 20_637 * 86_400 + 14 * 3600 + 30 * 60);
    assert_eq!(parse_when("2026-07-03T01:02:03Z").unwrap(), 20_637 * 86_400 + 3723);
    assert_eq!(parse_when("1970-01-01T00:00:00").unwrap(), 0);
}

#[test]
fn parse_refusals() {
    assert!(parse_when("").is_err());
    assert!(parse_when("2026-13-01").is_err());
    assert!(parse_when("2026-00-01").is_err());
    assert!(parse_when("2026-01-32").is_err());
    assert!(parse_when("2026-01").is_err());
    assert!(parse_when("2026-01-01-01").is_err());
    assert!(parse_when("2026-07-03T24:00").is_err());
    assert!(parse_when("2026-07-03T12").is_err());
    assert!(parse_when("2026-07-03T12:00:00:00").is_err());
    assert!(parse_when("2026-07-03T12:60").is_err());
    assert!(parse_when("99999999999999999999").is_err());
}

#[test]
fn range_check_guards_huge_years() {
    assert!(parse_when_in_range("2026-07-03"));
    assert!(parse_when_in_range("gestern"));
    assert!(!parse_when_in_range("99999999999999-01-01"));
}

#[test]
fn format_forms() {
    assert_eq!(format_unix(0), "1970-01-01");
    assert_eq!(format_unix(-1), "1969-12-31T23:59:59");
    assert_eq!(format_unix(20_637 * 86_400 + 3723), "2026-07-03T01:02:03");
    assert_eq!(format_unix(951_782_400), "2000-02-29");
    assert_eq!(format_unix(-62_135_596_800), "0001-01-01");
}

#[test]
fn format_then_parse_gives_back_the_time() {
    for t in [0i64, -1, 1, 86_399, 951_782_400, 1_783_040_523, -62_135_596_800] {
        assert_eq!(parse_when(&format_unix(t)).unwrap(), t);
    }
}

#[test]
fn refusal_quotes_the_trimmed_text() {
    match parse_when("  gestern \n") {
        Err(nescio::error::Error::Invalid(m)) => assert_eq!(
            m,
            "cannot parse time \"gestern\"; use YYYY-MM-DD, YYYY-MM-DDTHH:MM[:SS], or unix seconds"
        ),
        other => panic!("unexpected {other:?}"),
    }
}

#[test]
fn five_digit_years_read_back() {
    let t = days_from_civil(12_345, 6, 7) * 86_400 + 5;
    assert_eq!(format_unix(t), "12345-06-07T00:00:05");
    assert_eq!(parse_when(&format_unix(t)).unwrap(), t);
    let y0 = -62_167_219_200i64;
    assert_eq!(format_unix(y0), "0000-01-01");
    assert_eq!(parse_when(&format_unix(y0)).unwrap(), y0);
}
