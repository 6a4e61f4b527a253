use debug_log_tool::timestamp::parse_timestamp;

#[test]
fn parses_seconds_only() {
    let k = parse_timestamp("2026-05-15T00:06:31 hello").unwrap();
    assert_eq!(k.year, 2026);
    assert_eq!(k.second, 31);
    assert_eq!(k.nanos, 0);
}

#[test]
fn parses_with_fractional_and_z() {
    let k = parse_timestamp("2026-05-15T00:06:31.149660Z hello").unwrap();
    assert_eq!(k.second, 31);
    assert_eq!(k.nanos, 149_660_000);
}

#[test]
fn fractional_compares_against_whole_seconds() {
    let whole = parse_timestamp("2026-05-15T00:06:31").unwrap();
    let frac = parse_timestamp("2026-05-15T00:06:31.000001Z").unwrap();
    assert!(whole < frac);

    let earlier_whole = parse_timestamp("2026-05-15T00:06:30").unwrap();
    let later_frac = parse_timestamp("2026-05-15T00:06:31.000000Z").unwrap();
    assert!(earlier_whole < later_frac);
}

#[test]
fn rejects_garbage() {
    assert!(parse_timestamp("").is_none());
    assert!(parse_timestamp("not a timestamp").is_none());
    assert!(parse_timestamp("2026/05/15T00:06:31").is_none());
    assert!(parse_timestamp("2026-05-15T00:06:31.").is_none());
}

#[test]
fn keys_are_ordered_field_by_field() {
    let stamps = [
        "2025-12-31T23:59:59.999999999Z",
        "2026-01-01T00:00:00",
        "2026-01-01T00:00:00.000000001Z",
        "2026-01-01T00:00:01",
        "2026-01-01T00:01:00",
        "2026-01-01T01:00:00",
        "2026-01-02T00:00:00",
        "2026-02-01T00:00:00",
    ];
    for (i, a) in stamps.iter().enumerate() {
        for (j, b) in stamps.iter().enumerate() {
            let (x, y) = (parse_timestamp(a).unwrap(), parse_timestamp(b).unwrap());
            assert_eq!(x < y, i < j);
            assert_eq!(x == y, i == j);
            assert_eq!(x.precedes(&y), i < j);
        }
    }
}

#[test]
fn fractions_have_one_to_nine_digits() {
    let nanos = |s: &str| parse_timestamp(s).map(|k| k.nanos);
    assert_eq!(nanos("2026-05-15T00:06:31.5Z"), Some(500_000_000));
    assert_eq!(nanos("2026-05-15T00:06:31.000000001"), Some(1));
    assert_eq!(nanos("2026-05-15T00:06:31.0000000001Z"), None);
    assert_eq!(nanos("2026-05-15T00:06:31Z"), Some(0));
    assert_eq!(nanos("2026-05-15T00:06:3x"), None);
    assert_eq!(nanos("2026-99-99T99:99:99"), Some(0));
}
