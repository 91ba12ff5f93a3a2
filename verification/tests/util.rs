use lib::util::{count, find_subslice, format_age, parse_duration};

#[test]
fn parse_duration_accepts_every_documented_unit() {
    assert_eq!(parse_duration("12h").unwrap(), 12 * 3_600);
    assert_eq!(parse_duration("30d").unwrap(), 30 * 86_400);
    assert_eq!(parse_duration("2w").unwrap(), 14 * 86_400);
    assert_eq!(parse_duration("6mo").unwrap(), 180 * 86_400);
    assert_eq!(parse_duration("1y").unwrap(), 365 * 86_400);
}

#[test]
fn parse_duration_rejects_bare_numbers() {
    assert!(parse_duration("90").is_err());
}

#[test]
fn parse_duration_rejects_unknown_units_and_garbage() {
    assert!(parse_duration("10parsecs").is_err());
    assert!(parse_duration("d").is_err());
    assert!(parse_duration("").is_err());
    assert!(parse_duration("-3d").is_err());
}

#[test]
fn parse_duration_rejects_overflow() {
    assert!(parse_duration("99999999999999999999y").is_err());
    assert!(parse_duration("999999999999999999y").is_err());
}

#[test]
fn parse_duration_error_messages_name_the_problem() {
    assert_eq!(parse_duration(" 90 ").unwrap_err(), "duration '90' needs a unit (h, d, w, mo, y)");
    assert_eq!(parse_duration("d").unwrap_err(), "duration 'd' must start with a number");
    assert_eq!(
        parse_duration("10parsecs").unwrap_err(),
        "unknown duration unit 'parsecs' (use h, d, w, mo, y)"
    );
    assert_eq!(
        parse_duration("99999999999999999999y").unwrap_err(),
        "invalid duration number in '99999999999999999999y'"
    );
    assert_eq!(parse_duration("999999999999999999y").unwrap_err(), "duration '999999999999999999y' overflows");
    assert_eq!(parse_duration("  3d\n").unwrap(), 3 * 86_400);
}

#[test]
fn count_pluralizes_everything_but_exactly_one() {
    assert_eq!(count(0, "binary", "binaries"), "0 binaries");
    assert_eq!(count(1, "binary", "binaries"), "1 binary");
    assert_eq!(count(2, "package", "packages"), "2 packages");
}

#[test]
fn format_age_picks_the_right_scale() {
    assert_eq!(format_age(0), "now");
    assert_eq!(format_age(59), "now");
    assert_eq!(format_age(60), "1m");
    assert_eq!(format_age(3 * 3_600 + 40), "3h");
    assert_eq!(format_age(86_400), "1d");
    assert_eq!(format_age(230 * 86_400), "230d");
    assert_eq!(format_age(365 * 86_400), "1y");
    assert_eq!(format_age((365 + 45) * 86_400), "1y 45d");
    assert_eq!(format_age(3 * 365 * 86_400), "3y");
}

#[test]
fn find_subslice_locates_needles_and_handles_edges() {
    assert_eq!(find_subslice(b"abcdef", b"cd"), Some(2));
    assert_eq!(find_subslice(b"abcdef", b"abcdef"), Some(0));
    assert_eq!(find_subslice(b"abcdef", b"xy"), None);
    assert_eq!(find_subslice(b"ab", b"abc"), None);
    assert_eq!(find_subslice(b"abc", b""), None);
}

#[test]
fn find_subslice_reports_the_first_occurrence() {
    assert_eq!(find_subslice(b"xabab", b"ab"), Some(1));
}
