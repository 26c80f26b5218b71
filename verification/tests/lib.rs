use clove_core::VERSION;

/// The release name and the package version are two spellings of one thing.
#[test]
fn version_matches_the_manifest() {
    let major = "2026";
    let minor: u32 = "8".parse().unwrap();
    let patch: u32 = "0".parse().unwrap();
    let expected = if patch == 0 {
        format!("{major}.{minor:02}")
    } else {
        format!("{major}.{minor:02}.{patch}")
    };
    assert_eq!(VERSION, expected);
}

/// The scheme itself, not this release: a year that is four digits and a month
/// that is two and lands in the calendar.
#[test]
fn version_is_a_calendar_date() {
    let (year, rest) = VERSION.split_once('.').unwrap();
    let month = rest.split_once('.').map_or(rest, |(m, _)| m);
    assert_eq!(year.len(), 4, "the year is spelled in full: {VERSION}");
    assert_eq!(month.len(), 2, "the month is zero-padded: {VERSION}");
    assert!(year.parse::<u32>().unwrap() >= 2026);
    assert!((1..=12).contains(&month.parse::<u32>().unwrap()), "{VERSION}");
}
