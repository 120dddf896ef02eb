use org_tools_core::rules::timestamp::{find_timestamps, is_valid_date, is_valid_repeater, parse_timestamp};

#[test]
fn parse_active_date() {
    let (ts, end) = parse_timestamp("<2024-01-15 Mon>", 0).unwrap();
    assert!(ts.active);
    assert_eq!(ts.year, 2024);
    assert_eq!(ts.month, 1);
    assert_eq!(ts.day, 15);
    assert_eq!(ts.dayname.as_deref(), Some("Mon"));
    assert_eq!(end, 16);
}

#[test]
fn parse_inactive_with_time() {
    let (ts, _) = parse_timestamp("[2024-01-15 Mon 09:30]", 0).unwrap();
    assert!(!ts.active);
    assert_eq!(ts.hour, Some(9));
    assert_eq!(ts.minute, Some(30));
}

#[test]
fn parse_with_repeater() {
    let (ts, _) = parse_timestamp("<2024-01-15 Mon +1w>", 0).unwrap();
    assert_eq!(ts.repeater.as_deref(), Some("+1w"));
}

#[test]
fn parse_with_warning() {
    let (ts, _) = parse_timestamp("<2024-01-15 Mon +1w -3d>", 0).unwrap();
    assert_eq!(ts.repeater.as_deref(), Some("+1w"));
    assert_eq!(ts.warning.as_deref(), Some("-3d"));
}

#[test]
fn valid_dates() {
    assert!(is_valid_date(2024, 2, 29)); // Leap year.
    assert!(is_valid_date(2024, 12, 31));
    assert!(!is_valid_date(2023, 2, 29)); // Not a leap year.
    assert!(!is_valid_date(2024, 13, 1));
    assert!(!is_valid_date(2024, 0, 1));
    assert!(!is_valid_date(2024, 2, 30));
}

#[test]
fn valid_repeaters() {
    assert!(is_valid_repeater("+1w"));
    assert!(is_valid_repeater("++2m"));
    assert!(is_valid_repeater(".+3d"));
    assert!(!is_valid_repeater("+1x"));
    assert!(!is_valid_repeater("1w"));
    assert!(!is_valid_repeater("+"));
}

#[test]
fn find_multiple_timestamps() {
    let line = "SCHEDULED: <2024-01-15 Mon> DEADLINE: <2024-02-01 Thu>";
    let ts = find_timestamps(line);
    assert_eq!(ts.len(), 2);
    assert_eq!(ts[0].0.day, 15);
    assert_eq!(ts[1].0.day, 1);
}

#[test]
fn no_timestamps() {
    assert!(find_timestamps("just text").is_empty());
}
