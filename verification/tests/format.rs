use obsidian_daily_qs::format::{format_moment, month_name, weekday_name, Date};

fn date(y: i32, m: u32, d: u32) -> Date {
    Date::from_ymd(y, m, d).unwrap()
}

#[test]
fn formats_default_iso() {
    let d = date(2026, 8, 20);
    assert_eq!(format_moment("YYYY-MM-DD", &d).unwrap(), "2026-08-20");
}

#[test]
fn formats_nested_folders() {
    let d = date(2026, 1, 5);
    assert_eq!(
        format_moment("YYYY/MMMM/YYYY-MMM-DD", &d).unwrap(),
        "2026/January/2026-Jan-05"
    );
}

#[test]
fn formats_weekday() {
    let d = date(2026, 8, 20);
    assert_eq!(format_moment("dddd", &d).unwrap(), "Thursday");
    assert_eq!(format_moment("ddd", &d).unwrap(), "Thu");
}

#[test]
fn formats_short_tokens_and_literals() {
    let d = date(2026, 3, 7);
    assert_eq!(format_moment("YY M D", &d).unwrap(), "26 3 7");
    assert_eq!(format_moment("[Day] D.M", &d).unwrap(), "[7ay] 7.3");
    assert_eq!(format_moment("MMMM dddd", &d).unwrap(), "March Saturday");
    assert_eq!(format_moment("é/YYYY", &d).unwrap(), "é/2026");
}

#[test]
fn empty_format_is_refused() {
    assert_eq!(
        format_moment("", &date(2026, 3, 7)),
        Err("format is empty".to_string())
    );
}

#[test]
fn pads_small_years() {
    let d = date(7, 1, 2);
    assert_eq!(format_moment("YYYY-MM-DD", &d).unwrap(), "0007-01-02");
    assert_eq!(format_moment("YY", &d).unwrap(), "07");
}

#[test]
fn names_months_and_weekdays() {
    assert_eq!(month_name(1), Ok("January"));
    assert_eq!(month_name(12), Ok("December"));
    assert!(month_name(13).is_err());
    assert_eq!(weekday_name(&date(2026, 8, 17)), Ok("Monday"));
    assert_eq!(weekday_name(&date(2026, 8, 23)), Ok("Sunday"));
}

#[test]
fn date_arithmetic_and_reading() {
    let d = date(2026, 2, 28);
    assert_eq!(d.checked_add_days(1).unwrap().iso(), "2026-03-01");
    assert_eq!(d.checked_sub_days(28).unwrap().iso(), "2026-01-31");
    assert_eq!(d.days_until(&date(2026, 3, 10)), 10);
    assert_eq!(d.weekday_from_monday(), 5);
    assert_eq!(Date::parse_iso("2026-08-20").unwrap().iso(), "2026-08-20");
    assert!(Date::parse_iso("2026-13-01").is_none());
    assert!(Date::parse_iso("tomorrow").is_none());
    assert!(Date::from_ymd(2026, 2, 30).is_none());
}

#[test]
fn calendar_validity_and_iso_text_edges() {
    assert!(Date::from_ymd(2024, 2, 29).is_some());
    assert!(Date::from_ymd(2023, 2, 29).is_none());
    assert!(Date::from_ymd(1900, 2, 29).is_none());
    assert!(Date::from_ymd(2000, 2, 29).is_some());
    assert!(Date::from_ymd(2026, 4, 31).is_none());
    assert!(Date::from_ymd(2026, 0, 1).is_none());
    assert!(Date::from_ymd(2026, 1, 0).is_none());
    assert!(Date::from_ymd(262142, 12, 31).is_some());
    assert!(Date::from_ymd(262143, 1, 1).is_none());
    assert!(Date::from_ymd(-262143, 1, 1).is_some());
    assert!(Date::from_ymd(-262144, 12, 31).is_none());
    assert_eq!(date(987, 3, 4).iso(), "0987-03-04");
    assert_eq!(date(12345, 1, 1).iso(), "+12345-01-01");
    assert_eq!(date(-1, 1, 1).iso(), "-0001-01-01");
    for d in [date(987, 3, 4), date(12345, 1, 1), date(-1, 1, 1), date(2024, 2, 29)] {
        assert_eq!(Date::parse_iso(&d.iso()), Some(d));
    }
}
