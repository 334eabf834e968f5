use chrono::Datelike;
use series_chart::date::Date;

#[test]
fn day_numbers_match_chrono() {
    // chrono counts 0001-01-01 as day 1 of the common era; the library
    // counts it as day 0
    let cases = [
        (1u64, 1u64, 1u64),
        (1970, 1, 1),
        (2000, 2, 29),
        (2023, 12, 31),
        (2024, 1, 1),
        (2024, 2, 29),
        (2024, 3, 1),
        (9999, 12, 31),
    ];
    for (y, m, d) in cases {
        let ours = Date::from_ymd(y, m, d).unwrap();
        let theirs = chrono::NaiveDate::from_ymd_opt(y as i32, m as u32, d as u32)
            .unwrap()
            .num_days_from_ce() as u64;
        assert_eq!(ours.day + 1, theirs, "mismatch on {}-{}-{}", y, m, d);
    }
}

#[test]
fn consecutive_dates_differ_by_one_day() {
    let a = Date::from_ymd(2024, 2, 28).unwrap();
    let b = Date::from_ymd(2024, 2, 29).unwrap();
    let c = Date::from_ymd(2024, 3, 1).unwrap();
    assert_eq!(a.day + 1, b.day);
    assert_eq!(b.day + 1, c.day);
    let x = Date::from_ymd(2023, 12, 31).unwrap();
    let y = Date::from_ymd(2024, 1, 1).unwrap();
    assert_eq!(x.day + 1, y.day);
}

#[test]
fn invalid_dates_are_rejected() {
    assert!(Date::from_ymd(2023, 2, 29).is_none());
    assert!(Date::from_ymd(2024, 2, 29).is_some());
    assert!(Date::from_ymd(1900, 2, 29).is_none());
    assert!(Date::from_ymd(2000, 2, 29).is_some());
    assert!(Date::from_ymd(2024, 13, 1).is_none());
    assert!(Date::from_ymd(2024, 0, 1).is_none());
    assert!(Date::from_ymd(2024, 4, 31).is_none());
    assert!(Date::from_ymd(0, 1, 1).is_none());
    assert!(Date::from_ymd(10000, 1, 1).is_none());
    assert!(Date::from_ymd(2024, 1, 0).is_none());
}
