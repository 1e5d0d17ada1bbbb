use get_bicho::date::{leap_year, month_length, Date};

fn day(year: u16, month: u8, day: u8) -> Date {
    Date { year, month, day }
}

#[test]
fn parse_reads_day_month_year() {
    assert_eq!(Date::parse("05/03/2024"), Some(day(2024, 3, 5)));
    assert_eq!(Date::parse("31/12/1999"), Some(day(1999, 12, 31)));
    assert_eq!(Date::parse("29/02/2024"), Some(day(2024, 2, 29)));
    assert_eq!(Date::parse("01/01/0000"), Some(day(0, 1, 1)));
}

#[test]
fn parse_refuses_other_shapes() {
    assert_eq!(Date::parse(""), None);
    assert_eq!(Date::parse("5/3/2024"), None);
    assert_eq!(Date::parse("05-03-2024"), None);
    assert_eq!(Date::parse("2024/03/05"), None);
    assert_eq!(Date::parse("05/03/24"), None);
    assert_eq!(Date::parse("05/03/2024 "), None);
    assert_eq!(Date::parse("0a/03/2024"), None);
    assert_eq!(Date::parse("+5/03/2024"), None);
    assert_eq!(Date::parse("05/03/20245"), None);
}

#[test]
fn parse_refuses_days_that_do_not_exist() {
    assert_eq!(Date::parse("00/03/2024"), None);
    assert_eq!(Date::parse("32/01/2024"), None);
    assert_eq!(Date::parse("31/04/2024"), None);
    assert_eq!(Date::parse("29/02/2023"), None);
    assert_eq!(Date::parse("29/02/1900"), None);
    assert_eq!(Date::parse("29/02/2000"), Some(day(2000, 2, 29)));
    assert_eq!(Date::parse("01/00/2024"), None);
    assert_eq!(Date::parse("01/13/2024"), None);
}

#[test]
fn normalized_falls_back_to_the_epoch() {
    assert_eq!(Date::normalized(&None), day(1970, 1, 1));
    assert_eq!(Date::normalized(&Some("not a date".to_string())), day(1970, 1, 1));
    assert_eq!(Date::normalized(&Some("31/02/2024".to_string())), day(1970, 1, 1));
    assert_eq!(Date::normalized(&Some("07/09/2022".to_string())), day(2022, 9, 7));
    assert_eq!(Date::epoch(), day(1970, 1, 1));
}

#[test]
fn new_checks_the_calendar() {
    assert_eq!(Date::new(2024, 2, 29), Some(day(2024, 2, 29)));
    assert_eq!(Date::new(2023, 2, 29), None);
    assert_eq!(Date::new(10000, 1, 1), None);
    assert_eq!(Date::new(9999, 12, 31), Some(day(9999, 12, 31)));
    assert!(day(2024, 6, 30).is_valid());
    assert!(!day(2024, 6, 31).is_valid());
    assert!(!day(2024, 0, 1).is_valid());
}

#[test]
fn leap_years_follow_the_gregorian_rule() {
    assert!(leap_year(2024));
    assert!(!leap_year(2023));
    assert!(!leap_year(1900));
    assert!(leap_year(2000));
    assert_eq!(month_length(2024, 2), 29);
    assert_eq!(month_length(2023, 2), 28);
    assert_eq!(month_length(2023, 11), 30);
    assert_eq!(month_length(2023, 12), 31);
    assert_eq!(month_length(2023, 13), 0);
    assert_eq!(month_length(2023, 0), 0);
}

#[test]
fn before_orders_by_year_then_month_then_day() {
    assert!(day(2023, 12, 31).is_before(&day(2024, 1, 1)));
    assert!(day(2024, 1, 31).is_before(&day(2024, 2, 1)));
    assert!(day(2024, 2, 1).is_before(&day(2024, 2, 2)));
    assert!(!day(2024, 2, 2).is_before(&day(2024, 2, 2)));
    assert!(!day(2024, 2, 3).is_before(&day(2024, 2, 2)));
    assert!(!day(2025, 1, 1).is_before(&day(2024, 12, 31)));
}

#[test]
fn iso_text_is_year_month_day() {
    assert_eq!(day(2024, 3, 5).to_iso(), "2024-03-05");
    assert_eq!(day(1970, 1, 1).to_iso(), "1970-01-01");
    assert_eq!(day(33, 12, 31).to_iso(), "0033-12-31");
}

#[test]
fn iso_text_reads_back() {
    for d in [day(2024, 3, 5), day(1970, 1, 1), day(0, 1, 1), day(9999, 12, 31)] {
        assert_eq!(Date::from_iso(&d.to_iso()), Some(d));
    }
    assert_eq!(Date::from_iso("2024-3-5"), None);
    assert_eq!(Date::from_iso("05/03/2024"), None);
    assert_eq!(Date::from_iso("2024-02-30"), None);
    assert_eq!(Date::from_iso(""), None);
}
