use strength::date::{parse_date, Date};

#[test]
fn parses_a_plain_date() {
    let d = parse_date("2020-04-01").unwrap();
    assert_eq!(2020, d.year);
    assert_eq!(4, d.month);
    assert_eq!(1, d.day);
}

#[test]
fn rejects_malformed_fields() {
    assert!(parse_date("").is_none());
    assert!(parse_date("not-a-date").is_none());
    assert!(parse_date("2020-4-1").is_none());
    assert!(parse_date("2020/04/01").is_none());
    assert!(parse_date("2020-04-01x").is_none());
    assert!(parse_date("20200401").is_none());
}

#[test]
fn rejects_days_outside_the_calendar() {
    assert!(parse_date("2020-00-10").is_none());
    assert!(parse_date("2020-13-10").is_none());
    assert!(parse_date("2020-04-31").is_none());
    assert!(parse_date("2020-02-30").is_none());
    assert!(parse_date("2021-04-00").is_none());
}

#[test]
fn leap_years_gain_a_day() {
    assert!(parse_date("2020-02-29").is_some());
    assert!(parse_date("2019-02-29").is_none());
    assert!(parse_date("1900-02-29").is_none());
    assert!(parse_date("2000-02-29").is_some());
}

#[test]
fn renders_back_to_the_same_text() {
    let d = Date { year: 2020, month: 4, day: 1 };
    assert_eq!("2020-04-01", d.to_text());
    let late = Date { year: 999, month: 12, day: 31 };
    assert_eq!("0999-12-31", late.to_text());
    let parsed = parse_date("2024-02-29").unwrap();
    assert_eq!("2024-02-29", parsed.to_text());
}
