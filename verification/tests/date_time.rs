use appkit::date_time::LOCAL_OFFSET;
use appkit::DateTime;

fn fields(t: &DateTime) -> (u64, u8, u8, u8, u8, u8, u8) {
    (t.year, t.month, t.day, t.week, t.hour, t.minute, t.second)
}

#[test]
fn epoch_is_a_thursday() {
    let t = DateTime::new(0);
    assert_eq!(fields(&t), (1970, 1, 1, 4, 0, 0, 0));
    assert_eq!(t.full_seconds, 0);
    assert_eq!(t.offset, 0);
}

#[test]
fn a_known_date() {
    // 2021-03-04 05:06:07 UTC
    let t = DateTime::new(1_614_834_367);
    assert_eq!(fields(&t), (2021, 3, 4, 4, 5, 6, 7));
}

#[test]
fn leap_day() {
    // 2020-02-29 12:00:00 UTC
    let t = DateTime::new(1_582_977_600);
    assert_eq!(fields(&t), (2020, 2, 29, 6, 12, 0, 0));
}

#[test]
fn last_day_of_a_year() {
    // 1999-12-31 23:59:59 UTC
    let t = DateTime::new(946_684_799);
    assert_eq!(fields(&t), (1999, 12, 31, 5, 23, 59, 59));
}

#[test]
fn add_time_moves_on() {
    let mut t = DateTime::new(0);
    t.add_time(86_400 + 3_600 + 61);
    assert_eq!(fields(&t), (1970, 1, 2, 5, 1, 1, 1));
    t.add_time(-61);
    assert_eq!(fields(&t), (1970, 1, 2, 5, 1, 0, 0));
    assert_eq!(t.full_seconds, 86_400 + 3_600);
}

#[test]
fn add_time_composes() {
    let mut a = DateTime::new(1_000_000);
    a.add_time(12_345);
    a.add_time(678);
    let b = DateTime::new(1_000_000 + 12_345 + 678);
    assert_eq!(fields(&a), fields(&b));
}

#[test]
fn clock_time_is_nine_hours_ahead() {
    // 1970-01-01 15:00:00 at nine hours from UTC
    let t = DateTime::from_clock(6 * 3600).unwrap();
    assert_eq!(fields(&t), (1970, 1, 1, 4, 15, 0, 0));
    assert_eq!(t.offset, LOCAL_OFFSET);
    assert_eq!(t.full_seconds, 6 * 3600);
}

#[test]
fn new_year_of_1971_does_not_convert() {
    // local 1971-01-01 00:00:00 at nine hours from UTC
    assert!(DateTime::from_clock(31_536_000 - 32_400).is_none());
    // one day earlier converts
    let t = DateTime::from_clock(31_536_000 - 32_400 - 86_400).unwrap();
    assert_eq!(fields(&t), (1970, 12, 31, 4, 0, 0, 0));
}

#[test]
fn now_is_after_the_epoch() {
    if let Some(t) = DateTime::now() {
        assert!(t.year >= 2020);
        assert!(t.month >= 1 && t.month <= 12);
    }
}
