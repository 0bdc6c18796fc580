use datetime::gcalendar::{is_leap_year, year_size, DateError, GCalendar};

#[test]
fn new() {
    let gc = GCalendar::new(21, 0, 12, 23, 9, 1983, 5, 265);
    assert_eq!(gc.get_sec(), 21);
    assert_eq!(gc.get_min(), 0);
    assert_eq!(gc.get_hour(), 12);
    assert_eq!(gc.get_day_of_month(), 23);
    assert_eq!(gc.get_month(), 9);
    assert_eq!(gc.get_year(), 1983);
}

#[test]
fn new_from_epoch() {
    let gc = GCalendar::new_from_epoch(433166421023);
    assert_eq!(gc.get_day_of_week(), 5);
    assert_eq!(gc.get_day_of_year(), 265);
}

#[test]
fn new_at_epoch_is_all_zero() {
    let gc = GCalendar::new_at_epoch();
    assert_eq!(gc.get_sec(), 0);
    assert_eq!(gc.get_min(), 0);
    assert_eq!(gc.get_hour(), 0);
    assert_eq!(gc.get_day_of_month(), 0);
    assert_eq!(gc.get_month(), 0);
    assert_eq!(gc.get_year(), 0);
    assert_eq!(gc.get_day_of_week(), 0);
    assert_eq!(gc.get_day_of_year(), 0);
}

#[test]
fn leap_year_rules() {
    assert!(!is_leap_year(1900));
    assert!(is_leap_year(2000));
    assert!(!is_leap_year(1983));
    assert!(is_leap_year(1984));
    assert_eq!(year_size(1900), 365);
    assert_eq!(year_size(2000), 366);
    assert_eq!(year_size(1983), 365);
    assert_eq!(year_size(1984), 366);
}

#[test]
fn reference_vector() {
    let gc = GCalendar::new_from_epoch(433166421023);
    assert_eq!(gc.get_sec(), 21);
    assert_eq!(gc.get_min(), 0);
    assert_eq!(gc.get_hour(), 12);
    assert_eq!(gc.get_day_of_month(), 23);
    assert_eq!(gc.get_month(), 9);
    assert_eq!(gc.get_year(), 1983);
    assert_eq!(gc.get_day_of_week(), 5);
    assert_eq!(gc.get_day_of_year(), 265);
}

#[test]
fn decompose_epoch_start() {
    let gc = GCalendar::new_from_epoch(0);
    assert_eq!(gc.get_sec(), 0);
    assert_eq!(gc.get_min(), 0);
    assert_eq!(gc.get_hour(), 0);
    assert_eq!(gc.get_day_of_month(), 1);
    assert_eq!(gc.get_month(), 1);
    assert_eq!(gc.get_year(), 1970);
    // 1970-01-01 was a Thursday.
    assert_eq!(gc.get_day_of_week(), 4);
    assert_eq!(gc.get_day_of_year(), 0);
}

#[test]
fn decompose_year_end() {
    // 2009-12-31T00:00:00Z, day 14609 since the epoch, a Thursday.
    let gc = GCalendar::new_from_epoch(14609u64 * 86_400_000);
    assert_eq!(gc.get_year(), 2009);
    assert_eq!(gc.get_month(), 12);
    assert_eq!(gc.get_day_of_month(), 31);
    assert_eq!(gc.get_day_of_year(), 364);
    assert_eq!(gc.get_day_of_week(), 4);
    assert_eq!(gc.iso_week('V'), "53");
    assert_eq!(gc.iso_week('G'), "2009");
}

#[test]
fn round_trip_samples() {
    let samples: Vec<u64> = vec![
        0,
        1,
        999,
        1000,
        86_399_999,
        86_400_000,
        433166421023,
        951_782_400_000,
        1234567890543,
        1_262_217_600_000,
        4_102_444_800_123,
    ];
    for &e in samples.iter() {
        let gc = GCalendar::new_from_epoch(e);
        assert_eq!(gc.mktime() * 1000, e - e % 1000);
    }
}

#[test]
fn mktime_reference() {
    let gc = GCalendar::new_from_epoch(433166421023);
    assert_eq!(gc.mktime(), 433166421);
}

#[test]
fn ydhms_diff_one_year() {
    let gc = GCalendar::new_at_epoch();
    // From 1970-01-01T00:00:00 to 1971-01-01T00:00:00: 365 days.
    assert_eq!(gc.ydhms_diff(1971, 0, 0, 0, 0, 1970, 0, 0, 0, 0), 365 * 86400);
    // Across the leap year 1972: 365 + 366 + 365 days.
    assert_eq!(
        gc.ydhms_diff(1973, 0, 0, 0, 0, 1970, 0, 0, 0, 0),
        (365 + 366 + 365) * 86400
    );
}

#[test]
fn iso_week_days_reference() {
    let gc = GCalendar::new_from_epoch(1234567890543);
    // 2009-02-13: year day 43, a Friday.
    assert_eq!(gc.iso_week_days(43, 5), 46);
    assert_eq!(gc.iso_week('V'), "07");
    assert_eq!(gc.iso_week('G'), "2009");
    assert_eq!(gc.iso_week('g'), "09");
    // Any other directive yields the empty string.
    assert_eq!(gc.iso_week('x'), "");
}

#[test]
fn monotone_within_day() {
    let e1: u64 = 433166421023;
    for delta in [1u64, 999, 1000, 60_000, 3_600_000] {
        let e2: u64 = e1 + delta;
        let g1 = GCalendar::new_from_epoch(e1);
        let g2 = GCalendar::new_from_epoch(e2);
        assert_eq!(g1.get_day_of_year(), g2.get_day_of_year());
    }
}

#[test]
fn get_date_unsupported_directive() {
    let gc = GCalendar::new_from_epoch(433166421023);
    assert_eq!(gc.get_date('Q'), Err(DateError::UnsupportedDirective('Q')));
    let other = GCalendar::new_from_epoch(0);
    assert_eq!(other.get_date('Q'), Err(DateError::UnsupportedDirective('Q')));
}

#[test]
fn get_date_lookup_fails_closed() {
    // A hand-built record with out-of-range lookup fields: name lookups
    // are rejected, while plain numeric directives still render.
    let gc = GCalendar::new(0, 0, 0, 1, 13, 1970, 9, 0);
    assert_eq!(gc.get_date('A'), Err(DateError::UnsupportedDirective('A')));
    assert_eq!(gc.get_date('a'), Err(DateError::UnsupportedDirective('a')));
    assert_eq!(gc.get_date('B'), Err(DateError::UnsupportedDirective('B')));
    assert_eq!(gc.get_date('b'), Err(DateError::UnsupportedDirective('b')));
    assert_eq!(gc.get_date('h'), Err(DateError::UnsupportedDirective('h')));
    assert_eq!(gc.get_date('m').unwrap(), "13");
    assert_eq!(gc.get_date('w').unwrap(), "9");
}

#[test]
fn get_date_single_directives() {
    let gc = GCalendar::new_from_epoch(1234567890543);
    assert_eq!(gc.get_date('Y').unwrap(), "2009");
    assert_eq!(gc.get_date('j').unwrap(), "044");
    assert_eq!(gc.get_date('s').unwrap(), "1234567890");
    assert_eq!(gc.get_date('Z').unwrap(), "UTC");
    assert_eq!(gc.get_date('z').unwrap(), "-0000");
    assert_eq!(gc.get_date('%').unwrap(), "%");
    assert_eq!(gc.get_date('n').unwrap(), "\n");
    assert_eq!(gc.get_date('t').unwrap(), "\t");
}
