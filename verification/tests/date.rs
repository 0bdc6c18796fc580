use datetime::date::Date;
use datetime::gcalendar::DateError;

#[test]
fn from_epoch() {
    let d = Date::from_epoch(433166421023);
    assert_eq!(d.get_time(), 433166421023);
}

#[test]
fn test_strftime() {
    let d = Date::from_epoch(1234567890543);
    assert_eq!(d.strftime("").unwrap(), "");
    assert_eq!(d.strftime("%A").unwrap(), "Friday");
    assert_eq!(d.strftime("%a").unwrap(), "Fri");
    assert_eq!(d.strftime("%B").unwrap(), "February");
    assert_eq!(d.strftime("%b").unwrap(), "Feb");
    assert_eq!(d.strftime("%C").unwrap(), "20");
    assert_eq!(d.strftime("%c").unwrap(), "Fri Feb 13 23:31:30 2009");
    assert_eq!(d.strftime("%D").unwrap(), "02/13/09");
    assert_eq!(d.strftime("%d").unwrap(), "13");
    assert_eq!(d.strftime("%e").unwrap(), "13");
    assert_eq!(d.strftime("%f").unwrap(), "000000030");
    assert_eq!(d.strftime("%F").unwrap(), "2009-02-13");
    assert_eq!(d.strftime("%G").unwrap(), "2009");
    assert_eq!(d.strftime("%g").unwrap(), "09");
    assert_eq!(d.strftime("%H").unwrap(), "23");
    assert_eq!(d.strftime("%I").unwrap(), "11");
    assert_eq!(d.strftime("%j").unwrap(), "044");
    assert_eq!(d.strftime("%k").unwrap(), "23");
    assert_eq!(d.strftime("%l").unwrap(), "11");
    assert_eq!(d.strftime("%M").unwrap(), "31");
    assert_eq!(d.strftime("%m").unwrap(), "02");
    assert_eq!(d.strftime("%n").unwrap(), "\n");
    assert_eq!(d.strftime("%P").unwrap(), "pm");
    assert_eq!(d.strftime("%p").unwrap(), "PM");
    assert_eq!(d.strftime("%R").unwrap(), "23:31");
    assert_eq!(d.strftime("%r").unwrap(), "11:31:30 PM");
    assert_eq!(d.strftime("%S").unwrap(), "30");
    assert_eq!(d.strftime("%T").unwrap(), "23:31:30");
    assert_eq!(d.strftime("%t").unwrap(), "\t");
    assert_eq!(d.strftime("%U").unwrap(), "06");
    assert_eq!(d.strftime("%u").unwrap(), "5");
    assert_eq!(d.strftime("%V").unwrap(), "07");
    assert_eq!(d.strftime("%v").unwrap(), "13-Feb-2009");
    assert_eq!(d.strftime("%W").unwrap(), "06");
    assert_eq!(d.strftime("%w").unwrap(), "5");
    assert_eq!(d.strftime("%Y").unwrap(), "2009");
    assert_eq!(d.strftime("%y").unwrap(), "09");
    assert_eq!(d.strftime("%z").unwrap(), "-0000");
    assert_eq!(d.strftime("%%").unwrap(), "%");

    assert_eq!(d.iso_format().unwrap(), "2009-02-13 23:31:30");
    assert_eq!(d.ctime().unwrap(), "Fri Feb 13 23:31:30 2009");
    assert_eq!(d.rfc822z().unwrap(), "Fri, 13 Feb 2009 23:31:30 -0000");
    assert_eq!(d.rfc822z().unwrap(), "Fri, 13 Feb 2009 23:31:30 -0000");
}

#[test]
fn strftime_epoch_instant() {
    let d = Date::from_epoch(0);
    assert_eq!(d.ctime().unwrap(), "Thu Jan  1 00:00:00 1970");
    assert_eq!(d.iso_format().unwrap(), "1970-01-01 00:00:00");
    assert_eq!(d.rfc822().unwrap(), "Thu, 01 Jan 1970 00:00:00 UTC");
    assert_eq!(d.strftime("%s").unwrap(), "0");
    assert_eq!(d.strftime("%l").unwrap(), "12");
    assert_eq!(d.strftime("%P").unwrap(), "am");
    assert_eq!(d.strftime("%p").unwrap(), "AM");
}

#[test]
fn strftime_leap_day() {
    // 2000-02-29T12:30:45Z: day 11016 since the epoch.
    let ms: u64 = 11016u64 * 86_400_000 + (12 * 3600 + 30 * 60 + 45) * 1000;
    let d = Date::from_epoch(ms);
    assert_eq!(d.iso_format().unwrap(), "2000-02-29 12:30:45");
    assert_eq!(d.strftime("%j").unwrap(), "060");
    assert_eq!(d.strftime("%I").unwrap(), "12");
    assert_eq!(d.strftime("%p").unwrap(), "PM");
}

#[test]
fn strftime_iso_week_year_boundary() {
    // 2010-01-01 is a Friday and belongs to ISO week 53 of 2009.
    let d = Date::from_epoch(14610u64 * 86_400_000);
    assert_eq!(d.strftime("%Y").unwrap(), "2010");
    assert_eq!(d.strftime("%G").unwrap(), "2009");
    assert_eq!(d.strftime("%g").unwrap(), "09");
    assert_eq!(d.strftime("%V").unwrap(), "53");
    assert_eq!(d.strftime("%A").unwrap(), "Friday");
}

#[test]
fn strftime_literal_templates() {
    let d1 = Date::from_epoch(433166421023);
    let d2 = Date::from_epoch(0);
    assert_eq!(d1.strftime("").unwrap(), "");
    assert_eq!(d2.strftime("").unwrap(), "");
    assert_eq!(d1.strftime("abc").unwrap(), "abc");
    assert_eq!(d2.strftime("abc").unwrap(), "abc");
    assert_eq!(d1.strftime("no directives here").unwrap(), "no directives here");
}

#[test]
fn strftime_unsupported_directive() {
    let d = Date::from_epoch(1234567890543);
    assert_eq!(d.strftime("%Q"), Err(DateError::UnsupportedDirective('Q')));
    assert_eq!(d.strftime("%E"), Err(DateError::UnsupportedDirective('E')));
    assert_eq!(d.strftime("ok %Q"), Err(DateError::UnsupportedDirective('Q')));
}

#[test]
fn strftime_malformed_template() {
    let d = Date::from_epoch(1234567890543);
    assert_eq!(d.strftime("%"), Err(DateError::MalformedTemplate));
    assert_eq!(d.strftime("100%"), Err(DateError::MalformedTemplate));
    assert_eq!(d.strftime("%%%"), Err(DateError::MalformedTemplate));
}

#[test]
fn get_cal_matches_decomposition() {
    let d = Date::from_epoch(433166421023);
    let gc = d.get_cal();
    assert_eq!(gc.get_year(), 1983);
    assert_eq!(gc.get_month(), 9);
    assert_eq!(gc.get_day_of_month(), 23);
}
