//! Gregorian calendar arithmetic: decomposition of an epoch-millisecond
//! count into broken-down UTC calendar time, and the inverse conversion to
//! epoch seconds.

use crate::digits::{dec_seq, space_pad, zero_pad};
use vstd::arithmetic::div_mod::{
    lemma_breakdown, lemma_fundamental_div_mod, lemma_fundamental_div_mod_converse_div,
    lemma_fundamental_div_mod_converse_mod, lemma_mod_division_less_than_divisor,
};
use vstd::prelude::*;

verus! {

/// Whether `y` is a Gregorian leap year: divisible by 4, and not by 100
/// unless also by 400.
pub open spec fn leap_year(y: int) -> bool {
    y % 4 == 0 && (y % 100 != 0 || y % 400 == 0)
}

/// The number of days in year `y`: 366 in a leap year, 365 otherwise.
pub open spec fn year_len(y: int) -> int {
    if leap_year(y) {
        366
    } else {
        365
    }
}

/// Whether `year` is a leap year.
pub fn is_leap_year(year: u64) -> (r: bool)
    ensures
        r == leap_year(year as int),
{
    (year % 4 == 0) && ((year % 100 != 0) || (year % 400 == 0))
}

/// The number of days in `year`.
pub fn year_size(year: u64) -> (r: u64)
    ensures
        r as int == year_len(year as int),
{
    if is_leap_year(year) {
        366
    } else {
        365
    }
}

/// The number of days from the start of year `y0` to the start of year `y1`
/// (0 when `y1 <= y0`), summing calendar year lengths.
pub open spec fn days_from(y0: int, y1: int) -> int
    decreases y1 - y0,
{
    if y1 <= y0 {
        0
    } else {
        days_from(y0, y1 - 1) + year_len(y1 - 1)
    }
}

/// Steps forward from the start of year `y`, consuming whole years from the
/// day count `d`; returns the year reached and the remaining day offset
/// within it.
pub open spec fn year_walk(d: int, y: int) -> (int, int)
    decreases d,
{
    if d >= year_len(y) {
        year_walk(d - year_len(y), y + 1)
    } else {
        (y, d)
    }
}

/// The number of days in the year strictly before month index `m`
/// (0 = January, ..., 11 = December; 12 gives the whole year), in a normal
/// or a leap year.
pub open spec fn days_before_month(in_leap: bool, m: int) -> int {
    let extra: int = if in_leap {
        1
    } else {
        0
    };
    if m <= 0 {
        0
    } else if m == 1 {
        31
    } else if m == 2 {
        59 + extra
    } else if m == 3 {
        90 + extra
    } else if m == 4 {
        120 + extra
    } else if m == 5 {
        151 + extra
    } else if m == 6 {
        181 + extra
    } else if m == 7 {
        212 + extra
    } else if m == 8 {
        243 + extra
    } else if m == 9 {
        273 + extra
    } else if m == 10 {
        304 + extra
    } else if m == 11 {
        334 + extra
    } else {
        365 + extra
    }
}

/// The month index (0 = January) found by scanning downward from index `m`
/// for the first month whose cumulative day count does not exceed `yday`.
pub open spec fn month_scan(in_leap: bool, yday: int, m: int) -> int
    decreases m,
{
    if m <= 0 {
        0
    } else if yday >= days_before_month(in_leap, m) {
        m
    } else {
        month_scan(in_leap, yday, m - 1)
    }
}

/// The month index (0 = January) whose day range contains year day `yday`.
pub open spec fn month_index_of(in_leap: bool, yday: int) -> int {
    month_scan(in_leap, yday, 11)
}

/// Broken-down UTC calendar time.
#[derive(Clone, Copy)]
pub struct GCalendar {
    /// Seconds, 0 to 59 when derived from an epoch count.
    pub sec: u64,
    /// Minutes, 0 to 59 when derived from an epoch count.
    pub min: u64,
    /// Hours, 0 to 23 when derived from an epoch count.
    pub hour: u64,
    /// Day of the month, 1 to 31 when derived from an epoch count.
    pub mday: u64,
    /// Month, 1 to 12 when derived from an epoch count.
    pub month: u64,
    /// Absolute year, at least 1970 when derived from an epoch count.
    pub year: u64,
    /// Day of the week, 0 (Sunday) to 6 when derived from an epoch count.
    pub wday: u64,
    /// Day of the year, 0-indexed, 0 to 365 when derived from an epoch count.
    pub yday: u64,
}

/// The broken-down UTC calendar time for `ms` milliseconds since the epoch.
pub open spec fn calendar_of(ms: int) -> GCalendar {
    let dayno: int = ms / 86_400_000;
    let yw = year_walk(dayno, 1970);
    let year: int = yw.0;
    let yday: int = yw.1;
    let mi: int = month_index_of(leap_year(year), yday);
    GCalendar {
        sec: ((ms / 1000) % 60) as u64,
        min: ((ms / 60_000) % 60) as u64,
        hour: ((ms / 3_600_000) % 24) as u64,
        mday: (yday - days_before_month(leap_year(year), mi) + 1) as u64,
        month: (mi + 1) as u64,
        year: year as u64,
        wday: ((dayno + 4) % 7) as u64,
        yday: yday as u64,
    }
}

/// Field ranges that hold of every calendar value derived from an epoch
/// count that fits in 64 bits.
pub open spec fn wf(c: GCalendar) -> bool {
    &&& c.sec <= 59
    &&& c.min <= 59
    &&& c.hour <= 23
    &&& 1 <= c.mday <= 31
    &&& 1 <= c.month <= 12
    &&& 1970 <= c.year <= 600_000_000
    &&& c.wday <= 6
    &&& c.yday <= 365
    &&& (c.yday as int) < year_len(c.year as int)
}

/// Splitting a remainder: for positive `a` and `b`, the remainder of `x`
/// modulo `a * b` decomposes into `a`-sized units and a sub-`a` remainder.
proof fn lemma_clock_split(x: int, a: int, b: int)
    requires
        0 <= x,
        0 < a,
        0 < b,
    ensures
        (x % (a * b)) / a == (x / a) % b,
        (x % (a * b)) % a == x % a,
{
    broadcast use vstd::arithmetic::mul::lemma_mul_is_commutative;

    lemma_breakdown(x, a, b);
    lemma_mod_division_less_than_divisor(x, a);
    lemma_mod_division_less_than_divisor(x / a, b);
    lemma_fundamental_div_mod_converse_div(x % (a * b), a, (x / a) % b, x % a);
    lemma_fundamental_div_mod_converse_mod(x % (a * b), a, (x / a) % b, x % a);
}

/// A sum of year lengths can be peeled from below: the days from year `y0`
/// to year `y1` are the length of `y0` plus the days from `y0 + 1`.
proof fn lemma_days_from_lo(y0: int, y1: int)
    requires
        y0 < y1,
    ensures
        days_from(y0, y1) == year_len(y0) + days_from(y0 + 1, y1),
    decreases y1 - y0,
{
    if y1 - 1 > y0 {
        lemma_days_from_lo(y0, y1 - 1);
        assert(days_from(y0 + 1, y1) == days_from(y0 + 1, y1 - 1) + year_len(y1 - 1));
    } else {
        assert(days_from(y0, y1) == days_from(y0, y0) + year_len(y0));
        assert(days_from(y0 + 1, y1) == 0);
    }
}

/// A sum of year lengths over a span of years is bounded by 365 and 366
/// days per year.
proof fn lemma_days_from_bounds(y0: int, y1: int)
    requires
        y0 <= y1,
    ensures
        365 * (y1 - y0) <= days_from(y0, y1) <= 366 * (y1 - y0),
    decreases y1 - y0,
{
    if y0 < y1 {
        lemma_days_from_bounds(y0, y1 - 1);
    }
}

/// What the year walk yields: a year at or after the starting year, a day
/// offset within that year, and a day count accounted for exactly by the
/// intervening year lengths.
proof fn lemma_year_walk(d: int, y: int)
    requires
        0 <= d,
    ensures
        ({
            let yw = year_walk(d, y);
            &&& y <= yw.0
            &&& 0 <= yw.1 < year_len(yw.0)
            &&& days_from(y, yw.0) + yw.1 == d
            &&& 365 * (yw.0 - y) <= d
        }),
    decreases d,
{
    if d >= year_len(y) {
        lemma_year_walk(d - year_len(y), y + 1);
        let yw = year_walk(d, y);
        lemma_days_from_lo(y, yw.0);
    }
}

/// What the downward month scan yields: the month index whose cumulative
/// day range contains `yday`.
proof fn lemma_month_scan(in_leap: bool, yday: int, m: int)
    requires
        0 <= yday,
        0 <= m <= 11,
        yday < days_before_month(in_leap, m + 1),
    ensures
        ({
            let mi = month_scan(in_leap, yday, m);
            &&& 0 <= mi <= m
            &&& days_before_month(in_leap, mi) <= yday < days_before_month(in_leap, mi + 1)
        }),
    decreases m,
{
    if m > 0 && yday < days_before_month(in_leap, m) {
        lemma_month_scan(in_leap, yday, m - 1);
    }
}

impl GCalendar {
    /// A calendar value with every field zero.
    pub fn new_at_epoch() -> (r: GCalendar)
        ensures
            r.sec == 0,
            r.min == 0,
            r.hour == 0,
            r.mday == 0,
            r.month == 0,
            r.year == 0,
            r.wday == 0,
            r.yday == 0,
    {
        GCalendar { sec: 0, min: 0, hour: 0, mday: 0, month: 0, year: 0, wday: 0, yday: 0 }
    }

    /// A calendar value with the given fields.
    pub fn new(sec: u64, min: u64, hour: u64, mday: u64, month: u64, year: u64, wday: u64, yday: u64) -> (r: GCalendar)
        ensures
            r.sec == sec,
            r.min == min,
            r.hour == hour,
            r.mday == mday,
            r.month == month,
            r.year == year,
            r.wday == wday,
            r.yday == yday,
    {
        GCalendar { sec, min, hour, mday, month, year, wday, yday }
    }

    /// The broken-down UTC calendar time for `since_epoch` milliseconds
    /// after 1970-01-01T00:00:00Z.
    pub fn new_from_epoch(since_epoch: u64) -> (r: GCalendar)
        ensures
            r == calendar_of(since_epoch as int),
            wf(r),
    {
        let ghost ms: int = since_epoch as int;
        let millisecs_day: u64 = 86_400_000;

        let mut dayclock: u64 = since_epoch % millisecs_day;
        let mut dayno: u64 = since_epoch / millisecs_day;
        let ghost dayno0: int = dayno as int;

        let hour: u64 = dayclock / 3_600_000;
        dayclock = dayclock - (hour * 3_600_000);
        let min: u64 = dayclock / 60_000;
        dayclock = dayclock - (min * 60_000);
        let sec: u64 = dayclock / 1000;
        let wday: u64 = (dayno + 4) % 7;

        proof {
            assert(86_400_000 == 3_600_000 * 24);
            assert(3_600_000 == 60_000 * 60);
            assert(60_000 == 1000 * 60);
            lemma_clock_split(ms, 3_600_000, 24);
            lemma_fundamental_div_mod(ms % 86_400_000, 3_600_000);
            lemma_clock_split(ms, 60_000, 60);
            lemma_fundamental_div_mod(ms % 3_600_000, 60_000);
            lemma_clock_split(ms, 1000, 60);
            assert(hour as int == (ms / 3_600_000) % 24);
            assert(min as int == (ms / 60_000) % 60);
            assert(sec as int == (ms / 1000) % 60);
        }

        let mut year: u64 = 1970;
        while dayno >= year_size(year)
            invariant
                1970 <= year,
                dayno as int == dayno0 - days_from(1970, year as int),
                365 * (year as int - 1970) <= dayno0 - dayno as int,
                dayno0 <= u64::MAX as int / 86_400_000,
            decreases dayno,
        {
            dayno = dayno - year_size(year);
            year = year + 1;
            proof {
                lemma_days_from_lo(1970, year as int);
                assert(days_from(1970, year as int) == days_from(1970, year as int - 1)
                    + year_len(year as int - 1));
            }
        }
        let yday: u64 = dayno;

        proof {
            lemma_year_walk(dayno0, 1970);
            let yw = year_walk(dayno0, 1970);
            assert(days_from(1970, year as int) + yday as int == dayno0);
            assert((yday as int) < year_len(year as int));
            if (year as int) < yw.0 {
                lemma_days_from_split(1970, year as int, yw.0);
                lemma_days_from_lo(year as int, yw.0);
                lemma_days_from_bounds(year as int + 1, yw.0);
            } else if yw.0 < year as int {
                lemma_days_from_split(1970, yw.0, year as int);
                lemma_days_from_lo(yw.0, year as int);
                lemma_days_from_bounds(yw.0 + 1, year as int);
            }
            assert(year as int == yw.0 && yday as int == yw.1);
        }

        let in_leap: bool = is_leap_year(year);
        let mut month: u64 = 11;
        while dayno < month_table(in_leap, month)
            invariant
                month <= 11,
                0 <= dayno as int,
                (dayno as int) < days_before_month(leap_year(year as int), month as int + 1),
                in_leap == leap_year(year as int),
                month_scan(in_leap, dayno as int, 11) == month_scan(in_leap, dayno as int, month as int),
                dayno == yday,
            decreases month,
        {
            month = month - 1;
        }
        proof {
            assert(month_scan(in_leap, dayno as int, month as int) == month as int);
            lemma_month_scan(in_leap, yday as int, 11);
        }
        dayno = dayno - month_table(in_leap, month);

        let r = GCalendar {
            sec,
            min,
            hour,
            mday: dayno + 1,
            month: month + 1,
            year,
            wday,
            yday,
        };
        proof {
            assert(r == calendar_of(ms));
        }
        r
    }

    /// The seconds field.
    pub fn get_sec(&self) -> (r: u64)
        ensures
            r == self.sec,
    {
        self.sec
    }

    /// The minutes field.
    pub fn get_min(&self) -> (r: u64)
        ensures
            r == self.min,
    {
        self.min
    }

    /// The hours field.
    pub fn get_hour(&self) -> (r: u64)
        ensures
            r == self.hour,
    {
        self.hour
    }

    /// The day-of-month field.
    pub fn get_day_of_month(&self) -> (r: u64)
        ensures
            r == self.mday,
    {
        self.mday
    }

    /// The month field.
    pub fn get_month(&self) -> (r: u64)
        ensures
            r == self.month,
    {
        self.month
    }

    /// The year field.
    pub fn get_year(&self) -> (r: u64)
        ensures
            r == self.year,
    {
        self.year
    }

    /// The day-of-week field.
    pub fn get_day_of_week(&self) -> (r: u64)
        ensures
            r == self.wday,
    {
        self.wday
    }

    /// The day-of-year field.
    pub fn get_day_of_year(&self) -> (r: u64)
        ensures
            r == self.yday,
    {
        self.yday
    }

    /// The value of `(year1, yday1, hour1, min1, sec1)` minus
    /// `(year0, yday0, hour0, min0, sec0)`, in seconds: 365 days per
    /// intervening year plus one per leap year strictly between the two
    /// years, combined linearly with the time-of-day fields.
    pub fn ydhms_diff(
        &self,
        year1: u64,
        yday1: u64,
        hour1: u64,
        min1: u64,
        sec1: u64,
        year0: u64,
        yday0: u64,
        hour0: u64,
        min0: u64,
        sec0: u64,
    ) -> (r: u64)
        requires
            ydhms_fits(
                year1 as int,
                yday1 as int,
                hour1 as int,
                min1 as int,
                sec1 as int,
                year0 as int,
                yday0 as int,
                hour0 as int,
                min0 as int,
                sec0 as int,
            ),
        ensures
            r as int == ydhms_secs(
                year1 as int,
                yday1 as int,
                hour1 as int,
                min1 as int,
                sec1 as int,
                year0 as int,
                yday0 as int,
                hour0 as int,
                min0 as int,
                sec0 as int,
            ),
    {
        let mut intervening_leap_days: u64 = 0;
        if year1 > year0 {
            let mut y: u64 = year0 + 1;
            while y < year1
                invariant
                    year0 + 1 <= y <= year1,
                    intervening_leap_days as int == leaps_between(year0 as int, y as int),
                    intervening_leap_days <= y - year0 - 1,
                decreases year1 - y,
            {
                if is_leap_year(y) {
                    intervening_leap_days = intervening_leap_days + 1;
                }
                y = y + 1;
            }
        }
        proof {
            lemma_leaps_between_bounds(year0 as int, year1 as int);
            assert(intervening_leap_days as int == leaps_between(year0 as int, year1 as int));
        }

        let years: u64 = year1 - year0;
        let days: u64 = 365 * years + yday1 - yday0 + intervening_leap_days;
        let hours: u64 = 24 * days + hour1 - hour0;
        let minutes: u64 = 60 * hours + min1 - min0;
        60 * minutes + sec1 - sec0
    }

    /// The epoch-second count of this calendar value: its difference, in
    /// seconds, from 1970-01-01T00:00:00Z.
    pub fn mktime(&self) -> (r: u64)
        requires
            mktime_fits(*self),
        ensures
            r as int == mktime_secs(*self),
    {
        self.ydhms_diff(self.year, self.yday, self.hour, self.min, self.sec, 1970, 0, 0, 0, 0)
    }
}

/// The number of leap years strictly between `y0` and `y1`.
pub open spec fn leaps_between(y0: int, y1: int) -> int
    decreases y1 - y0,
{
    if y1 - 1 <= y0 {
        0
    } else {
        leaps_between(y0, y1 - 1) + if leap_year(y1 - 1) {
            1int
        } else {
            0int
        }
    }
}

/// The day count of `(year1, yday1)` minus that of `(year0, yday0)`:
/// 365 days per intervening year, plus one per intervening leap year.
pub open spec fn ydhms_days(year1: int, yday1: int, year0: int, yday0: int) -> int {
    365 * (year1 - year0) + yday1 - yday0 + leaps_between(year0, year1)
}

/// The second count of `(year1, yday1, hour1, min1, sec1)` minus that of
/// `(year0, yday0, hour0, min0, sec0)`.
pub open spec fn ydhms_secs(
    year1: int,
    yday1: int,
    hour1: int,
    min1: int,
    sec1: int,
    year0: int,
    yday0: int,
    hour0: int,
    min0: int,
    sec0: int,
) -> int {
    let days: int = ydhms_days(year1, yday1, year0, yday0);
    let hours: int = 24 * days + hour1 - hour0;
    let minutes: int = 60 * hours + min1 - min0;
    60 * minutes + sec1 - sec0
}

/// Whether every intermediate value of the second-difference computation is
/// non-negative and fits in 64 bits.
pub open spec fn ydhms_fits(
    year1: int,
    yday1: int,
    hour1: int,
    min1: int,
    sec1: int,
    year0: int,
    yday0: int,
    hour0: int,
    min0: int,
    sec0: int,
) -> bool {
    let days: int = ydhms_days(year1, yday1, year0, yday0);
    let hours: int = 24 * days + hour1 - hour0;
    let minutes: int = 60 * hours + min1 - min0;
    &&& year0 <= year1
    &&& 365 * (year1 - year0) + yday1 <= u64::MAX
    &&& yday0 <= 365 * (year1 - year0) + yday1
    &&& days <= u64::MAX
    &&& 24 * days + hour1 <= u64::MAX
    &&& hour0 <= 24 * days + hour1
    &&& 60 * hours + min1 <= u64::MAX
    &&& min0 <= 60 * hours + min1
    &&& 60 * minutes + sec1 <= u64::MAX
    &&& sec0 <= 60 * minutes + sec1
}

/// Whether the conversion of `c` to epoch seconds stays within machine
/// bounds.
pub open spec fn mktime_fits(c: GCalendar) -> bool {
    ydhms_fits(
        c.year as int,
        c.yday as int,
        c.hour as int,
        c.min as int,
        c.sec as int,
        1970,
        0,
        0,
        0,
        0,
    )
}

/// The epoch-second count of `c`.
pub open spec fn mktime_secs(c: GCalendar) -> int {
    ydhms_secs(
        c.year as int,
        c.yday as int,
        c.hour as int,
        c.min as int,
        c.sec as int,
        1970,
        0,
        0,
        0,
        0,
    )
}

/// The count of leap years strictly between two years is non-negative and
/// less than the width of the span.
proof fn lemma_leaps_between_bounds(y0: int, y1: int)
    requires
        y0 <= y1,
    ensures
        0 <= leaps_between(y0, y1),
        y1 > y0 ==> leaps_between(y0, y1) <= y1 - y0 - 1,
        y1 <= y0 + 1 ==> leaps_between(y0, y1) == 0,
    decreases y1 - y0,
{
    if y1 - 1 > y0 {
        lemma_leaps_between_bounds(y0, y1 - 1);
    }
}

/// A span of years contributes 365 days per year plus one per leap year
/// strictly inside it; from 1970 (not a leap year) the strict count is
/// exact.
proof fn lemma_days_from_leaps(y1: int)
    requires
        1970 <= y1,
    ensures
        days_from(1970, y1) == 365 * (y1 - 1970) + leaps_between(1970, y1),
    decreases y1 - 1970,
{
    if y1 > 1970 {
        lemma_days_from_leaps(y1 - 1);
        if y1 - 1 > 1970 {
            assert(leaps_between(1970, y1) == leaps_between(1970, y1 - 1) + if leap_year(
                y1 - 1,
            ) {
                1int
            } else {
                0int
            });
        } else {
            assert(!leap_year(1970));
            assert(leaps_between(1970, y1) == 0);
        }
    }
}

/// Every field of a calendar value decomposed from a 64-bit epoch count is
/// in its documented range.
pub proof fn lemma_calendar_of_wf(ms: int)
    requires
        0 <= ms <= u64::MAX,
    ensures
        wf(calendar_of(ms)),
{
    let dayno: int = ms / 86_400_000;
    vstd::arithmetic::div_mod::lemma_div_is_ordered(ms, u64::MAX as int, 86_400_000);
    vstd::arithmetic::div_mod::lemma_div_pos_is_pos(ms, 86_400_000);
    lemma_year_walk(dayno, 1970);
    let yw = year_walk(dayno, 1970);
    lemma_month_scan(leap_year(yw.0), yw.1, 11);
    lemma_mod_division_less_than_divisor(ms / 1000, 60);
    lemma_mod_division_less_than_divisor(ms / 60_000, 60);
    lemma_mod_division_less_than_divisor(ms / 3_600_000, 24);
    lemma_mod_division_less_than_divisor(dayno + 4, 7);
    vstd::arithmetic::div_mod::lemma_div_pos_is_pos(ms, 1000);
    vstd::arithmetic::div_mod::lemma_div_pos_is_pos(ms, 60_000);
    vstd::arithmetic::div_mod::lemma_div_pos_is_pos(ms, 3_600_000);
}

/// A well-formed calendar value converts to epoch seconds without
/// overflow.
pub proof fn lemma_wf_mktime_fits(c: GCalendar)
    requires
        wf(c),
    ensures
        mktime_fits(c),
{
    lemma_leaps_between_bounds(1970, c.year as int);
}

/// Law: decomposing an epoch-millisecond count and converting the result
/// back to epoch seconds recovers the whole seconds exactly; only the
/// sub-second component is lost.
pub proof fn lemma_round_trip(ms: u64)
    ensures
        mktime_fits(calendar_of(ms as int)),
        mktime_secs(calendar_of(ms as int)) == ms as int / 1000,
        1000 * mktime_secs(calendar_of(ms as int)) == ms - (ms as int % 1000),
{
    let msi: int = ms as int;
    let c = calendar_of(msi);
    lemma_calendar_of_wf(msi);
    lemma_wf_mktime_fits(c);

    let dayno: int = msi / 86_400_000;
    lemma_year_walk(dayno, 1970);
    let yw = year_walk(dayno, 1970);
    lemma_days_from_leaps(yw.0);
    assert(ydhms_days(c.year as int, c.yday as int, 1970, 0) == dayno);

    let s: int = msi / 1000;
    vstd::arithmetic::div_mod::lemma_div_denominator(msi, 1000, 86_400);
    vstd::arithmetic::div_mod::lemma_div_denominator(msi, 1000, 3600);
    vstd::arithmetic::div_mod::lemma_div_denominator(msi, 1000, 60);
    assert(dayno == s / 86_400);
    assert(c.hour as int == (s / 3600) % 24);
    assert(c.min as int == (s / 60) % 60);
    assert(c.sec as int == s % 60);

    lemma_fundamental_div_mod(s, 86_400);
    lemma_clock_split(s, 3600, 24);
    lemma_fundamental_div_mod(s % 86_400, 3600);
    lemma_clock_split(s, 60, 60);
    lemma_fundamental_div_mod(s % 3600, 60);
    assert(s == 86_400 * (s / 86_400) + 3600 * ((s / 3600) % 24) + 60 * ((s / 60) % 60) + s
        % 60);

    lemma_fundamental_div_mod(msi, 1000);
}

/// Law: two epoch counts on the same calendar day decompose to the same
/// day of the year.
pub proof fn lemma_same_day_same_yday(e1: u64, e2: u64)
    requires
        e1 < e2,
        e2 - e1 < 86_400_000,
        e1 as int / 86_400_000 == e2 as int / 86_400_000,
    ensures
        calendar_of(e1 as int).yday == calendar_of(e2 as int).yday,
{
}

/// A formatting failure.
#[derive(Clone, Copy, Debug, PartialEq, Eq, Structural)]
pub enum DateError {
    /// The character is not a recognized format code, or a name lookup
    /// field was outside its table.
    UnsupportedDirective(char),
    /// The template ended with an unescaped `%`.
    MalformedTemplate,
}

/// Whether the executable result `r` carries the value or the error that
/// the specification-level result `s` names.
pub open spec fn matches_fmt(r: Result<String, DateError>, s: Result<Seq<char>, DateError>) -> bool {
    match r {
        Ok(x) => s == Ok::<Seq<char>, DateError>(x@),
        Err(e) => s == Err::<Seq<char>, DateError>(e),
    }
}

/// The full English weekday name for weekday `w` (0 = Sunday).
pub open spec fn weekday_full(w: int) -> Seq<char> {
    if w == 0 {
        "Sunday"@
    } else if w == 1 {
        "Monday"@
    } else if w == 2 {
        "Tuesday"@
    } else if w == 3 {
        "Wednesday"@
    } else if w == 4 {
        "Thursday"@
    } else if w == 5 {
        "Friday"@
    } else {
        "Saturday"@
    }
}

/// The abbreviated English weekday name for weekday `w` (0 = Sunday).
pub open spec fn weekday_abbr(w: int) -> Seq<char> {
    if w == 0 {
        "Sun"@
    } else if w == 1 {
        "Mon"@
    } else if w == 2 {
        "Tue"@
    } else if w == 3 {
        "Wed"@
    } else if w == 4 {
        "Thu"@
    } else if w == 5 {
        "Fri"@
    } else {
        "Sat"@
    }
}

/// The full English month name for month `m` (1 = January).
pub open spec fn month_full(m: int) -> Seq<char> {
    if m == 1 {
        "January"@
    } else if m == 2 {
        "February"@
    } else if m == 3 {
        "March"@
    } else if m == 4 {
        "April"@
    } else if m == 5 {
        "May"@
    } else if m == 6 {
        "June"@
    } else if m == 7 {
        "July"@
    } else if m == 8 {
        "August"@
    } else if m == 9 {
        "September"@
    } else if m == 10 {
        "October"@
    } else if m == 11 {
        "November"@
    } else {
        "December"@
    }
}

/// The abbreviated English month name for month `m` (1 = January).
pub open spec fn month_abbr(m: int) -> Seq<char> {
    if m == 1 {
        "Jan"@
    } else if m == 2 {
        "Feb"@
    } else if m == 3 {
        "Mar"@
    } else if m == 4 {
        "Apr"@
    } else if m == 5 {
        "May"@
    } else if m == 6 {
        "Jun"@
    } else if m == 7 {
        "Jul"@
    } else if m == 8 {
        "Aug"@
    } else if m == 9 {
        "Sep"@
    } else if m == 10 {
        "Oct"@
    } else if m == 11 {
        "Nov"@
    } else {
        "Dec"@
    }
}

/// The hour on the 12-hour clock as the `I` directive renders it: hours
/// above 12 are reduced by 12 (0 stays 0).
pub open spec fn hour_12(h: int) -> int {
    if h > 12 {
        h - 12
    } else {
        h
    }
}

/// The hour on the 12-hour clock as the `l` directive renders it: 0 becomes
/// 12, and hours above 12 are reduced by 12.
pub open spec fn hour_12_blank(h: int) -> int {
    if h == 0 {
        12
    } else if h > 12 {
        h - 12
    } else {
        h
    }
}

/// The `HH:MM:SS` rendering of the time-of-day fields of `c`.
pub open spec fn hms_seq(c: GCalendar) -> Seq<char> {
    zero_pad(c.hour as int, 2) + ":"@ + zero_pad(c.min as int, 2) + ":"@ + zero_pad(
        c.sec as int,
        2,
    )
}

/// The number of days from the first day of the first ISO week of the year
/// to the year day `yday` falling on weekday `wday`. ISO weeks start on
/// Monday, and the first ISO week contains the year's first Thursday. The
/// constant 378 is a multiple of 7 large enough to keep the left operand of
/// the remainder non-negative.
pub open spec fn iso_days(yday: int, wday: int) -> int {
    yday - (yday - wday + 4 + 378) % 7 + 3
}

/// The ISO week-numbering year and the day count within it for `c`: a
/// negative day count moves the date into the previous ISO year, and a
/// non-negative recount against the following year moves it into the next.
pub open spec fn iso_resolve(c: GCalendar) -> (int, int) {
    let year: int = c.year as int;
    let yday: int = c.yday as int;
    let wday: int = c.wday as int;
    let d0: int = iso_days(yday, wday);
    if d0 < 0 {
        (year - 1, iso_days(yday + year_len(year - 1), wday))
    } else {
        let d1: int = iso_days(yday - year_len(year), wday);
        if d1 >= 0 {
            (year + 1, d1)
        } else {
            (year, d0)
        }
    }
}

/// What the `iso_week` method renders for directive `ch`: the ISO
/// week-numbering year for `G` (full) and `g` (two digits), the ISO week
/// number for `V`, and the empty string for every other character.
pub open spec fn iso_week_seq(c: GCalendar, ch: char) -> Seq<char> {
    let r = iso_resolve(c);
    if ch == 'G' {
        dec_seq(r.0)
    } else if ch == 'g' {
        zero_pad(r.0 % 100, 2)
    } else if ch == 'V' {
        zero_pad(r.1 / 7 + 1, 2)
    } else {
        Seq::<char>::empty()
    }
}

/// Field bounds under which the ISO week computation stays within machine
/// integer ranges.
pub open spec fn iso_ok(c: GCalendar) -> bool {
    &&& c.wday <= 6
    &&& c.yday <= 365
    &&& 1970 <= c.year <= 600_000_000
}

/// Whether the arithmetic of directive `ch` stays within machine bounds
/// for the fields of `c`. Every directive of a well-formed calendar value
/// qualifies.
pub open spec fn directive_ok(c: GCalendar, ch: char) -> bool {
    if ch == 's' {
        mktime_fits(c)
    } else if ch == 'U' {
        c.wday as int <= c.yday as int + 7 && c.yday <= u64::MAX - 7
    } else if ch == 'W' {
        c.yday <= u64::MAX - 7
    } else if ch == 'j' {
        c.yday < u64::MAX
    } else if ch == 'G' || ch == 'g' || ch == 'V' {
        iso_ok(c)
    } else {
        true
    }
}

/// What the `get_date` method returns for directive `ch`: the rendered
/// field or composition, or the failure the directive incurs.
pub open spec fn spec_get_date(c: GCalendar, ch: char) -> Result<Seq<char>, DateError> {
    let w: int = c.wday as int;
    let mo: int = c.month as int;
    if ch == 'A' {
        if w <= 6 {
            Ok(weekday_full(w))
        } else {
            Err(DateError::UnsupportedDirective(ch))
        }
    } else if ch == 'a' {
        if w <= 6 {
            Ok(weekday_abbr(w))
        } else {
            Err(DateError::UnsupportedDirective(ch))
        }
    } else if ch == 'B' {
        if 1 <= mo <= 12 {
            Ok(month_full(mo))
        } else {
            Err(DateError::UnsupportedDirective(ch))
        }
    } else if ch == 'b' || ch == 'h' {
        if 1 <= mo <= 12 {
            Ok(month_abbr(mo))
        } else {
            Err(DateError::UnsupportedDirective(ch))
        }
    } else if ch == 'C' {
        Ok(zero_pad(c.year as int / 100, 2))
    } else if ch == 'c' {
        if w > 6 {
            Err(DateError::UnsupportedDirective('a'))
        } else if !(1 <= mo <= 12) {
            Err(DateError::UnsupportedDirective('b'))
        } else {
            Ok(
                weekday_abbr(w) + " "@ + month_abbr(mo) + " "@ + space_pad(c.mday as int, 2) + " "@
                    + hms_seq(c) + " "@ + dec_seq(c.year as int),
            )
        }
    } else if ch == 'D' || ch == 'x' {
        Ok(
            zero_pad(mo, 2) + "/"@ + zero_pad(c.mday as int, 2) + "/"@ + zero_pad(
                c.year as int % 100,
                2,
            ),
        )
    } else if ch == 'd' {
        Ok(zero_pad(c.mday as int, 2))
    } else if ch == 'e' {
        Ok(space_pad(c.mday as int, 2))
    } else if ch == 'f' {
        Ok(zero_pad(c.sec as int, 9))
    } else if ch == 'F' {
        Ok(dec_seq(c.year as int) + "-"@ + zero_pad(mo, 2) + "-"@ + zero_pad(c.mday as int, 2))
    } else if ch == 'G' || ch == 'g' {
        Ok(iso_week_seq(c, ch))
    } else if ch == 'H' {
        Ok(zero_pad(c.hour as int, 2))
    } else if ch == 'I' {
        Ok(zero_pad(hour_12(c.hour as int), 2))
    } else if ch == 'j' {
        Ok(zero_pad(c.yday as int + 1, 3))
    } else if ch == 'k' {
        Ok(space_pad(c.hour as int, 2))
    } else if ch == 'l' {
        Ok(space_pad(hour_12_blank(c.hour as int), 2))
    } else if ch == 'M' {
        Ok(zero_pad(c.min as int, 2))
    } else if ch == 'm' {
        Ok(zero_pad(mo, 2))
    } else if ch == 'n' {
        Ok("\n"@)
    } else if ch == 'P' {
        Ok(
            if c.hour < 12 {
                "am"@
            } else {
                "pm"@
            },
        )
    } else if ch == 'p' {
        Ok(
            if c.hour < 12 {
                "AM"@
            } else {
                "PM"@
            },
        )
    } else if ch == 'R' {
        Ok(zero_pad(c.hour as int, 2) + ":"@ + zero_pad(c.min as int, 2))
    } else if ch == 'r' {
        Ok(
            zero_pad(hour_12(c.hour as int), 2) + ":"@ + zero_pad(c.min as int, 2) + ":"@
                + zero_pad(c.sec as int, 2) + " "@ + (if c.hour < 12 {
                "AM"@
            } else {
                "PM"@
            }),
        )
    } else if ch == 'S' {
        Ok(zero_pad(c.sec as int, 2))
    } else if ch == 's' {
        Ok(dec_seq(mktime_secs(c)))
    } else if ch == 'T' || ch == 'X' {
        Ok(hms_seq(c))
    } else if ch == 't' {
        Ok("\t"@)
    } else if ch == 'U' {
        Ok(zero_pad((c.yday as int - c.wday as int + 7) / 7, 2))
    } else if ch == 'u' {
        Ok(
            dec_seq(
                if w == 0 {
                    7int
                } else {
                    w
                },
            ),
        )
    } else if ch == 'V' {
        Ok(iso_week_seq(c, ch))
    } else if ch == 'v' {
        if 1 <= mo <= 12 {
            Ok(space_pad(c.mday as int, 2) + "-"@ + month_abbr(mo) + "-"@ + dec_seq(c.year as int))
        } else {
            Err(DateError::UnsupportedDirective('b'))
        }
    } else if ch == 'W' {
        Ok(zero_pad((c.yday as int - ((c.wday as int - 1 + 7) % 7) + 7) / 7, 2))
    } else if ch == 'w' {
        Ok(dec_seq(w))
    } else if ch == 'Y' {
        Ok(dec_seq(c.year as int))
    } else if ch == 'y' {
        Ok(zero_pad(c.year as int % 100, 2))
    } else if ch == 'Z' {
        Ok("UTC"@)
    } else if ch == 'z' {
        Ok("-0000"@)
    } else if ch == '%' {
        Ok("%"@)
    } else {
        Err(DateError::UnsupportedDirective(ch))
    }
}

/// Every directive of a well-formed calendar value computes within machine
/// bounds.
pub proof fn lemma_wf_directive_ok(c: GCalendar, ch: char)
    requires
        wf(c),
    ensures
        directive_ok(c, ch),
{
    if ch == 's' {
        lemma_wf_mktime_fits(c);
    }
}

/// Law: the directive `Q` is recognized for no calendar value; it fails
/// with the offending character itself.
pub proof fn lemma_unsupported_directive(c: GCalendar)
    ensures
        spec_get_date(c, 'Q') == Err::<Seq<char>, DateError>(DateError::UnsupportedDirective('Q')),
{
}

/// The full English weekday name (`w` at most 6, 0 = Sunday).
fn weekday_full_str(w: u64) -> (r: String)
    requires
        w <= 6,
    ensures
        r@ == weekday_full(w as int),
{
    let s: &str = match w {
        0 => "Sunday",
        1 => "Monday",
        2 => "Tuesday",
        3 => "Wednesday",
        4 => "Thursday",
        5 => "Friday",
        _ => "Saturday",
    };
    s.to_owned()
}

/// The abbreviated English weekday name (`w` at most 6, 0 = Sunday).
fn weekday_abbr_str(w: u64) -> (r: String)
    requires
        w <= 6,
    ensures
        r@ == weekday_abbr(w as int),
{
    let s: &str = match w {
        0 => "Sun",
        1 => "Mon",
        2 => "Tue",
        3 => "Wed",
        4 => "Thu",
        5 => "Fri",
        _ => "Sat",
    };
    s.to_owned()
}

/// The full English month name (`m` between 1 and 12).
fn month_full_str(m: u64) -> (r: String)
    requires
        1 <= m <= 12,
    ensures
        r@ == month_full(m as int),
{
    let s: &str = match m {
        1 => "January",
        2 => "February",
        3 => "March",
        4 => "April",
        5 => "May",
        6 => "June",
        7 => "July",
        8 => "August",
        9 => "September",
        10 => "October",
        11 => "November",
        _ => "December",
    };
    s.to_owned()
}

/// The abbreviated English month name (`m` between 1 and 12).
fn month_abbr_str(m: u64) -> (r: String)
    requires
        1 <= m <= 12,
    ensures
        r@ == month_abbr(m as int),
{
    let s: &str = match m {
        1 => "Jan",
        2 => "Feb",
        3 => "Mar",
        4 => "Apr",
        5 => "May",
        6 => "Jun",
        7 => "Jul",
        8 => "Aug",
        9 => "Sep",
        10 => "Oct",
        11 => "Nov",
        _ => "Dec",
    };
    s.to_owned()
}

/// The ISO week day-count formula on machine integers, with the remainder
/// taken of a non-negative operand.
fn iso_days_i64(yday: i64, wday: i64) -> (r: i64)
    requires
        -370 <= yday <= 2_000_000_000,
        0 <= wday <= yday + 382,
    ensures
        r as int == iso_days(yday as int, wday as int),
{
    let t: i64 = yday - wday + 4 + 378;
    let tm: i64 = ((t as u64) % 7) as i64;
    yday - tm + 3
}

impl GCalendar {
    /// The number of days from the first day of the first ISO week of the
    /// year to the year day `yday` falling on weekday `wday`. ISO weeks
    /// start on Monday; the first ISO week contains the year's first
    /// Thursday.
    pub fn iso_week_days(&self, yday: u64, wday: u64) -> (r: i64)
        requires
            yday <= 1_000_000_000,
            wday as int <= yday as int + 382,
        ensures
            r as int == iso_days(yday as int, wday as int),
    {
        iso_days_i64(yday as i64, wday as i64)
    }

    /// Renders the ISO week-numbering year (`G` in full, `g` in two
    /// digits) or the ISO week number (`V`) of this calendar value; any
    /// other directive yields the empty string.
    pub fn iso_week(&self, ch: char) -> (r: String)
        requires
            iso_ok(*self),
        ensures
            r@ == iso_week_seq(*self, ch),
    {
        let year: u64 = self.year;
        let d0: i64 = iso_days_i64(self.yday as i64, self.wday as i64);

        let iso_year: u64;
        let days: i64;
        if d0 < 0 {
            // This ISO week belongs to the previous year.
            iso_year = year - 1;
            days = iso_days_i64(self.yday as i64 + year_size(year - 1) as i64, self.wday as i64);
        } else {
            let d1: i64 = iso_days_i64(self.yday as i64 - year_size(year) as i64, self.wday as i64);
            if d1 >= 0 {
                // This ISO week belongs to the next year.
                iso_year = year + 1;
                days = d1;
            } else {
                iso_year = year;
                days = d0;
            }
        }
        proof {
            assert(iso_resolve(*self) == (iso_year as int, days as int));
        }

        match ch {
            'G' => crate::digits::u64_string(iso_year),
            'g' => crate::digits::two_digits(iso_year % 100),
            'V' => crate::digits::two_digits((days / 7 + 1) as u64),
            _ => String::new(),
        }
    }
}

impl GCalendar {
    /// The `HH:MM:SS` rendering of the time-of-day fields.
    fn hms_string(&self) -> (r: String)
        ensures
            r@ == hms_seq(*self),
    {
        let mut out = crate::digits::two_digits(self.hour);
        out.append(":");
        out.append(crate::digits::two_digits(self.min).as_str());
        out.append(":");
        out.append(crate::digits::two_digits(self.sec).as_str());
        out
    }

    /// Renders the single format directive `ch` against this calendar
    /// value, or reports the failure the directive incurs.
    pub fn get_date(&self, ch: char) -> (r: Result<String, DateError>)
        requires
            directive_ok(*self, ch),
        ensures
            matches_fmt(r, spec_get_date(*self, ch)),
    {
        match ch {
            'A' => {
                if self.wday <= 6 {
                    Ok(weekday_full_str(self.wday))
                } else {
                    Err(DateError::UnsupportedDirective(ch))
                }
            },
            'a' => {
                if self.wday <= 6 {
                    Ok(weekday_abbr_str(self.wday))
                } else {
                    Err(DateError::UnsupportedDirective(ch))
                }
            },
            'B' => {
                if 1 <= self.month && self.month <= 12 {
                    Ok(month_full_str(self.month))
                } else {
                    Err(DateError::UnsupportedDirective(ch))
                }
            },
            'b' | 'h' => {
                if 1 <= self.month && self.month <= 12 {
                    Ok(month_abbr_str(self.month))
                } else {
                    Err(DateError::UnsupportedDirective(ch))
                }
            },
            'C' => Ok(crate::digits::two_digits(self.year / 100)),
            'c' => {
                if self.wday > 6 {
                    Err(DateError::UnsupportedDirective('a'))
                } else if !(1 <= self.month && self.month <= 12) {
                    Err(DateError::UnsupportedDirective('b'))
                } else {
                    let mut out = weekday_abbr_str(self.wday);
                    out.append(" ");
                    out.append(month_abbr_str(self.month).as_str());
                    out.append(" ");
                    out.append(crate::digits::two_cols(self.mday).as_str());
                    out.append(" ");
                    out.append(self.hms_string().as_str());
                    out.append(" ");
                    out.append(crate::digits::u64_string(self.year).as_str());
                    proof {
                        assert(out@ =~= spec_get_date(*self, ch)->Ok_0);
                    }
                    Ok(out)
                }
            },
            'D' | 'x' => {
                let mut out = crate::digits::two_digits(self.month);
                out.append("/");
                out.append(crate::digits::two_digits(self.mday).as_str());
                out.append("/");
                out.append(crate::digits::two_digits(self.year % 100).as_str());
                proof {
                    assert(out@ =~= spec_get_date(*self, ch)->Ok_0);
                }
                Ok(out)
            },
            'd' => Ok(crate::digits::two_digits(self.mday)),
            'e' => Ok(crate::digits::two_cols(self.mday)),
            'f' => Ok(crate::digits::nine_digits(self.sec)),
            'F' => {
                let mut out = crate::digits::u64_string(self.year);
                out.append("-");
                out.append(crate::digits::two_digits(self.month).as_str());
                out.append("-");
                out.append(crate::digits::two_digits(self.mday).as_str());
                proof {
                    assert(out@ =~= spec_get_date(*self, ch)->Ok_0);
                }
                Ok(out)
            },
            'G' | 'g' => Ok(self.iso_week(ch)),
            'H' => Ok(crate::digits::two_digits(self.hour)),
            'I' => {
                let mut h: u64 = self.hour;
                if h > 12 {
                    h = h - 12;
                }
                Ok(crate::digits::two_digits(h))
            },
            'j' => Ok(crate::digits::three_digits(self.yday + 1)),
            'k' => Ok(crate::digits::two_cols(self.hour)),
            'l' => {
                let mut h: u64 = self.hour;
                if h == 0 {
                    h = 12;
                }
                if h > 12 {
                    h = h - 12;
                }
                Ok(crate::digits::two_cols(h))
            },
            'M' => Ok(crate::digits::two_digits(self.min)),
            'm' => Ok(crate::digits::two_digits(self.month)),
            'n' => Ok("\n".to_owned()),
            'P' => {
                if self.hour < 12 {
                    Ok("am".to_owned())
                } else {
                    Ok("pm".to_owned())
                }
            },
            'p' => {
                if self.hour < 12 {
                    Ok("AM".to_owned())
                } else {
                    Ok("PM".to_owned())
                }
            },
            'R' => {
                let mut out = crate::digits::two_digits(self.hour);
                out.append(":");
                out.append(crate::digits::two_digits(self.min).as_str());
                proof {
                    assert(out@ =~= spec_get_date(*self, ch)->Ok_0);
                }
                Ok(out)
            },
            'r' => {
                let mut h: u64 = self.hour;
                if h > 12 {
                    h = h - 12;
                }
                let mut out = crate::digits::two_digits(h);
                out.append(":");
                out.append(crate::digits::two_digits(self.min).as_str());
                out.append(":");
                out.append(crate::digits::two_digits(self.sec).as_str());
                out.append(" ");
                if self.hour < 12 {
                    out.append("AM");
                } else {
                    out.append("PM");
                }
                proof {
                    assert(out@ =~= spec_get_date(*self, ch)->Ok_0);
                }
                Ok(out)
            },
            'S' => Ok(crate::digits::two_digits(self.sec)),
            's' => Ok(crate::digits::u64_string(self.mktime())),
            'T' | 'X' => Ok(self.hms_string()),
            't' => Ok("\t".to_owned()),
            'U' => Ok(crate::digits::two_digits((self.yday + 7 - self.wday) / 7)),
            'u' => {
                let i: u64 = self.wday;
                Ok(
                    crate::digits::u64_string(
                        if i == 0 {
                            7
                        } else {
                            i
                        },
                    ),
                )
            },
            'V' => Ok(self.iso_week(ch)),
            'v' => {
                if 1 <= self.month && self.month <= 12 {
                    let mut out = crate::digits::two_cols(self.mday);
                    out.append("-");
                    out.append(month_abbr_str(self.month).as_str());
                    out.append("-");
                    out.append(crate::digits::u64_string(self.year).as_str());
                    proof {
                        assert(out@ =~= spec_get_date(*self, ch)->Ok_0);
                    }
                    Ok(out)
                } else {
                    Err(DateError::UnsupportedDirective('b'))
                }
            },
            'W' => {
                let adj: u64 = ((self.wday % 7) + 6) % 7;
                proof {
                    vstd::arithmetic::div_mod::lemma_add_mod_noop(self.wday as int, 6, 7);
                    assert(adj as int == (self.wday as int - 1 + 7) % 7);
                }
                Ok(crate::digits::two_digits((self.yday + 7 - adj) / 7))
            },
            'w' => Ok(crate::digits::u64_string(self.wday)),
            'Y' => Ok(crate::digits::u64_string(self.year)),
            'y' => Ok(crate::digits::two_digits(self.year % 100)),
            'Z' => Ok("UTC".to_owned()),
            'z' => Ok("-0000".to_owned()),
            '%' => Ok("%".to_owned()),
            _ => Err(DateError::UnsupportedDirective(ch)),
        }
    }
}

/// A sum of year lengths splits at any intermediate year.
proof fn lemma_days_from_split(y0: int, y1: int, y2: int)
    requires
        y0 <= y1 <= y2,
    ensures
        days_from(y0, y2) == days_from(y0, y1) + days_from(y1, y2),
    decreases y2 - y1,
{
    if y1 < y2 {
        lemma_days_from_split(y0, y1, y2 - 1);
    }
}

/// The cumulative days before month index `m` (`m <= 12`), in a normal or a
/// leap year.
fn month_table(in_leap: bool, m: u64) -> (r: u64)
    requires
        m <= 12,
    ensures
        r as int == days_before_month(in_leap, m as int),
{
    let base: u64 = match m {
        0 => 0,
        1 => 31,
        2 => 59,
        3 => 90,
        4 => 120,
        5 => 151,
        6 => 181,
        7 => 212,
        8 => 243,
        9 => 273,
        10 => 304,
        11 => 334,
        _ => 365,
    };
    if in_leap && m >= 2 {
        base + 1
    } else {
        base
    }
}

} // verus!
