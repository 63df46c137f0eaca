use std::time::SystemTime;
use vstd::prelude::*;

verus! {

pub const SECONDS_IN_A_MINUTE: i64 = 60;

pub const SECONDS_IN_AN_HOUR: i64 = 3600;

pub const SECONDS_IN_A_DAY: i64 = 86400;

/// The offset from UTC that `DateTime::now` reads the clock in: nine hours.
pub const LOCAL_OFFSET: i32 = 32400;

// ---------------------------------------------------------------------------
// The calendar
// ---------------------------------------------------------------------------

/// Gregorian leap year.
pub open spec fn is_leap_year(y: int) -> bool {
    (y % 4 == 0 && y % 100 != 0) || y % 400 == 0
}

/// Days in year `y`.
pub open spec fn days_in_year(y: int) -> int {
    if is_leap_year(y) {
        366
    } else {
        365
    }
}

/// Days in month `m` of year `y`; 0 for a number that is no month.
pub open spec fn days_in_month(y: int, m: int) -> int {
    if m == 1 || m == 3 || m == 5 || m == 7 || m == 8 || m == 10 || m == 12 {
        31
    } else if m == 4 || m == 6 || m == 9 || m == 11 {
        30
    } else if m == 2 {
        if is_leap_year(y) {
            29
        } else {
            28
        }
    } else {
        0
    }
}

/// Starting in year `y` with `d` days to go, passes whole years while more than a year's
/// days are left; the year reached and the days left in it.
pub open spec fn walk_years(y: int, d: int) -> (int, int)
    decreases d,
{
    if days_in_year(y) < d {
        walk_years(y + 1, d - days_in_year(y))
    } else {
        (y, d)
    }
}

/// Starting in month `m` of year `y` with `d` days to go, passes whole months while at
/// least a month's days are left; the month reached (13 when the year ran out) and the
/// days left in it.
pub open spec fn walk_months(y: int, m: int, d: int) -> (int, int)
    decreases 13 - m,
{
    if 1 <= m <= 12 && days_in_month(y, m) <= d {
        walk_months(y, m + 1, d - days_in_month(y, m))
    } else {
        (m, d)
    }
}

/// Days from 1 January 1970 to the first day of year `y`.
pub open spec fn days_before_year(y: int) -> int
    decreases y - 1970,
{
    if y <= 1970 {
        0
    } else {
        days_before_year(y - 1) + days_in_year(y - 1)
    }
}

/// Days from 1 January of year `y` to the first day of month `m`.
pub open spec fn days_before_month(y: int, m: int) -> int
    decreases m,
{
    if m <= 1 {
        0
    } else {
        days_before_month(y, m - 1) + days_in_month(y, m - 1)
    }
}

// ---------------------------------------------------------------------------
// Integer steps as the conversion takes them (Rust's truncating `/` and `%`)
// ---------------------------------------------------------------------------

/// `a / b` as Rust computes it on signed integers: rounded toward zero (`b > 0`).
pub open spec fn tdiv(a: int, b: int) -> int {
    if a >= 0 {
        a / b
    } else {
        -((-a) / b)
    }
}

/// `a % b` as Rust computes it on signed integers: the sign of `a` (`b > 0`).
pub open spec fn trem(a: int, b: int) -> int {
    a - b * tdiv(a, b)
}

/// The local time in seconds: `total` shifted by `offset`.
pub open spec fn local_seconds(total: i64, offset: i32) -> int {
    total + offset
}

/// The second field the conversion sets for local time `s0`.
pub open spec fn second_of(s0: int) -> u8 {
    trem(s0, 60) as u8
}

/// Local time with the second field taken off.
pub open spec fn after_second(s0: int) -> int {
    s0 - second_of(s0)
}

/// The minute field the conversion sets for local time `s0`.
pub open spec fn minute_of(s0: int) -> u8 {
    tdiv(trem(after_second(s0), 3600), 60) as u8
}

/// Local time with the second and minute fields taken off.
pub open spec fn after_minute(s0: int) -> int {
    after_second(s0) - minute_of(s0) * 60
}

/// The hour field the conversion sets for local time `s0`.
pub open spec fn hour_of(s0: int) -> u8 {
    tdiv(tdiv(trem(after_minute(s0), 86400), 60), 60) as u8
}

/// Local time with the second, minute and hour fields taken off.
pub open spec fn after_hour(s0: int) -> int {
    after_minute(s0) - hour_of(s0) * 3600
}

/// The day of the week the conversion sets for local time `s0` (0 is Sunday).
pub open spec fn week_of(s0: int) -> u8 {
    trem(tdiv(s0, 86400) + 4, 7) as u8
}

/// The year and the days left into it after the year walk, for local time `s0`.
pub open spec fn year_walk(s0: int) -> (int, int) {
    if after_hour(s0) >= 0 {
        walk_years(1970, after_hour(s0) / 86400)
    } else {
        (1970, tdiv(after_hour(s0), 86400))
    }
}

/// The month and the days left into it after the month walk, for local time `s0`.
pub open spec fn month_walk(s0: int) -> (int, int) {
    if after_hour(s0) >= 0 {
        walk_months(year_walk(s0).0, 1, year_walk(s0).1)
    } else {
        (1, year_walk(s0).1)
    }
}

/// The conversion of `total` seconds at `offset` ends without overflow and its month walk
/// stops within the year (it does not when the local day is 1 January of a year after 1970).
pub open spec fn convertible(total: i64, offset: i32) -> bool {
    let s0 = local_seconds(total, offset);
    &&& i64::MIN <= s0 <= i64::MAX
    &&& i64::MIN <= after_second(s0)
    &&& i64::MIN <= after_minute(s0)
    &&& i64::MIN <= after_hour(s0)
    &&& month_walk(s0).0 <= 12
    &&& 1 + (month_walk(s0).1 as u8) <= 255
}

/// The date and time of `total` seconds after the epoch, at `offset` seconds from UTC.
pub open spec fn converted(total: i64, offset: i32) -> DateTime {
    let s0 = local_seconds(total, offset);
    DateTime {
        year: year_walk(s0).0 as u64,
        offset: offset,
        month: month_walk(s0).0 as u8,
        day: (1 + (month_walk(s0).1 as u8)) as u8,
        week: week_of(s0),
        hour: hour_of(s0),
        minute: minute_of(s0),
        second: second_of(s0),
        full_seconds: total,
    }
}

// ---------------------------------------------------------------------------
// The date-time value
// ---------------------------------------------------------------------------

/// A date and time: a count of seconds since 1970-01-01T00:00:00 UTC (`full_seconds`)
/// and its calendar fields at `offset` seconds from UTC.
#[derive(Clone, Copy)]
pub struct DateTime {
    pub year: u64,
    pub offset: i32,
    pub month: u8,
    pub day: u8,
    pub week: u8,
    pub hour: u8,
    pub minute: u8,
    pub second: u8,
    pub full_seconds: i64,
}

impl DateTime {
    /// The date and time `seconds` after the epoch, in UTC.
    pub fn new(seconds: i64) -> (r: Self)
        requires
            convertible(seconds, 0),
        ensures
            r == converted(seconds, 0),
    {
        let mut result = DateTime {
            year: 1970,
            offset: 0,
            month: 1,
            day: 1,
            week: 3,
            hour: 0,
            minute: 0,
            second: 0,
            full_seconds: 0,
        };
        let ok = result.p_convert_seconds(seconds);
        result
    }

    /// The date and time `seconds` (the system clock's seconds since the epoch) after the
    /// epoch at nine hours from UTC; `None` where the conversion would not end normally.
    pub fn from_clock(seconds: u64) -> (r: Option<Self>)
        ensures
            r is Some <==> convertible(seconds as i64, LOCAL_OFFSET),
            r matches Some(d) ==> d == converted(seconds as i64, LOCAL_OFFSET),
    {
        let mut result = DateTime {
            year: 1970,
            offset: LOCAL_OFFSET,
            month: 1,
            day: 1,
            week: 3,
            hour: 0,
            minute: 0,
            second: 0,
            full_seconds: 0,
        };
        if result.p_convert_seconds(seconds as i64) {
            Some(result)
        } else {
            None
        }
    }

    /// The date and time by the system clock, at nine hours from UTC; `None` when the
    /// clock reads before the epoch or the conversion would not end normally.
    pub fn now() -> (r: Option<Self>)
        ensures
            r matches Some(d) ==> d.offset == LOCAL_OFFSET && d == converted(
                d.full_seconds,
                LOCAL_OFFSET,
            ),
    {
        let t = clock_now();
        match since_epoch(t) {
            Some(d) => DateTime::from_clock(whole_seconds(d)),
            None => None,
        }
    }

    /// Moves the date and time on by `seconds` (back when negative), keeping the offset.
    pub fn add_time(&mut self, seconds: i64)
        requires
            i64::MIN <= old(self).full_seconds + seconds <= i64::MAX,
            convertible((old(self).full_seconds + seconds) as i64, old(self).offset),
        ensures
            *final(self) == converted(
                (old(self).full_seconds + seconds) as i64,
                old(self).offset,
            ),
    {
        let ok = self.p_convert_seconds(self.full_seconds + seconds);
    }

    /// The year field is a leap year.
    fn p_is_leap_year(&self) -> (r: bool)
        ensures
            r == is_leap_year(self.year as int),
    {
        (self.year % 4 == 0 && self.year % 100 != 0) || (self.year % 400 == 0)
    }

    /// Days in the month field's month of the year field's year (0 for no month).
    fn p_days_in_month(&self) -> (r: i64)
        ensures
            r == days_in_month(self.year as int, self.month as int),
    {
        match self.month {
            1 | 3 | 5 | 7 | 8 | 10 | 12 => 31,
            4 | 6 | 9 | 11 => 30,
            2 => if self.p_is_leap_year() {
                29
            } else {
                28
            },
            _ => 0,
        }
    }

    /// Sets every field to the date and time `total_seconds` after the epoch at this
    /// value's offset; false, with the value unchanged, where the conversion would not
    /// end normally.
    fn p_convert_seconds(&mut self, total_seconds: i64) -> (ok: bool)
        ensures
            ok == convertible(total_seconds, old(self).offset),
            ok ==> *final(self) == converted(total_seconds, old(self).offset),
            !ok ==> *final(self) == *old(self),
    {
        let ghost s0 = local_seconds(total_seconds, self.offset);
        let local = match total_seconds.checked_add(self.offset as i64) {
            Some(s) => s,
            None => {
                return false;
            },
        };
        let (week, second, minute, hour, seconds) = match clock_fields(local) {
            Some(f) => f,
            None => {
                return false;
            },
        };
        let backup = *self;
        self.year = 1970;
        self.month = 1;
        let seconds = self.p_walk_years(seconds);
        let seconds = match self.p_walk_months(seconds) {
            Some(s) => s,
            None => {
                *self = backup;
                return false;
            },
        };
        proof {
            assert(month_walk(s0).1 == tdiv(seconds as int, 86400));
        }
        let day = match 1u8.checked_add(trunc_div(seconds, SECONDS_IN_A_DAY) as u8) {
            Some(d) => d,
            None => {
                *self = backup;
                return false;
            },
        };
        self.day = day;
        self.week = week;
        self.hour = hour;
        self.minute = minute;
        self.second = second;
        self.full_seconds = total_seconds;
        true
    }

    /// From January of 1970 on, passes whole years of `seconds` (a whole number of days,
    /// or negative) into the year field; the seconds left.
    fn p_walk_years(&mut self, seconds: i64) -> (rest: i64)
        requires
            old(self).year == 1970,
            seconds >= 0 ==> seconds % 86400 == 0,
        ensures
            *final(self) == (DateTime { year: final(self).year, ..*old(self) }),
            seconds >= 0 ==> rest >= 0 && rest % 86400 == 0 && walk_years(1970, seconds / 86400)
                == (final(self).year as int, rest / 86400),
            seconds < 0 ==> rest == seconds && final(self).year == 1970,
    {
        let mut rest = seconds;
        loop
            invariant_except_break
                seconds >= 0 ==> walk_years(self.year as int, rest / 86400) == walk_years(
                    1970,
                    seconds / 86400,
                ),
            invariant
                *self == (DateTime { year: self.year, ..*old(self) }),
                1970 <= self.year,
                (self.year - 1970) * 31536000 <= seconds - rest,
                rest <= seconds,
                seconds >= 0 ==> rest >= 0 && rest % 86400 == 0,
                seconds < 0 ==> rest == seconds && self.year == 1970,
            ensures
                seconds >= 0 ==> walk_years(1970, seconds / 86400) == (
                    self.year as int,
                    rest / 86400,
                ),
            decreases rest,
        {
            let year_seconds = if self.p_is_leap_year() {
                366 * SECONDS_IN_A_DAY
            } else {
                365 * SECONDS_IN_A_DAY
            };
            if year_seconds < rest {
                proof {
                    assert((rest - year_seconds) / 86400 == rest / 86400 - days_in_year(
                        self.year as int,
                    ));
                }
                self.year += 1;
                rest -= year_seconds;
            } else {
                break;
            }
        }
        rest
    }

    /// From January of the year field on, passes whole months of `seconds` (a whole number
    /// of days, or negative) into the month field; the seconds left, or `None` where the
    /// walk runs past December.
    fn p_walk_months(&mut self, seconds: i64) -> (rest: Option<i64>)
        requires
            old(self).month == 1,
            seconds >= 0 ==> seconds % 86400 == 0,
        ensures
            *final(self) == (DateTime { month: final(self).month, ..*old(self) }),
            seconds >= 0 ==> {
                let w = walk_months(old(self).year as int, 1, seconds / 86400);
                &&& rest is Some <==> w.0 <= 12
                &&& rest matches Some(r) ==> r >= 0 && r % 86400 == 0 && w == (
                    final(self).month as int,
                    r / 86400,
                )
            },
            seconds < 0 ==> rest == Some(seconds) && final(self).month == 1,
    {
        let mut rest = seconds;
        loop
            invariant_except_break
                seconds >= 0 ==> walk_months(self.year as int, self.month as int, rest / 86400)
                    == walk_months(old(self).year as int, 1, seconds / 86400),
            invariant
                *self == (DateTime { month: self.month, ..*old(self) }),
                1 <= self.month <= 13,
                rest <= seconds,
                seconds >= 0 ==> rest >= 0 && rest % 86400 == 0,
                seconds < 0 ==> rest == seconds && self.month == 1,
            ensures
                self.month <= 12,
                seconds >= 0 ==> walk_months(old(self).year as int, 1, seconds / 86400) == (
                    self.month as int,
                    rest / 86400,
                ),
            decreases 13 - self.month,
        {
            if self.month > 12 {
                return None;
            }
            let month_seconds = self.p_days_in_month() * SECONDS_IN_A_DAY;
            if month_seconds - SECONDS_IN_A_DAY < rest {
                proof {
                    assert((rest - month_seconds) / 86400 == rest / 86400 - days_in_month(
                        self.year as int,
                        self.month as int,
                    ));
                }
                self.month += 1;
                rest -= month_seconds;
            } else {
                break;
            }
        }
        Some(rest)
    }
}

/// The week, second, minute and hour fields of local time `s0`, and `s0` with the last
/// three taken off; `None` where taking them off goes below `i64::MIN`.
fn clock_fields(s0: i64) -> (r: Option<(u8, u8, u8, u8, i64)>)
    ensures
        r is Some <==> (i64::MIN <= after_second(s0 as int) && i64::MIN <= after_minute(s0 as int)
            && i64::MIN <= after_hour(s0 as int)),
        r matches Some(f) ==> f == (
            week_of(s0 as int),
            second_of(s0 as int),
            minute_of(s0 as int),
            hour_of(s0 as int),
            after_hour(s0 as int) as i64,
        ),
        r matches Some(f) ==> (f.4 >= 0 ==> f.4 % 86400 == 0),
{
    let days = trunc_div(s0, SECONDS_IN_A_DAY);
    let week = trunc_rem(days + 4, 7) as u8;
    let second = trunc_rem(s0, SECONDS_IN_A_MINUTE) as u8;
    let s1 = match s0.checked_sub(second as i64) {
        Some(s) => s,
        None => {
            return None;
        },
    };
    let minute = trunc_div(trunc_rem(s1, SECONDS_IN_AN_HOUR), 60) as u8;
    let s2 = match s1.checked_sub(minute as i64 * 60) {
        Some(s) => s,
        None => {
            return None;
        },
    };
    let hour = trunc_div(trunc_div(trunc_rem(s2, SECONDS_IN_A_DAY), 60), 60) as u8;
    let s3 = match s2.checked_sub(hour as i64 * 60 * 60) {
        Some(s) => s,
        None => {
            return None;
        },
    };
    proof {
        lemma_whole_days(s0 as int);
    }
    Some((week, second, minute, hour, s3))
}

/// `a / b` on `i64` (rounded toward zero).
fn trunc_div(a: i64, b: i64) -> (r: i64)
    requires
        b > 0,
    ensures
        r == tdiv(a as int, b as int),
{
    a / b
}

/// `a % b` on `i64` (the sign of `a`).
fn trunc_rem(a: i64, b: i64) -> (r: i64)
    requires
        b > 0,
    ensures
        r == trem(a as int, b as int),
{
    let q = trunc_div(a, b);
    proof {
        lemma_tdiv_times(a as int, b as int);
    }
    a - q * b
}

/// `tdiv(a, b) * b` lies between 0 and `a`.
proof fn lemma_tdiv_times(a: int, b: int)
    requires
        b > 0,
    ensures
        a >= 0 ==> 0 <= tdiv(a, b) * b <= a,
        a < 0 ==> a <= tdiv(a, b) * b <= 0,
{
    if a >= 0 {
        assert(0 <= (a / b) * b <= a) by (nonlinear_arith)
            requires
                a >= 0,
                b > 0,
        ;
    } else {
        let n = -a;
        assert(0 <= (n / b) * b <= n) by (nonlinear_arith)
            requires
                n > 0,
                b > 0,
        ;
        assert(tdiv(a, b) * b == -((n / b) * b)) by (nonlinear_arith)
            requires
                tdiv(a, b) == -(n / b),
        ;
    }
}

/// Local time with its second, minute and hour fields taken off is a whole number of days
/// when it is not negative.
proof fn lemma_whole_days(s0: int)
    ensures
        after_hour(s0) >= 0 ==> after_hour(s0) % 86400 == 0,
{
    if s0 >= 0 {
        assert(second_of(s0) == s0 % 60);
        assert(after_second(s0) == s0 - s0 % 60);
        assert(minute_of(s0) == (after_second(s0) % 3600) / 60);
        assert(after_second(s0) % 60 == 0);
        assert(after_minute(s0) % 3600 == 0);
        assert(hour_of(s0) == (after_minute(s0) % 86400) / 3600);
    }
}

/// Reads the system clock by `std::time::SystemTime::now`. Trusted, with no contract:
/// nothing is claimed of the time it gives, which rests on the machine's clock.
#[verifier::external_body]
fn clock_now() -> SystemTime {
    SystemTime::now()
}

/// The time from the epoch to `t`, by `SystemTime::duration_since` with `UNIX_EPOCH`, or
/// `None` where that call fails (where `t` is before the epoch). Trusted, with no
/// contract: nothing is claimed of the result, since `SystemTime` is opaque here.
#[verifier::external_body]
fn since_epoch(t: SystemTime) -> Option<std::time::Duration> {
    t.duration_since(std::time::UNIX_EPOCH).ok()
}

/// The whole seconds of `d`, by `Duration::as_secs`. Trusted, with no contract: nothing
/// is claimed of the result, since `Duration` is opaque here.
#[verifier::external_body]
fn whole_seconds(d: std::time::Duration) -> u64 {
    d.as_secs()
}

/// `std::time::SystemTime`, declared so that the clock's reading can be passed on; its
/// contents are opaque.
#[verifier::external_type_specification]
#[verifier::external_body]
pub struct ExSystemTime(SystemTime);

} // verus!

verus! {

// ---------------------------------------------------------------------------
// Laws of the calendar conversion
// ---------------------------------------------------------------------------

/// Each year after 1970 starts later than the one before.
pub proof fn lemma_days_before_year_increasing(y1: int, y2: int)
    requires
        1970 <= y1 < y2,
    ensures
        days_before_year(y1) < days_before_year(y2),
    decreases y2 - y1,
{
    if y1 + 1 < y2 {
        lemma_days_before_year_increasing(y1, y2 - 1);
    }
}

/// The year walk from year `y` lands in a year `yr` with `r` days left, where the days of
/// the years passed and `r` add up to `d`, and `r` is at most a year long.
pub proof fn lemma_walk_years(y: int, d: int)
    requires
        y >= 1970,
        d >= 0,
    ensures
        walk_years(y, d).0 >= y,
        0 <= walk_years(y, d).1 <= days_in_year(walk_years(y, d).0),
        walk_years(y, d).0 > y ==> walk_years(y, d).1 > 0,
        walk_years(y, d).0 - y <= d,
        days_before_year(walk_years(y, d).0) - days_before_year(y) + walk_years(y, d).1 == d,
    decreases d,
{
    if days_in_year(y) < d {
        lemma_walk_years(y + 1, d - days_in_year(y));
    }
}

/// The twelve months of a year add up to the year.
pub proof fn lemma_months_fill_year(y: int)
    ensures
        days_before_month(y, 13) == days_in_year(y),
        forall|m: int| 1 <= m <= 12 ==> #[trigger] days_before_month(y, m) + days_in_month(y, m)
            <= days_in_year(y),
        forall|m: int| 1 <= m <= 12 ==> days_in_month(y, m) > 0,
{
    reveal_with_fuel(days_before_month, 14);
    assert forall|m: int| 1 <= m <= 12 implies #[trigger] days_before_month(y, m) + days_in_month(
        y,
        m,
    ) <= days_in_year(y) by {
        reveal_with_fuel(days_before_month, 14);
    }
}

/// The month walk from month `m` with `d` days to go, inside one year, lands in a month
/// `mr` with `q` days left that add up with the months passed to `d`; it runs past
/// December exactly when the days fill the year.
pub proof fn lemma_walk_months(y: int, m: int, d: int)
    requires
        1 <= m <= 13,
        d >= 0,
        days_before_month(y, m) + d <= days_in_year(y),
    ensures
        m <= walk_months(y, m, d).0 <= 13,
        walk_months(y, m, d).1 >= 0,
        days_before_month(y, walk_months(y, m, d).0) + walk_months(y, m, d).1
            == days_before_month(y, m) + d,
        walk_months(y, m, d).0 <= 12 ==> walk_months(y, m, d).1 < days_in_month(
            y,
            walk_months(y, m, d).0,
        ),
        (walk_months(y, m, d).0 == 13) == (days_before_month(y, m) + d == days_in_year(y)),
    decreases 13 - m,
{
    lemma_months_fill_year(y);
    if 1 <= m <= 12 && days_in_month(y, m) <= d {
        assert(days_before_month(y, m + 1) == days_before_month(y, m) + days_in_month(y, m));
        lemma_walk_months(y, m + 1, d - days_in_month(y, m));
    } else if m <= 12 {
        assert(days_before_month(y, m) + days_in_month(y, m) <= days_in_year(y));
    }
}

/// For a local time `s0` that is not negative, the clock fields are its second, minute and
/// hour of the day, the week field its day of the week (0 is Sunday, and 1 January 1970 a
/// Thursday), and the days the date fields count from 1 January 1970 are its whole days.
pub proof fn law_conversion_is_calendar(total: i64, offset: i32)
    requires
        convertible(total, offset),
        local_seconds(total, offset) >= 0,
    ensures
        ({
            let s0 = local_seconds(total, offset);
            let t = converted(total, offset);
            &&& t.second == s0 % 60
            &&& t.minute == s0 / 60 % 60
            &&& t.hour == s0 / 3600 % 24
            &&& t.week == (s0 / 86400 + 4) % 7
            &&& 1 <= t.month <= 12
            &&& 1 <= t.day <= days_in_month(t.year as int, t.month as int)
            &&& days_before_year(t.year as int) + days_before_month(t.year as int, t.month as int)
                + t.day - 1 == s0 / 86400
            &&& t.full_seconds == total
            &&& t.offset == offset
        }),
{
    let s0 = local_seconds(total, offset);
    lemma_clock_of_day(s0);
    let d = after_hour(s0) / 86400;
    lemma_walk_years(1970, d);
    let (y, r) = walk_years(1970, d);
    lemma_walk_months(y, 1, r);
    let (m, q) = walk_months(y, 1, r);
    assert(days_before_month(y, 1) == 0);
    assert(d <= i64::MAX / 86400);
    assert(converted(total, offset).year == y);
    assert(converted(total, offset).month == m);
    assert(q < 31);
    assert(converted(total, offset).day == 1 + q);
}

/// For a local time that is not negative and no overflow, the conversion fails exactly on
/// the days that are 1 January of a year after 1970.
pub proof fn law_conversion_fails_on_new_year(total: i64, offset: i32)
    requires
        i64::MIN <= local_seconds(total, offset) <= i64::MAX,
        local_seconds(total, offset) >= 0,
    ensures
        !convertible(total, offset) <==> exists|y: int|
            y > 1970 && #[trigger] days_before_year(y) == local_seconds(total, offset) / 86400,
{
    let s0 = local_seconds(total, offset);
    lemma_clock_of_day(s0);
    let d = s0 / 86400;
    lemma_walk_years(1970, d);
    let (yr, r) = walk_years(1970, d);
    lemma_walk_months(yr, 1, r);
    assert(days_before_month(yr, 1) == 0);
    if !convertible(total, offset) {
        assert(walk_months(yr, 1, r).0 == 13);
        assert(days_before_year(yr + 1) == days_before_year(yr) + days_in_year(yr));
        assert(days_before_year(yr + 1) == d);
    }
    if exists|y: int| y > 1970 && #[trigger] days_before_year(y) == d {
        let y = choose|y: int| y > 1970 && #[trigger] days_before_year(y) == d;
        assert(days_before_year(yr + 1) == days_before_year(yr) + days_in_year(yr));
        if y <= yr {
            if y < yr {
                lemma_days_before_year_increasing(y, yr);
            }
        } else if y > yr + 1 {
            lemma_days_before_year_increasing(yr + 1, y);
        }
        assert(y == yr + 1);
        assert(r == days_in_year(yr));
    }
}

/// Local time `s0`, not negative: the clock fields are its second, minute and hour of the
/// day, and taking them off leaves its whole days.
proof fn lemma_clock_of_day(s0: int)
    requires
        s0 >= 0,
    ensures
        second_of(s0) == s0 % 60,
        minute_of(s0) == s0 / 60 % 60,
        hour_of(s0) == s0 / 3600 % 24,
        week_of(s0) == (s0 / 86400 + 4) % 7,
        after_hour(s0) == (s0 / 86400) * 86400,
        after_hour(s0) / 86400 == s0 / 86400,
{
    assert(second_of(s0) == s0 % 60);
    assert(after_second(s0) == s0 - s0 % 60);
    assert(minute_of(s0) == s0 / 60 % 60);
    assert(after_minute(s0) == s0 - s0 % 3600);
    assert(hour_of(s0) == s0 / 3600 % 24);
    assert(after_hour(s0) == s0 - s0 % 86400);
}

/// Moving by `a` and then by `b` seconds gives what moving by `a + b` at once gives:
/// the conversion depends on the seconds since the epoch and the offset alone.
pub proof fn law_add_time_composes(total: i64, offset: i32, a: i64, b: i64)
    requires
        i64::MIN <= total + a <= i64::MAX,
        i64::MIN <= total + a + b <= i64::MAX,
        i64::MIN <= a + b <= i64::MAX,
    ensures
        converted(
            (converted((total + a) as i64, offset).full_seconds + b) as i64,
            converted((total + a) as i64, offset).offset,
        ) == converted((total + (a + b)) as i64, offset),
{
}

} // verus!
