//! The proleptic Gregorian calendar in UTC, and RFC 3339 text of its dates.

use crate::text;
use vstd::prelude::*;

verus! {

/// Whether `year` has 366 days.
pub open spec fn is_leap(year: int) -> bool {
    year % 4 == 0 && (year % 100 != 0 || year % 400 == 0)
}

/// The length of `month` (1 to 12) in `year`.
pub open spec fn days_in_month(year: int, month: int) -> int {
    if month == 2 {
        if is_leap(year) {
            29
        } else {
            28
        }
    } else if month == 4 || month == 6 || month == 9 || month == 11 {
        30
    } else {
        31
    }
}

/// The days of `year` that come before the first of `month`.
pub open spec fn days_before_month(year: int, month: int) -> int
    decreases month,
{
    if month <= 1 {
        0
    } else {
        days_before_month(year, month - 1) + days_in_month(year, month - 1)
    }
}

/// The days from 0001-01-01 to the first of January of `year`.
pub open spec fn days_before_year(year: int) -> int {
    365 * (year - 1) + (year - 1) / 4 - (year - 1) / 100 + (year - 1) / 400
}

/// The days from 1970-01-01 to the given date.
pub open spec fn unix_day(year: int, month: int, day: int) -> int {
    days_before_year(year) + days_before_month(year, month) + day - 1 - 719162
}

/// Whether the six numbers are a date and a time of day.
pub open spec fn is_civil(year: int, month: int, day: int, hour: int, minute: int, second: int) -> bool {
    &&& 1 <= month <= 12
    &&& 1 <= day <= days_in_month(year, month)
    &&& 0 <= hour < 24
    &&& 0 <= minute < 60
    &&& 0 <= second < 60
}

/// The seconds from 1970-01-01T00:00:00Z to the given moment.
pub open spec fn unix_seconds(year: int, month: int, day: int, hour: int, minute: int, second: int) -> int {
    unix_day(year, month, day) * 86400 + hour * 3600 + minute * 60 + second
}

/// The days that come before year `y` of a 400-year cycle whose years begin in March.
spec fn cycle_days(y: int) -> int {
    365 * y + y / 4 - y / 100
}

/// The year of the cycle that holds its day `doe`.
#[verifier::opaque]
spec fn year_of_cycle(doe: int) -> int {
    (doe - doe / 1460 + doe / 36524 - doe / 146096) / 365
}

#[verifier::rlimit(60)]
proof fn lemma_year_of_cycle(doe: int)
    requires
        0 <= doe < 146097,
    ensures
        0 <= year_of_cycle(doe) < 400,
        0 <= doe - cycle_days(year_of_cycle(doe)) < 366,
        doe - cycle_days(year_of_cycle(doe)) == 365 ==> is_leap(year_of_cycle(doe) + 1),
{
    reveal(year_of_cycle);
    if doe == 146096 {
        assert(year_of_cycle(doe) == 399);
    } else {
        // The century, the four-year block in it, and the day in that block.
        let b = doe / 36524;
        let r = doe - 36524 * b;
        let m = r / 1461;
        let t = r - 1461 * m;
        assert(0 <= b <= 3 && 0 <= r < 36524 && 0 <= m <= 24 && 0 <= t < 1461);
        let e: int = if 24 * b + m + t >= 1460 { 1 } else { 0 };
        assert(doe / 1460 == 25 * b + m + e);
        assert(doe / 146096 == 0);
        let n = 36500 * b + 1460 * m + t - e;
        assert(year_of_cycle(doe) == n / 365);
        let j = (t - e) / 365;
        assert(0 <= j <= 3);
        let y = 100 * b + 4 * m + j;
        assert(n / 365 == y);
        assert(y / 4 == 25 * b + m);
        assert(y / 100 == b);
        assert(doe - cycle_days(y) == t - 365 * j);
        if t - 365 * j == 365 {
            assert(t == 1460 && j == 3 && m < 24);
            assert((y + 1) % 4 == 0 && (y + 1) % 100 == 4 * m + 4);
        }
    }
}

/// The month of a year that begins in March which holds its day `doy`: 0 for
/// March, 11 for February.
#[verifier::opaque]
spec fn march_month(doy: int) -> int {
    (5 * doy + 2) / 153
}

/// The days of a year that begins in March which come before its month `mp`.
#[verifier::opaque]
spec fn march_days(mp: int) -> int {
    (153 * mp + 2) / 5
}

#[verifier::rlimit(60)]
proof fn lemma_march_month(doy: int)
    requires
        0 <= doy < 366,
    ensures
        ({
            let mp = march_month(doy);
            let day = doy - march_days(mp) + 1;
            &&& 0 <= mp < 12
            &&& 1 <= day
            &&& mp < 10 ==> forall|y: int| day <= #[trigger] days_in_month(y, mp + 3)
            &&& mp == 10 ==> day <= 31
            &&& mp == 11 ==> day <= 29 && (doy < 365 ==> day <= 28)
        }),
{
    reveal(march_month);
    reveal(march_days);
}

/// How the months of a year that begins in March line up with the calendar.
#[verifier::rlimit(60)]
proof fn lemma_month_starts(year: int, mp: int)
    requires
        0 <= mp < 12,
    ensures
        mp < 10 ==> days_before_month(year, mp + 3) == march_days(mp) + if is_leap(year) { 60int } else { 59int },
        mp >= 10 ==> days_before_month(year, mp - 9) == march_days(mp) - 306,
{
    reveal(march_days);
    let leap: int = if is_leap(year) { 1 } else { 0 };
    assert(days_before_month(year, 1) == 0);
    assert(days_before_month(year, 2) == 31);
    assert(days_before_month(year, 3) == 59 + leap);
    assert(days_before_month(year, 4) == 90 + leap);
    assert(days_before_month(year, 5) == 120 + leap);
    assert(days_before_month(year, 6) == 151 + leap);
    assert(days_before_month(year, 7) == 181 + leap);
    assert(days_before_month(year, 8) == 212 + leap);
    assert(days_before_month(year, 9) == 243 + leap);
    assert(days_before_month(year, 10) == 273 + leap);
    assert(days_before_month(year, 11) == 304 + leap);
    assert(days_before_month(year, 12) == 334 + leap);
}

/// How a year that begins in March lines up with the calendar.
#[verifier::rlimit(60)]
proof fn lemma_march_year(y: int, mp: int, day: int)
    requires
        0 <= mp < 12,
    ensures
        mp < 10 ==> unix_day(y, mp + 3, day) == 365 * y + y / 4 - y / 100 + y / 400 - 719468
            + march_days(mp) + day - 1,
        mp >= 10 ==> unix_day(y + 1, mp - 9, day) == 365 * y + y / 4 - y / 100 + y / 400 - 719468
            + march_days(mp) + day - 1,
{
    lemma_month_starts(y, mp);
    lemma_month_starts(y + 1, mp);
    law_year_length(y);
}

proof fn lemma_shift(a: int, k: int, n: nat)
    requires
        n > 0,
    ensures
        (a + k * n) / (n as int) == a / (n as int) + k,
        (a + k * n) % (n as int) == a % (n as int),
{
    vstd::arithmetic::div_mod::lemma_hoist_over_denominator(a, k, n);
    vstd::arithmetic::div_mod::lemma_mod_multiples_vanish(k, a, n as int);
    vstd::arithmetic::mul::lemma_mul_is_commutative(k, n as int);
}

/// Cycles of 400 years are alike.
#[verifier::rlimit(60)]
proof fn lemma_cycle(era: int, yoe: int)
    requires
        0 <= yoe < 400,
    ensures
        ({
            let y = yoe + era * 400;
            &&& 365 * y + y / 4 - y / 100 + y / 400 == era * 146097 + cycle_days(yoe)
            &&& is_leap(y + 1) == is_leap(yoe + 1)
        }),
{
    let y = yoe + era * 400;
    lemma_shift(yoe, era * 100, 4);
    lemma_shift(yoe, era * 4, 100);
    lemma_shift(yoe, era, 400);
    lemma_shift(yoe + 1, era * 100, 4);
    lemma_shift(yoe + 1, era * 4, 100);
    lemma_shift(yoe + 1, era, 400);
    assert(yoe / 400 == 0);
}

/// The time of day and the day that `secs` falls on.
#[verifier::rlimit(60)]
proof fn lemma_time_of_day(secs: int)
    requires
        0 <= secs,
    ensures
        secs == secs / 86400 * 86400 + secs / 3600 % 24 * 3600 + secs / 60 % 60 * 60 + secs % 60,
{
}

/// The date that is `days` days after 0000-03-01.
#[verifier::rlimit(60)]
proof fn lemma_civil_from_days(days: int)
    requires
        0 <= days,
    ensures
        ({
            let doe = days % 146097;
            let yoe = year_of_cycle(doe);
            let y = yoe + days / 146097 * 400;
            let doy = doe - cycle_days(yoe);
            let mp = march_month(doy);
            let day = doy - march_days(mp) + 1;
            let month = if mp < 10 { mp + 3 } else { mp - 9 };
            let year = if month <= 2 { y + 1 } else { y };
            &&& 0 <= yoe < 400
            &&& 0 <= doy < 366
            &&& 0 <= mp < 12
            &&& 1 <= day <= days_in_month(year, month)
            &&& unix_day(year, month, day) == days - 719468
        }),
{
    let doe = days % 146097;
    let era = days / 146097;
    lemma_year_of_cycle(doe);
    let yoe = year_of_cycle(doe);
    let y = yoe + era * 400;
    let doy = doe - cycle_days(yoe);
    lemma_march_month(doy);
    let mp = march_month(doy);
    let day = doy - march_days(mp) + 1;
    lemma_march_year(y, mp, day);
    lemma_cycle(era, yoe);
    if mp < 10 {
        assert(day <= days_in_month(y, mp + 3));
    }
}

/// A date and a time of day.
#[derive(Clone, Copy, PartialEq, Eq, Debug)]
pub struct CivilTime {
    pub year: i64,
    pub month: u8,
    pub day: u8,
    pub hour: u8,
    pub minute: u8,
    pub second: u8,
}

impl CivilTime {
    /// Whether the fields are a date and a time of day.
    pub open spec fn is_civil(self) -> bool {
        is_civil(self.year as int, self.month as int, self.day as int, self.hour as int, self.minute as int, self.second as int)
    }

    /// The seconds since 1970-01-01T00:00:00Z.
    pub open spec fn unix_seconds(self) -> int {
        unix_seconds(self.year as int, self.month as int, self.day as int, self.hour as int, self.minute as int, self.second as int)
    }
}

/// The date and time of day that are `secs` seconds after 1970-01-01T00:00:00Z,
/// as year, month, day, hour, minute and second. The year is taken modulo 2^32.
#[verifier::rlimit(60)]
pub fn epoch_to_ymd_hms(secs: u64) -> (r: (u32, u32, u32, u32, u32, u32))
    ensures
        exists|year: int|
            {
                &&& #[trigger] is_civil(year, r.1 as int, r.2 as int, r.3 as int, r.4 as int, r.5 as int)
                &&& unix_seconds(year, r.1 as int, r.2 as int, r.3 as int, r.4 as int, r.5 as int) == secs
                &&& r.0 == year % 0x1_0000_0000
            },
{
    let s: u32 = (secs % 60) as u32;
    let m: u32 = ((secs / 60) % 60) as u32;
    let h: u32 = ((secs / 3600) % 24) as u32;
    // Shifted so that day 0 is 0000-03-01: a leap day then ends its year.
    let days: u64 = secs / 86400 + 719_468;
    let era: u64 = days / 146_097;
    let doe: u32 = (days % 146_097) as u32;
    proof {
        lemma_civil_from_days(days as int);
        lemma_time_of_day(secs as int);
    }
    let yoe: u32 = (doe - doe / 1460 + doe / 36524 - doe / 146096) / 365;
    assert(yoe == year_of_cycle(doe as int)) by {
        reveal(year_of_cycle);
    }
    let y: u64 = yoe as u64 + era * 400;
    let doy: u32 = doe - (365 * yoe + yoe / 4 - yoe / 100);
    let mp: u32 = (5 * doy + 2) / 153;
    assert(mp == march_month(doy as int)) by {
        reveal(march_month);
    }
    let before: u32 = (153 * mp + 2) / 5;
    assert(before == march_days(mp as int)) by {
        reveal(march_days);
    }
    let d: u32 = doy - before + 1;
    let m_real: u32 = if mp < 10 { mp + 3 } else { mp - 9 };
    let y_real: u64 = if m_real <= 2 { y + 1 } else { y };
    assert(unix_day(y_real as int, m_real as int, d as int) == secs / 86400);
    let year: u32 = (y_real % 0x1_0000_0000) as u32;
    assert(year == y_real as int % 0x1_0000_0000);
    let r = (year, m_real, d, h, m, s);
    assert(is_civil(y_real as int, r.1 as int, r.2 as int, r.3 as int, r.4 as int, r.5 as int));
    assert(unix_seconds(y_real as int, r.1 as int, r.2 as int, r.3 as int, r.4 as int, r.5 as int) == secs);
    r
}

/// A year of at least four digits, with a minus sign before those below zero.
pub open spec fn year_text(year: int) -> Seq<char> {
    if year < 0 {
        seq!['-'] + text::zero_padded((-year) as nat, 4)
    } else {
        text::zero_padded(year as nat, 4)
    }
}

/// The RFC 3339 text of a moment in UTC, to the second.
pub open spec fn rfc3339(year: int, month: int, day: int, hour: int, minute: int, second: int) -> Seq<char> {
    year_text(year) + seq!['-'] + text::zero_padded(month as nat, 2) + seq!['-'] + text::zero_padded(day as nat, 2)
        + seq!['T'] + text::zero_padded(hour as nat, 2) + seq![':'] + text::zero_padded(minute as nat, 2)
        + seq![':'] + text::zero_padded(second as nat, 2) + seq!['Z']
}

/// Whether `text` is the RFC 3339 text of the moment `secs` seconds after
/// 1970-01-01T00:00:00Z, its year taken modulo 2^32.
pub open spec fn is_stamp(text: Seq<char>, secs: int) -> bool {
    exists|year: int, month: int, day: int, hour: int, minute: int, second: int|
        {
            &&& #[trigger] is_civil(year, month, day, hour, minute, second)
            &&& unix_seconds(year, month, day, hour, minute, second) == secs
            &&& text == rfc3339(year % 0x1_0000_0000, month, day, hour, minute, second)
        }
}

/// The RFC 3339 text of `t`.
pub fn rfc3339_text(t: &CivilTime) -> (text: String)
    ensures
        text@ == rfc3339(t.year as int, t.month as int, t.day as int, t.hour as int, t.minute as int, t.second as int),
{
    let mut out = String::new();
    if t.year < 0 {
        out.push('-');
        let magnitude: u64 = (-(t.year + 1)) as u64 + 1;
        text::push_padded(&mut out, magnitude, 4);
    } else {
        text::push_padded(&mut out, t.year as u64, 4);
    }
    assert(out@ =~= year_text(t.year as int));
    out.push('-');
    text::push_padded(&mut out, t.month as u64, 2);
    out.push('-');
    text::push_padded(&mut out, t.day as u64, 2);
    out.push('T');
    text::push_padded(&mut out, t.hour as u64, 2);
    out.push(':');
    text::push_padded(&mut out, t.minute as u64, 2);
    out.push(':');
    text::push_padded(&mut out, t.second as u64, 2);
    out.push('Z');
    assert(out@ =~= rfc3339(t.year as int, t.month as int, t.day as int, t.hour as int, t.minute as int, t.second as int));
    out
}

/// The RFC 3339 text of the moment `secs` seconds after 1970-01-01T00:00:00Z.
pub fn stamp(secs: u64) -> (text: String)
    ensures
        is_stamp(text@, secs as int),
{
    let (year, month, day, hour, minute, second) = epoch_to_ymd_hms(secs);
    let t = CivilTime {
        year: year as i64,
        month: month as u8,
        day: day as u8,
        hour: hour as u8,
        minute: minute as u8,
        second: second as u8,
    };
    rfc3339_text(&t)
}

/// A reading of the system clock.
#[verifier::external_type_specification]
#[verifier::external_body]
pub struct ExSystemTime(std::time::SystemTime);

/// The error of `SystemTime::duration_since`.
#[verifier::external_type_specification]
#[verifier::external_body]
pub struct ExSystemTimeError(std::time::SystemTimeError);

/// `SystemTime::now` reads the system clock. Nothing is claimed of what it shows.
pub assume_specification[ std::time::SystemTime::now ]() -> std::time::SystemTime;

/// The whole seconds of a duration, as `Duration::as_secs` counts them.
pub uninterp spec fn whole_secs(d: std::time::Duration) -> u64;

/// `Duration::as_secs` counts the whole seconds of a duration: a function of the duration alone.
pub assume_specification[ std::time::Duration::as_secs ](d: &std::time::Duration) -> (secs: u64)
    ensures
        secs == whole_secs(*d),
;

/// The time from the Unix epoch to `t`, as `SystemTime::duration_since` measures it. `None` where `t`
/// is earlier.
pub uninterp spec fn after_epoch(t: std::time::SystemTime) -> Option<std::time::Duration>;

/// `SystemTime::duration_since` measures the time from the Unix epoch to `t`, or fails where `t` is
/// earlier: a function of `t` alone.
#[verifier::external_body]
fn since_unix_epoch(t: &std::time::SystemTime) -> (d: Result<std::time::Duration, std::time::SystemTimeError>)
    ensures
        match d {
            Ok(d) => after_epoch(*t) == Some(d),
            Err(_) => after_epoch(*t) is None,
        },
{
    t.duration_since(std::time::UNIX_EPOCH)
}

/// The seconds from 1970-01-01T00:00:00Z to `t`, 0 where `t` is earlier.
pub open spec fn unix_secs_of(t: std::time::SystemTime) -> u64 {
    match after_epoch(t) {
        Some(d) => whole_secs(d),
        None => 0,
    }
}

/// The seconds since 1970-01-01T00:00:00Z that the system clock shows, 0 where it stands before that.
/// Any moment can come back.
pub fn unix_secs_now() -> (secs: u64)
    ensures
        exists|t: std::time::SystemTime| secs == #[trigger] unix_secs_of(t),
{
    let t = std::time::SystemTime::now();
    match since_unix_epoch(&t) {
        Ok(d) => {
            let secs: u64 = d.as_secs();
            assert(secs == unix_secs_of(t));
            secs
        },
        Err(_) => {
            assert(0 == unix_secs_of(t));
            0
        },
    }
}

/// The RFC 3339 text of what the system clock shows.
pub fn chrono_like_now() -> (text: String)
    ensures
        exists|t: std::time::SystemTime| is_stamp(text@, #[trigger] unix_secs_of(t) as int),
{
    let secs = unix_secs_now();
    stamp(secs)
}

/// A year has 366 days if it is a leap year, else 365.
#[verifier::rlimit(60)]
pub proof fn law_year_length(year: int)
    ensures
        unix_day(year + 1, 1, 1) - unix_day(year, 1, 1) == (if is_leap(year) { 366int } else { 365 }),
        unix_day(1970, 1, 1) == 0,
{
}

/// The days of a year before the end of one of its months.
#[verifier::rlimit(60)]
proof fn lemma_month_in_year(year: int, month: int)
    requires
        1 <= month <= 12,
    ensures
        0 <= days_before_month(year, month),
        days_before_month(year, month) + days_in_month(year, month) <= (if is_leap(year) { 366int } else { 365 }),
{
    reveal_with_fuel(days_before_month, 13);
}

#[verifier::rlimit(60)]
proof fn lemma_months_in_order(year: int, month: int, later: int)
    requires
        1 <= month < later <= 12,
    ensures
        days_before_month(year, month) + days_in_month(year, month) <= days_before_month(year, later),
    decreases later - month,
{
    if month + 1 < later {
        lemma_months_in_order(year, month, later - 1);
    }
}

#[verifier::rlimit(60)]
proof fn lemma_years_in_order(year: int, later: int)
    requires
        year < later,
    ensures
        days_before_year(year) + (if is_leap(year) { 366int } else { 365 }) <= days_before_year(later),
    decreases later - year,
{
    law_year_length(year);
    if year + 1 < later {
        lemma_years_in_order(year + 1, later);
    }
}

/// A moment has one date and one time of day only.
#[verifier::rlimit(60)]
pub proof fn law_civil_is_unique(
    year: int, month: int, day: int, hour: int, minute: int, second: int,
    year2: int, month2: int, day2: int, hour2: int, minute2: int, second2: int,
)
    requires
        is_civil(year, month, day, hour, minute, second),
        is_civil(year2, month2, day2, hour2, minute2, second2),
        unix_seconds(year, month, day, hour, minute, second)
            == unix_seconds(year2, month2, day2, hour2, minute2, second2),
    ensures
        year == year2,
        month == month2,
        day == day2,
        hour == hour2,
        minute == minute2,
        second == second2,
{
    assert(unix_day(year, month, day) == unix_day(year2, month2, day2));
    lemma_month_in_year(year, month);
    lemma_month_in_year(year2, month2);
    if year < year2 {
        lemma_years_in_order(year, year2);
    } else if year2 < year {
        lemma_years_in_order(year2, year);
    } else if month < month2 {
        lemma_months_in_order(year, month, month2);
    } else if month2 < month {
        lemma_months_in_order(year, month2, month);
    }
}

/// The days come one after the other: in a month, from the last of a month to the first of the next, with
/// 28 days in February and 29 of them every fourth year but for three in four centuries, and from the last
/// of December to the first of January. The first of January 1970 is day 0.
#[verifier::spinoff_prover]
#[verifier::rlimit(60)]
pub proof fn law_days_follow_each_other(year: int, month: int, day: int)
    requires
        1 <= month <= 12,
    ensures
        unix_day(1970, 1, 1) == 0,
        unix_day(year, month, day + 1) == unix_day(year, month, day) + 1,
        month < 12 ==> unix_day(year, month + 1, 1) == unix_day(year, month, days_in_month(year, month)) + 1,
        unix_day(year + 1, 1, 1) == unix_day(year, 12, 31) + 1,
        ({
            let february: int = if (year % 4 == 0 && year % 100 != 0) || year % 400 == 0 { 29 } else { 28 };
            let lengths: Seq<int> = seq![31, february, 31, 30, 31, 30, 31, 31, 30, 31, 30, 31];
            days_in_month(year, month) == lengths[month - 1]
        }),
{
    law_year_length(year);
    assert(days_before_month(1970, 1) == 0);
    assert(days_before_month(year, month + 1) == days_before_month(year, month) + days_in_month(year, month));
    lemma_last_of_december(year);
    lemma_month_lengths(year, month);
}

#[verifier::spinoff_prover]
proof fn lemma_last_of_december(year: int)
    ensures
        unix_day(year + 1, 1, 1) == unix_day(year, 12, 31) + 1,
{
    law_year_length(year);
    lemma_month_starts(year, 9);
    assert(march_days(9) == 275) by {
        reveal(march_days);
    }
    assert(days_before_month(year, 1) == 0);
    assert(days_before_month(year + 1, 1) == 0);
}

#[verifier::spinoff_prover]
proof fn lemma_month_lengths(year: int, month: int)
    requires
        1 <= month <= 12,
    ensures
        ({
            let february: int = if (year % 4 == 0 && year % 100 != 0) || year % 400 == 0 { 29 } else { 28 };
            let lengths: Seq<int> = seq![31, february, 31, 30, 31, 30, 31, 31, 30, 31, 30, 31];
            days_in_month(year, month) == lengths[month - 1]
        }),
{
    assert(year % 400 == 0 ==> year % 4 == 0);
}

/// The seconds come one after the other: sixty to a minute, sixty minutes to an hour, twenty-four hours to
/// a day. The first of 1970 is second 0.
pub proof fn law_seconds_follow_each_other(year: int, month: int, day: int, hour: int, minute: int, second: int)
    ensures
        unix_seconds(1970, 1, 1, 0, 0, 0) == 0,
        unix_seconds(year, month, day, hour, minute, second + 1) == unix_seconds(year, month, day, hour, minute, second)
            + 1,
        unix_seconds(year, month, day, hour, minute + 1, 0) == unix_seconds(year, month, day, hour, minute, 59) + 1,
        unix_seconds(year, month, day, hour + 1, 0, 0) == unix_seconds(year, month, day, hour, 59, 59) + 1,
        unix_seconds(year, month, day + 1, 0, 0, 0) == unix_seconds(year, month, day, 23, 59, 59) + 1,
        unix_seconds(year, month, day, 0, 0, 0) == 86400 * unix_day(year, month, day),
        is_civil(year, month, day, hour, minute, second) <==> {
            &&& 1 <= month <= 12 && 1 <= day <= days_in_month(year, month)
            &&& 0 <= hour <= 23 && 0 <= minute <= 59 && 0 <= second <= 59
        },
{
    law_days_follow_each_other(1970, 1, 1);
}

/// The date and the time of day of a moment are what its seconds since 1970 come to, and up to the end of
/// the year 9999 its year is given as it is.
pub proof fn law_moment_is_split(secs: u64, r: (u32, u32, u32, u32, u32, u32))
    requires
        call_ensures(epoch_to_ymd_hms, (secs,), r),
    ensures
        exists|year: int|
            {
                &&& #[trigger] unix_day(year, r.1 as int, r.2 as int) == secs / 86400
                &&& 1 <= r.2 <= days_in_month(year, r.1 as int)
                &&& r.0 == year % 0x1_0000_0000
                &&& secs <= 253_402_300_799 ==> r.0 == year
            },
        1 <= r.1 <= 12,
        r.3 <= 23 && r.4 <= 59 && r.5 <= 59,
        r.3 * 3600 + r.4 * 60 + r.5 == secs % 86400,
{
    let year = choose|year: int|
        {
            &&& #[trigger] is_civil(year, r.1 as int, r.2 as int, r.3 as int, r.4 as int, r.5 as int)
            &&& unix_seconds(year, r.1 as int, r.2 as int, r.3 as int, r.4 as int, r.5 as int) == secs
            &&& r.0 == year % 0x1_0000_0000
        };
    assert(is_civil(year, r.1 as int, r.2 as int, r.3 as int, r.4 as int, r.5 as int));
    let day = unix_day(year, r.1 as int, r.2 as int);
    assert(day == secs / 86400);
    lemma_month_in_year(year, r.1 as int);
    if year < 1970 {
        lemma_years_in_order(year, 1970);
        assert(days_before_month(1970, 1) == 0);
        law_year_length(1970);
    }
    if secs <= 253_402_300_799 && year > 9999 {
        lemma_years_in_order(9999, year);
    }
}

/// Whether the two digits at `at` stand for `n`.
pub open spec fn has_number(text: Seq<char>, at: int, n: int) -> bool {
    let digits = text.subrange(at, at + 2);
    text::is_number(digits) && text::value_of(digits) == n
}

/// Whether a text stands for a year: at least four digits, with a minus sign before those below zero.
pub open spec fn has_year(text: Seq<char>, year: int) -> bool {
    if year < 0 {
        text[0] == '-' && text.len() >= 5 && text::is_number(text.skip(1)) && text::value_of(text.skip(1)) == -year
    } else {
        text.len() >= 4 && text::is_number(text) && text::value_of(text) == year
    }
}

/// Whether a text has these six numbers in the places of an RFC 3339 time in UTC: `-MM-DDThh:mm:ssZ` at its
/// end, and the year before that.
pub open spec fn tells_time(text: Seq<char>, year: int, month: int, day: int, hour: int, minute: int, second: int) -> bool {
    let n = text.len() as int;
    &&& n >= 20
    &&& has_year(text.take(n - 16), year)
    &&& text[n - 16] == '-' && has_number(text, n - 15, month)
    &&& text[n - 13] == '-' && has_number(text, n - 12, day)
    &&& text[n - 10] == 'T' && has_number(text, n - 9, hour)
    &&& text[n - 7] == ':' && has_number(text, n - 6, minute)
    &&& text[n - 4] == ':' && has_number(text, n - 3, second)
    &&& text[n - 1] == 'Z'
}

/// A text in this form has one reading only.
pub proof fn law_time_is_read_one_way(
    text: Seq<char>,
    year: int, month: int, day: int, hour: int, minute: int, second: int,
    year2: int, month2: int, day2: int, hour2: int, minute2: int, second2: int,
)
    requires
        tells_time(text, year, month, day, hour, minute, second),
        tells_time(text, year2, month2, day2, hour2, minute2, second2),
    ensures
        year == year2,
        month == month2,
        day == day2,
        hour == hour2,
        minute == minute2,
        second == second2,
{
    let y = text.take(text.len() - 16);
    if year >= 0 || year2 >= 0 {
        assert('0' <= y[0] <= '9');
    }
}

proof fn lemma_two_digits_at(text: Seq<char>, at: int, n: nat)
    requires
        n < 100,
        0 <= at <= text.len() - 2,
        text.subrange(at, at + 2) == text::zero_padded(n, 2),
    ensures
        has_number(text, at, n as int),
{
    text::law_padded_reads_back(n, 2);
}

#[verifier::spinoff_prover]
#[verifier::rlimit(50)]
proof fn lemma_tells_time(year: int, month: int, day: int, hour: int, minute: int, second: int)
    requires
        0 <= month < 100 && 0 <= day < 100 && 0 <= hour < 100 && 0 <= minute < 100 && 0 <= second < 100,
    ensures
        tells_time(rfc3339(year, month, day, hour, minute, second), year, month, day, hour, minute, second),
{
    let t = rfc3339(year, month, day, hour, minute, second);
    let y = year_text(year);
    text::law_two_digits(month as nat);
    text::law_two_digits(day as nat);
    text::law_two_digits(hour as nat);
    text::law_two_digits(minute as nat);
    text::law_two_digits(second as nat);
    let magnitude = if year < 0 { (-year) as nat } else { year as nat };
    text::law_padded_reads_back(magnitude, 4);
    if year < 0 {
        assert(y.skip(1) =~= text::zero_padded(magnitude, 4));
    }
    let n = t.len() as int;
    assert(n == y.len() + 16);
    assert(t.take(n - 16) =~= y);
    assert(t.subrange(n - 15, n - 13) =~= text::zero_padded(month as nat, 2));
    assert(t.subrange(n - 12, n - 10) =~= text::zero_padded(day as nat, 2));
    assert(t.subrange(n - 9, n - 7) =~= text::zero_padded(hour as nat, 2));
    assert(t.subrange(n - 6, n - 4) =~= text::zero_padded(minute as nat, 2));
    assert(t.subrange(n - 3, n - 1) =~= text::zero_padded(second as nat, 2));
    lemma_two_digits_at(t, n - 15, month as nat);
    lemma_two_digits_at(t, n - 12, day as nat);
    lemma_two_digits_at(t, n - 9, hour as nat);
    lemma_two_digits_at(t, n - 6, minute as nat);
    lemma_two_digits_at(t, n - 3, second as nat);
}

/// The text of a date and a time of day has each of its six numbers in its place.
pub proof fn law_text_tells_the_time(t: &CivilTime, text: String)
    requires
        call_ensures(rfc3339_text, (t,), text),
        t.month < 100 && t.day < 100 && t.hour < 100 && t.minute < 100 && t.second < 100,
    ensures
        tells_time(
            text@,
            t.year as int,
            t.month as int,
            t.day as int,
            t.hour as int,
            t.minute as int,
            t.second as int,
        ),
{
    lemma_tells_time(t.year as int, t.month as int, t.day as int, t.hour as int, t.minute as int, t.second as int);
}

/// Whether a text tells a moment: what is read in its places is a date and a time of day that are so many
/// seconds after 1970-01-01T00:00:00Z.
pub open spec fn tells_moment(text: Seq<char>, secs: int) -> bool {
    exists|year: int, month: int, day: int, hour: int, minute: int, second: int|
        {
            &&& #[trigger] tells_time(text, year, month, day, hour, minute, second)
            &&& 1 <= month <= 12 && 1 <= day <= days_in_month(year, month)
            &&& 0 <= hour <= 23 && 0 <= minute <= 59 && 0 <= second <= 59
            &&& unix_day(year, month, day) * 86400 + hour * 3600 + minute * 60 + second == secs
        }
}

/// A text tells one moment only, so different moments have different texts.
pub proof fn law_text_tells_one_moment(text: Seq<char>, secs: int, secs2: int)
    requires
        tells_moment(text, secs),
        tells_moment(text, secs2),
    ensures
        secs == secs2,
{
    let (y, mo, d, h, mi, s) = choose|year: int, month: int, day: int, hour: int, minute: int, second: int|
        {
            &&& #[trigger] tells_time(text, year, month, day, hour, minute, second)
            &&& 1 <= month <= 12 && 1 <= day <= days_in_month(year, month)
            &&& 0 <= hour <= 23 && 0 <= minute <= 59 && 0 <= second <= 59
            &&& unix_day(year, month, day) * 86400 + hour * 3600 + minute * 60 + second == secs
        };
    let (y2, mo2, d2, h2, mi2, s2) = choose|year: int, month: int, day: int, hour: int, minute: int, second: int|
        {
            &&& #[trigger] tells_time(text, year, month, day, hour, minute, second)
            &&& 1 <= month <= 12 && 1 <= day <= days_in_month(year, month)
            &&& 0 <= hour <= 23 && 0 <= minute <= 59 && 0 <= second <= 59
            &&& unix_day(year, month, day) * 86400 + hour * 3600 + minute * 60 + second == secs2
        };
    law_time_is_read_one_way(text, y, mo, d, h, mi, s, y2, mo2, d2, h2, mi2, s2);
}

/// A civil time's text tells its moment.
pub(crate) proof fn lemma_tells_moment(year: int, month: int, day: int, hour: int, minute: int, second: int)
    requires
        is_civil(year, month, day, hour, minute, second),
    ensures
        tells_moment(
            rfc3339(year, month, day, hour, minute, second),
            unix_seconds(year, month, day, hour, minute, second),
        ),
{
    lemma_tells_time(year, month, day, hour, minute, second);
}

/// The stamp of a moment, up to the end of the year 9999, tells that moment.
pub proof fn law_stamp_tells_the_moment(secs: u64, text: String)
    requires
        call_ensures(stamp, (secs,), text),
        secs <= 253_402_300_799,
    ensures
        tells_moment(text@, secs as int),
{
    lemma_stamp_tells(text@, secs as int);
}

#[verifier::spinoff_prover]
#[verifier::rlimit(50)]
proof fn lemma_stamp_tells(text: Seq<char>, secs: int)
    requires
        is_stamp(text, secs),
        0 <= secs <= 253_402_300_799,
    ensures
        tells_moment(text, secs),
{
    let (y, mo, d, h, mi, s) = choose|year: int, month: int, day: int, hour: int, minute: int, second: int|
        {
            &&& #[trigger] is_civil(year, month, day, hour, minute, second)
            &&& unix_seconds(year, month, day, hour, minute, second) == secs
            &&& text == rfc3339(year % 0x1_0000_0000, month, day, hour, minute, second)
        };
    lemma_month_in_year(y, mo);
    if y < 1970 {
        lemma_years_in_order(y, 1970);
        assert(days_before_month(1970, 1) == 0);
        law_year_length(1970);
    }
    if y > 9999 {
        lemma_years_in_order(9999, y);
    }
    lemma_tells_moment(y, mo, d, h, mi, s);
}

/// Whether a text tells a moment, with its year taken modulo 2^32.
pub open spec fn tells_moment_of_cycle(text: Seq<char>, secs: int) -> bool {
    exists|year: int, month: int, day: int, hour: int, minute: int, second: int|
        {
            &&& tells_time(text, year % 0x1_0000_0000, month, day, hour, minute, second)
            &&& 1 <= month <= 12 && 1 <= day <= days_in_month(year, month)
            &&& 0 <= hour <= 23 && 0 <= minute <= 59 && 0 <= second <= 59
            &&& #[trigger] unix_seconds(year, month, day, hour, minute, second) == secs
        }
}

/// The stamp of any moment tells that moment, with its year taken modulo 2^32.
pub proof fn law_late_stamp_tells_the_moment(secs: u64, text: String)
    requires
        call_ensures(stamp, (secs,), text),
    ensures
        tells_moment_of_cycle(text@, secs as int),
{
    lemma_stamp_tells_of_cycle(text@, secs as int);
}

proof fn lemma_stamp_tells_of_cycle(text: Seq<char>, secs: int)
    requires
        is_stamp(text, secs),
    ensures
        tells_moment_of_cycle(text, secs),
{
    let (y, mo, d, h, mi, s) = choose|year: int, month: int, day: int, hour: int, minute: int, second: int|
        {
            &&& #[trigger] is_civil(year, month, day, hour, minute, second)
            &&& unix_seconds(year, month, day, hour, minute, second) == secs
            &&& text == rfc3339(year % 0x1_0000_0000, month, day, hour, minute, second)
        };
    lemma_tells_time(y % 0x1_0000_0000, mo, d, h, mi, s);
}

/// Whether a text tells the moment that some reading of the clock shows, where readings from before 1970
/// stand for the first moment of that year.
pub open spec fn tells_a_reading(text: Seq<char>) -> bool {
    exists|t: std::time::SystemTime|
        match #[trigger] after_epoch(t) {
            Some(d) => tells_moment_of_cycle(text, whole_secs(d) as int),
            None => tells_moment(text, 0),
        }
}

pub(crate) proof fn lemma_stamp_tells_a_reading(text: Seq<char>, t: std::time::SystemTime)
    requires
        is_stamp(text, unix_secs_of(t) as int),
    ensures
        tells_a_reading(text),
{
    match after_epoch(t) {
        Some(d) => {
            lemma_stamp_tells_of_cycle(text, whole_secs(d) as int);
        },
        None => {
            lemma_stamp_tells(text, 0);
        },
    }
}

/// What the clock is stamped with tells the moment that some reading of it shows.
pub proof fn law_clock_is_told(text: String)
    requires
        call_ensures(chrono_like_now, (), text),
    ensures
        tells_a_reading(text@),
{
    let t = choose|t: std::time::SystemTime| is_stamp(text@, #[trigger] unix_secs_of(t) as int);
    lemma_stamp_tells_a_reading(text@, t);
}

/// The seconds that the clock shows are those of some reading of it, and none where that is from before 1970.
pub proof fn law_clock_counts_seconds(secs: u64)
    requires
        call_ensures(unix_secs_now, (), secs),
    ensures
        exists|t: std::time::SystemTime|
            match #[trigger] after_epoch(t) {
                Some(d) => secs == whole_secs(d),
                None => secs == 0,
            },
{
    let t = choose|t: std::time::SystemTime| secs == #[trigger] unix_secs_of(t);
    assert(match after_epoch(t) {
        Some(d) => secs == whole_secs(d),
        None => secs == 0,
    });
}

/// The first moment of the year -9999 and the last of the year 9999.
pub(crate) proof fn lemma_four_digit_years()
    ensures
        unix_seconds(-9999, 1, 1, 0, 0, 0) == -377_705_116_800,
        unix_seconds(9999, 12, 31, 23, 59, 59) == 253_402_300_799,
{
    assert(days_before_month(-9999, 1) == 0);
    lemma_month_starts(9999, 9);
    assert(march_days(9) == 275) by {
        reveal(march_days);
    }
    assert(days_before_year(-9999) == -3652425);
    assert(days_before_year(9999) == 3651694);
}

} // verus!
