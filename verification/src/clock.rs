//! Points in time and the Gregorian calendar.
use vstd::prelude::*;

use crate::text;

verus! {

/// The number of nanoseconds of a second.
pub const NANOS_PER_SECOND: u128 = 1_000_000_000;

/// The number of nanoseconds of a millisecond.
pub const NANOS_PER_MILLI: u128 = 1_000_000;

/// The number of seconds of a day.
pub const SECONDS_PER_DAY: u128 = 86_400;

/// A point in time, counted from the start of 1 January 1970, UTC.
#[derive(Debug, Clone, Copy, PartialEq, Eq, Structural)]
pub struct Timestamp {
    /// Whole seconds, negative before 1970.
    pub secs: i64,
    /// Nanoseconds on top of the seconds.
    pub nanos: u32,
}

impl Timestamp {
    /// The nanoseconds from the start of 1970, negative before it.
    pub open spec fn instant(self) -> int {
        self.secs * 1_000_000_000 + self.nanos
    }

    /// The nanoseconds that have passed since the start of 1970; none before it.
    pub open spec fn since_epoch(self) -> nat {
        if self.instant() < 0 {
            0
        } else {
            self.instant() as nat
        }
    }

    /// The whole days that have passed since the start of 1970; none before it.
    pub open spec fn day(self) -> int {
        self.since_epoch() as int / 1_000_000_000 / 86_400
    }

    /// The nanoseconds from the start of 1970, negative before it.
    fn total(&self) -> (n: i128)
        ensures
            n == self.instant(),
            -9_300_000_000_000_000_000_000_000_000 < n < 9_300_000_000_000_000_000_000_000_000,
    {
        self.secs as i128 * 1_000_000_000i128 + self.nanos as i128
    }

    /// The nanoseconds that have passed since the start of 1970; none before it.
    pub fn nanos_since_epoch(&self) -> (n: u128)
        ensures
            n == self.since_epoch(),
            n < 9_300_000_000_000_000_000_000_000_000,
    {
        let total = self.total();
        if total < 0 {
            0
        } else {
            total as u128
        }
    }

    /// The whole milliseconds that have passed since the start of 1970; none before it.
    pub fn millis_since_epoch(&self) -> (n: u128)
        ensures
            n == self.since_epoch() / 1_000_000,
    {
        self.nanos_since_epoch() / NANOS_PER_MILLI
    }

    /// The whole seconds that have passed since the start of 1970; none before it.
    pub fn secs_since_epoch(&self) -> (n: u128)
        ensures
            n == self.since_epoch() / 1_000_000_000,
    {
        self.nanos_since_epoch() / NANOS_PER_SECOND
    }

    /// Whether `self` comes before `other`.
    pub fn is_before(&self, other: &Timestamp) -> (yes: bool)
        ensures
            yes == (self.instant() < other.instant()),
    {
        self.total() < other.total()
    }

    /// The nanoseconds from `earlier` to `self`; none where `earlier` is the later one.
    pub fn nanos_since(&self, earlier: &Timestamp) -> (n: u128)
        ensures
            n == if self.instant() < earlier.instant() {
                0
            } else {
                self.instant() - earlier.instant()
            },
    {
        let a = self.total();
        let b = earlier.total();
        if a < b {
            0
        } else {
            (a - b) as u128
        }
    }
}

// ---------------------------------------------------------------------------
// The calendar
// ---------------------------------------------------------------------------

/// Whether a year has a 29 February.
pub open spec fn leap(y: int) -> bool {
    y % 4 == 0 && (y % 100 != 0 || y % 400 == 0)
}

/// The number of days of a year.
pub open spec fn days_in_year(y: int) -> int {
    if leap(y) {
        366
    } else {
        365
    }
}

/// The number of days of a month.
pub open spec fn days_in_month(y: int, m: int) -> int {
    if m == 2 {
        if leap(y) {
            29
        } else {
            28
        }
    } else if m == 4 || m == 6 || m == 9 || m == 11 {
        30
    } else {
        31
    }
}

/// The days of a year before the given month.
pub open spec fn days_before_month(y: int, m: int) -> int
    decreases m,
{
    if m <= 1 {
        0
    } else {
        days_before_month(y, m - 1) + days_in_month(y, m - 1)
    }
}

/// The days from 1 January 1970 to 1 January of the given year.
pub open spec fn year_start(y: int) -> int
    decreases
            if y < 1970 {
                1970 - y
            } else {
                y - 1970
            },
{
    if y == 1970 {
        0
    } else if y > 1970 {
        year_start(y - 1) + days_in_year(y - 1)
    } else {
        year_start(y + 1) - days_in_year(y)
    }
}

/// Whether day `d` of month `m` of year `y` is a date, and lies the given number of days
/// after 1 January 1970.
pub open spec fn civil_date(days: int, y: int, m: int, d: int) -> bool {
    &&& 1 <= m <= 12
    &&& 1 <= d <= days_in_month(y, m)
    &&& days == year_start(y) + days_before_month(y, m) + d - 1
}

/// The year, month and day of the date that lies the given number of days after
/// 1 January 1970.
pub open spec fn civil_of(days: int) -> (int, int, int) {
    choose|t: (int, int, int)| civil_date(days, t.0, t.1, t.2)
}

/// One year adds a leap day by each of the three rules, or not.
proof fn lemma_leap_step(y: int)
    ensures
        y / 4 - (y - 1) / 4 == if y % 4 == 0 { 1int } else { 0 },
        y / 100 - (y - 1) / 100 == if y % 100 == 0 { 1int } else { 0 },
        y / 400 - (y - 1) / 400 == if y % 400 == 0 { 1int } else { 0 },
        y % 400 == 0 ==> y % 100 == 0,
        y % 100 == 0 ==> y % 4 == 0,
{
}

proof fn lemma_year_start(y: int)
    ensures
        year_start(y) == 365 * (y - 1970) + (y - 1) / 4 - (y - 1) / 100 + (y - 1) / 400 - 477,
    decreases
            if y < 1970 {
                1970 - y
            } else {
                y - 1970
            },
{
    if y > 1970 {
        lemma_year_start(y - 1);
        lemma_leap_step(y - 1);
    } else if y < 1970 {
        lemma_year_start(y + 1);
        lemma_leap_step(y);
    }
}

proof fn lemma_months(y: int)
    ensures
        days_before_month(y, 1) == 0,
        days_before_month(y, 2) == 31,
        days_before_month(y, 3) == 59 + days_in_year(y) - 365,
        days_before_month(y, 4) == 90 + days_in_year(y) - 365,
        days_before_month(y, 5) == 120 + days_in_year(y) - 365,
        days_before_month(y, 6) == 151 + days_in_year(y) - 365,
        days_before_month(y, 7) == 181 + days_in_year(y) - 365,
        days_before_month(y, 8) == 212 + days_in_year(y) - 365,
        days_before_month(y, 9) == 243 + days_in_year(y) - 365,
        days_before_month(y, 10) == 273 + days_in_year(y) - 365,
        days_before_month(y, 11) == 304 + days_in_year(y) - 365,
        days_before_month(y, 12) == 334 + days_in_year(y) - 365,
{
    reveal_with_fuel(days_before_month, 13);
}

/// The year of the four-century cycle to which a day of the cycle belongs, where years start
/// on 1 March.
spec fn cycle_year(doe: int) -> int {
    (doe - doe / 1_460 + doe / 36_524 - doe / 146_096) / 365
}

/// The day of the cycle on which a year of it starts.
spec fn cycle_year_start(yoe: int) -> int {
    365 * yoe + yoe / 4 - yoe / 100
}

proof fn lemma_cycle(doe: int)
    requires
        0 <= doe < 146_097,
    ensures
        0 <= cycle_year(doe) <= 399,
        cycle_year_start(cycle_year(doe)) <= doe,
        cycle_year(doe) < 399 ==> doe < cycle_year_start(cycle_year(doe) + 1),
{
}

/// The date of a day, by way of years that start on 1 March.
spec fn civil_by_cycle(days: int) -> (int, int, int) {
    let z = days + 719_468;
    let era = z / 146_097;
    let doe = z % 146_097;
    let yoe = cycle_year(doe);
    let doy = doe - cycle_year_start(yoe);
    let mp = (5 * doy + 2) / 153;
    let d = doy - (153 * mp + 2) / 5 + 1;
    let m = if mp < 10 {
        mp + 3
    } else {
        mp - 9
    };
    let y = yoe + era * 400;
    (
        if m <= 2 {
            y + 1
        } else {
            y
        },
        m,
        d,
    )
}

/// The days from 1 January 1970 to 1 March of the given year.
spec fn march_start(y: int) -> int {
    365 * y + y / 4 - y / 100 + y / 400 - 719_468
}

proof fn lemma_march_start(y: int)
    ensures
        march_start(y) == year_start(y) + days_before_month(y, 3),
        march_start(y) + 306 == year_start(y + 1),
        march_start(y + 1) == march_start(y) + days_in_year(y + 1),
{
    lemma_year_start(y);
    lemma_year_start(y + 1);
    lemma_months(y);
    lemma_leap_step(y);
    lemma_leap_step(y + 1);
}

proof fn lemma_march_of_cycle(yoe: int, era: int)
    requires
        0 <= yoe <= 399,
    ensures
        march_start(yoe + era * 400) == era * 146_097 + cycle_year_start(yoe) - 719_468,
{
    let y = yoe + era * 400;
    assert(y / 4 == yoe / 4 + era * 100);
    assert(y / 100 == yoe / 100 + era * 4);
    assert(y / 400 == era);
}

/// The month and day of a day of a year that starts on 1 March.
proof fn lemma_month_of_day(y: int, doy: int)
    requires
        0 <= doy <= 365,
        doy == 365 ==> leap(y + 1),
    ensures
        ({
            let mp = (5 * doy + 2) / 153;
            let d = doy - (153 * mp + 2) / 5 + 1;
            &&& 0 <= mp <= 11
            &&& mp < 10 ==> civil_date(march_start(y) + doy, y, mp + 3, d)
            &&& mp >= 10 ==> civil_date(march_start(y) + doy, y + 1, mp - 9, d)
        }),
{
    lemma_march_start(y);
    lemma_months(y);
    lemma_months(y + 1);
    let mp = (5 * doy + 2) / 153;
    assert(0 <= mp <= 11);
    if mp == 0 {
    } else if mp == 1 {
    } else if mp == 2 {
    } else if mp == 3 {
    } else if mp == 4 {
    } else if mp == 5 {
    } else if mp == 6 {
    } else if mp == 7 {
    } else if mp == 8 {
    } else if mp == 9 {
    } else if mp == 10 {
    } else {
        assert(mp == 11);
    }
}

proof fn lemma_civil_by_cycle(days: int)
    ensures
        civil_date(
            days,
            civil_by_cycle(days).0,
            civil_by_cycle(days).1,
            civil_by_cycle(days).2,
        ),
{
    let z = days + 719_468;
    let era = z / 146_097;
    let doe = z % 146_097;
    lemma_cycle(doe);
    let yoe = cycle_year(doe);
    let doy = doe - cycle_year_start(yoe);
    let y = yoe + era * 400;
    lemma_march_of_cycle(yoe, era);
    lemma_march_start(y);
    if yoe < 399 {
        lemma_march_of_cycle(yoe + 1, era);
    } else {
        lemma_march_of_cycle(0, era + 1);
    }
    assert(march_start(y) + doy == days);
    assert(days < march_start(y + 1));
    lemma_month_of_day(y, doy);
}

/// Every day has exactly one date.
pub proof fn law_one_date_per_day(days: int)
    ensures
        ({
            let (y, m, d) = civil_of(days);
            civil_date(days, y, m, d)
        }),
        forall|y: int, m: int, d: int| #[trigger]
            civil_date(days, y, m, d) ==> civil_of(days) == (y, m, d),
{
    lemma_civil_by_cycle(days);
    let t = civil_by_cycle(days);
    assert(civil_date(days, t.0, t.1, t.2));
    let c = civil_of(days);
    assert forall|y: int, m: int, d: int| #[trigger] civil_date(days, y, m, d) implies c == (
        y,
        m,
        d,
    ) by {
        lemma_date_unique(days, c.0, c.1, c.2, y, m, d);
    }
}

proof fn lemma_year_start_monotonic(a: int, b: int)
    requires
        a <= b,
    ensures
        year_start(a) + 365 * (b - a) <= year_start(b),
    decreases b - a,
{
    if a < b {
        lemma_year_start_monotonic(a, b - 1);
        lemma_next_year(b - 1);
    }
}

proof fn lemma_date_unique(days: int, y: int, m: int, d: int, y2: int, m2: int, d2: int)
    requires
        civil_date(days, y, m, d),
        civil_date(days, y2, m2, d2),
    ensures
        y == y2,
        m == m2,
        d == d2,
{
    lemma_within_year(y, m, d);
    lemma_within_year(y2, m2, d2);
    lemma_next_year(y);
    lemma_next_year(y2);
    if y < y2 {
        lemma_year_start_monotonic(y + 1, y2);
    } else if y2 < y {
        lemma_year_start_monotonic(y2 + 1, y);
    }
    lemma_months(y);
}

proof fn lemma_next_year(y: int)
    ensures
        year_start(y + 1) == year_start(y) + days_in_year(y),
{
    lemma_year_start(y);
    lemma_year_start(y + 1);
    lemma_leap_step(y);
}

proof fn lemma_within_year(y: int, m: int, d: int)
    requires
        1 <= m <= 12,
        1 <= d <= days_in_month(y, m),
    ensures
        0 <= days_before_month(y, m) + d - 1 < days_in_year(y),
{
    lemma_months(y);
}

/// The day after a date is the next day of its month, the first of the next month, or the
/// first of the next year.
pub proof fn law_next_day(days: int)
    ensures
        ({
            let (y, m, d) = civil_of(days);
            civil_of(days + 1) == if d < days_in_month(y, m) {
                (y, m, d + 1)
            } else if m < 12 {
                (y, m + 1, 1int)
            } else {
                (y + 1, 1int, 1int)
            }
        }),
{
    law_one_date_per_day(days);
    law_one_date_per_day(days + 1);
    let (y, m, d) = civil_of(days);
    lemma_months(y);
    lemma_months(y + 1);
    lemma_next_year(y);
    if d < days_in_month(y, m) {
        assert(civil_date(days + 1, y, m, d + 1));
    } else if m < 12 {
        assert(civil_date(days + 1, y, m + 1, 1));
    } else {
        assert(civil_date(days + 1, y + 1, 1, 1));
    }
}

/// The first day counted is 1 January 1970.
pub proof fn law_first_day()
    ensures
        civil_of(0) == (1970int, 1int, 1int),
{
    law_one_date_per_day(0);
    assert(civil_date(0, 1970, 1, 1));
}

/// The year, month and day of the date that lies the given number of days after
/// 1 January 1970.
pub fn civil_from_days(days_since_unix_epoch: i64) -> (date: (i32, u32, u32))
    requires
        days_since_unix_epoch <= i64::MAX - 719_468,
    ensures
        ({
            let (y, m, d) = civil_of(days_since_unix_epoch as int);
            &&& date.0 == y as i32
            &&& date.1 == m
            &&& date.2 == d
        }),
        1 <= date.1 <= 12,
        1 <= date.2 <= 31,
{
    let z: i64 = days_since_unix_epoch + 719_468;
    let era: i64 = if z >= 0 {
        z / 146_097
    } else {
        -((146_096 - z) / 146_097)
    };
    let doe: i64 = z - era * 146_097;
    proof {
        assert(era == (z as int) / 146_097);
        assert(doe == (z as int) % 146_097);
        lemma_cycle(doe as int);
    }
    let yoe: i64 = (doe - doe / 1_460 + doe / 36_524 - doe / 146_096) / 365;
    let y: i64 = yoe + era * 400;
    let doy: i64 = doe - (365 * yoe + yoe / 4 - yoe / 100);
    let mp: i64 = (5 * doy + 2) / 153;
    let d: i64 = doy - (153 * mp + 2) / 5 + 1;
    let m: i64 = if mp < 10 {
        mp + 3
    } else {
        mp - 9
    };
    let year: i64 = if m <= 2 {
        y + 1
    } else {
        y
    };
    proof {
        lemma_civil_by_cycle(days_since_unix_epoch as int);
        law_one_date_per_day(days_since_unix_epoch as int);
        assert(civil_by_cycle(days_since_unix_epoch as int) == (year as int, m as int, d as int));
    }
    (#[verifier::truncate] (year as i32), m as u32, d as u32)
}

// ---------------------------------------------------------------------------
// Dates as texts
// ---------------------------------------------------------------------------

/// A year with at least four characters, a minus sign counted.
pub open spec fn year_text(y: i32) -> Seq<char> {
    if y < 0 {
        seq!['-'] + text::zero_padded(text::decimal((-y) as nat), 3)
    } else {
        text::zero_padded(text::decimal(y as nat), 4)
    }
}

/// A date as year, month and day with dashes between them.
pub open spec fn date_text(y: i32, m: nat, d: nat) -> Seq<char> {
    year_text(y) + seq!['-'] + text::zero_padded(text::decimal(m), 2) + seq!['-']
        + text::zero_padded(text::decimal(d), 2)
}

/// The text of the date, in UTC, to which a point in time belongs.
pub open spec fn utc_date(time: Timestamp) -> Seq<char> {
    let (y, m, d) = civil_of(time.day());
    date_text(y as i32, m as nat, d as nat)
}

/// The text of the date, in UTC, to which a point in time belongs.
pub fn utc_date_string(time: &Timestamp) -> (r: String)
    ensures
        r@ == utc_date(*time),
{
    let days: u128 = time.secs_since_epoch() / SECONDS_PER_DAY;
    let (year, month, day) = civil_from_days(days as i64);
    let mut r: String = String::new();
    if year < 0 {
        r.push('-');
        r.append(text::padded_decimal_string((-(year as i64)) as u128, 3).as_str());
    } else {
        r.append(text::padded_decimal_string(year as u128, 4).as_str());
    }
    proof {
        assert(r@ =~= year_text(year));
    }
    r.push('-');
    r.append(text::padded_decimal_string(month as u128, 2).as_str());
    r.push('-');
    r.append(text::padded_decimal_string(day as u128, 2).as_str());
    proof {
        assert(r@ =~= date_text(year, month as nat, day as nat));
    }
    r
}

// ---------------------------------------------------------------------------
// Laws
// ---------------------------------------------------------------------------

/// Times are ordered by their seconds, and within a second by their nanoseconds; a second has a
/// thousand million of them.
pub proof fn law_seconds_come_before_nanoseconds(a: Timestamp, b: Timestamp)
    requires
        a.nanos < 1_000_000_000,
        b.nanos < 1_000_000_000,
    ensures
        a.instant() < b.instant() <==> a.secs < b.secs || a.secs == b.secs && a.nanos < b.nanos,
        a.instant() == b.instant() <==> a == b,
        a.nanos == b.nanos ==> b.instant() - a.instant() == 1_000_000_000 * (b.secs - a.secs),
        a.secs == b.secs ==> b.instant() - a.instant() == b.nanos - a.nanos,
        (Timestamp { secs: 0, nanos: 0 }).instant() == 0,
{
}

/// What is told of a time is how long after the start of 1970 it is, in the whole units asked for,
/// and nothing where it is before that.
pub proof fn law_times_since_1970(time: &Timestamp, nanos: u128, millis: u128, secs: u128)
    requires
        call_ensures(Timestamp::nanos_since_epoch, (time,), nanos),
        call_ensures(Timestamp::millis_since_epoch, (time,), millis),
        call_ensures(Timestamp::secs_since_epoch, (time,), secs),
    ensures
        time.instant() < 0 ==> nanos == 0,
        time.instant() >= 0 ==> nanos == time.instant(),
        millis * 1_000_000 <= nanos < (millis + 1) * 1_000_000,
        secs * 1_000_000_000 <= nanos < (secs + 1) * 1_000_000_000,
{
}

/// A time comes before another exactly where its instant does, and the time between them is the
/// difference.
pub proof fn law_time_between(a: &Timestamp, b: &Timestamp, before: bool, between: u128)
    requires
        call_ensures(Timestamp::is_before, (a, b), before),
        call_ensures(Timestamp::nanos_since, (b, a), between),
    ensures
        before <==> a.instant() < b.instant(),
        a.instant() <= b.instant() ==> a.instant() + between == b.instant(),
        b.instant() < a.instant() ==> between == 0,
{
}

/// A time belongs to the day that began no more than a day before it.
pub proof fn law_time_belongs_to_its_day(time: Timestamp)
    ensures
        time.instant() >= 0 ==> time.day() * 86_400_000_000_000 <= time.instant() < (time.day() + 1)
            * 86_400_000_000_000,
        time.instant() < 0 ==> time.day() == 0,
{
}

/// The calendar repeats itself after four centuries.
pub proof fn law_calendar_repeats_itself(days: int)
    ensures
        ({
            let (y, m, d) = civil_of(days);
            civil_of(days + 146_097) == (y + 400, m, d)
        }),
{
    law_one_date_per_day(days);
    law_one_date_per_day(days + 146_097);
    let (y, m, d) = civil_of(days);
    lemma_year_start(y);
    lemma_year_start(y + 400);
    lemma_months(y);
    lemma_months(y + 400);
    assert((y + 399) / 4 == (y - 1) / 4 + 100);
    assert((y + 399) / 100 == (y - 1) / 100 + 4);
    assert((y + 399) / 400 == (y - 1) / 400 + 1);
    assert(leap(y + 400) == leap(y));
    assert(civil_date(days + 146_097, y + 400, m, d));
}

/// A year is a leap year where four divides it, but of those that a hundred divides only where four
/// hundred does.
pub proof fn law_leap_years(y: int)
    ensures
        y % 400 == 0 ==> leap(y),
        y % 100 == 0 && y % 400 != 0 ==> !leap(y),
        y % 4 == 0 && y % 100 != 0 ==> leap(y),
        y % 4 != 0 ==> !leap(y),
{
}

/// The text of a date tells its year, its month and its day, in this order, with dashes between
/// them: four digits, or more where the year has more, then two and two.
pub proof fn law_dates_are_read_back(time: &Timestamp, r: String)
    requires
        call_ensures(utc_date_string, (time,), r),
        civil_of(time.day()).0 <= i32::MAX,
    ensures
        tells_date(r@, civil_of(time.day())),
{
    lemma_tells_date(*time);
}

/// Whether a text tells a date from 1970 on.
pub open spec fn tells_date(s: Seq<char>, date: (int, int, int)) -> bool {
    let (y, m, d) = date;
    let n = s.len() - 6;
    &&& y >= 1970
    &&& s.len() >= 10
    &&& y <= 9999 <==> s.len() == 10
    &&& text::number_of(s.take(n)) == y
    &&& s[n] == '-'
    &&& text::number_of(s.subrange(n + 1, n + 3)) == m
    &&& s[n + 3] == '-'
    &&& text::number_of(s.skip(n + 4)) == d
}

proof fn lemma_tells_date(time: Timestamp)
    requires
        civil_of(time.day()).0 <= i32::MAX,
    ensures
        tells_date(utc_date(time), civil_of(time.day())),
{
    let s = utc_date(time);
    let (y, m, d) = civil_of(time.day());
    law_one_date_per_day(time.day());
    lemma_months(y);
    lemma_within_year(y, m, d);
    lemma_next_year(y);
    if y < 1970 {
        lemma_year_start_monotonic(y + 1, 1970);
    }
    let year = text::zero_padded(text::decimal(y as nat), 4);
    let month = text::zero_padded(text::decimal(m as nat), 2);
    let day = text::zero_padded(text::decimal(d as nat), 2);
    text::law_zeros_in_front(text::decimal(y as nat), 4);
    text::law_zeros_in_front(text::decimal(m as nat), 2);
    text::law_zeros_in_front(text::decimal(d as nat), 2);
    text::law_decimal_is_read_back(y as nat);
    text::law_decimal_is_read_back(m as nat);
    text::law_decimal_is_read_back(d as nat);
    lemma_decimal_len(y as nat);
    lemma_decimal_len(m as nat);
    lemma_decimal_len(d as nat);
    let n = year.len() as int;
    assert(s =~= year + seq!['-'] + month + seq!['-'] + day);
    assert(s.take(n) =~= year);
    assert(s.subrange(n + 1, n + 3) =~= month);
    assert(s.skip(n + 4) =~= day);
}

/// Two times have the same date exactly where they belong to the same day.
pub proof fn law_one_text_per_day(a: Timestamp, b: Timestamp)
    requires
        civil_of(a.day()).0 <= i32::MAX,
        civil_of(b.day()).0 <= i32::MAX,
    ensures
        utc_date(a) == utc_date(b) <==> a.day() == b.day(),
{
    lemma_tells_date(a);
    lemma_tells_date(b);
    law_one_date_per_day(a.day());
    law_one_date_per_day(b.day());
}

proof fn lemma_decimal_len(n: nat)
    ensures
        n < 100 ==> text::decimal(n).len() <= 2,
        n < 10_000 <==> text::decimal(n).len() <= 4,
{
    reveal_with_fuel(text::decimal, 5);
    text::lemma_decimal_is_digits(n / 10_000);
}

/// The date that is told of a day is the one that lies so many days after 1 January 1970, but that a
/// year beyond what 32 bits hold is cut down to them.
pub proof fn law_date_of_a_day(days: i64, date: (i32, u32, u32))
    requires
        call_ensures(civil_from_days, (days,), date),
        civil_of(days as int).0 <= i32::MAX,
        civil_of(days as int).0 >= i32::MIN,
    ensures
        civil_date(days as int, date.0 as int, date.1 as int, date.2 as int),
{
    law_one_date_per_day(days as int);
}

} // verus!
