//! Days, local times and instants as plain numbers, with the calendar and the
//! time zones that chrono and chrono-tz know.

use chrono::{DateTime, Datelike, Duration, LocalResult, NaiveDate, TimeZone, Timelike};
use chrono_tz::Tz;
use vstd::arithmetic::div_mod::{lemma_fundamental_div_mod, lemma_fundamental_div_mod_converse};
use vstd::prelude::*;

use crate::numbers::{decimal, push_zero_padded, zero_padded};

verus! {

/// The number of the first day of chrono's calendar.
pub const MIN_DAY: i32 = -95746129;

/// The number of the last day of chrono's calendar.
pub const MAX_DAY: i32 = 95745399;

/// The first year of chrono's calendar.
pub const MIN_YEAR: i32 = -262143;

/// The last year of chrono's calendar.
pub const MAX_YEAR: i32 = 262142;

/// Seconds in a day.
pub const DAY_SECS: i64 = 86400;

/// The day number of 1 January 1970.
pub const EPOCH_DAY: i64 = 719163;

/// The Unix time at which clocks in UTC show the second `second` of the day with
/// the number `day`.
pub open spec fn utc_instant(day: int, second: int) -> int {
    (day - EPOCH_DAY) * DAY_SECS + second
}

/// Whether all instants are less than a day from `instant`.
pub open spec fn within_a_day(instants: LocalInstants, instant: int) -> bool {
    match instants {
        LocalInstants::Never => true,
        LocalInstants::Once(t) => -DAY_SECS < t - instant < DAY_SECS,
        LocalInstants::Twice(a, b) => -DAY_SECS < a - instant < DAY_SECS && -DAY_SECS < b - instant
            < DAY_SECS,
    }
}

// ── The calendar ─────────────────────────────────────────────────────────────

/// Whether a year of the Gregorian calendar has 366 days.
pub open spec fn is_leap(year: int) -> bool {
    year % 4 == 0 && (year % 100 != 0 || year % 400 == 0)
}

/// How many days a month has.
pub open spec fn month_length(year: int, month: int) -> int {
    if month == 2 {
        if is_leap(year) {
            29
        } else {
            28
        }
    } else if month == 4 || month == 6 || month == 9 || month == 11 {
        30
    } else {
        31
    }
}

/// How many days of a year lie before a month.
pub open spec fn days_before_month(year: int, month: int) -> int
    decreases month,
{
    if month <= 1 {
        0
    } else {
        days_before_month(year, month - 1) + month_length(year, month - 1)
    }
}

/// How many days lie between 1 January 1 and the beginning of a year.
pub open spec fn days_before_year(year: int) -> int {
    365 * (year - 1) + (year - 1) / 4 - (year - 1) / 100 + (year - 1) / 400
}

/// The number of a day of the Gregorian calendar, which is taken to reach back
/// and ahead as far as chrono's years do. 1 January 1 is day 1.
pub open spec fn civil_day(year: i32, month: u32, day: u32) -> Option<i32> {
    let (y, m) = (year as int, month as int);
    if MIN_YEAR <= y <= MAX_YEAR && 1 <= m <= 12 && 1 <= day <= month_length(y, m) {
        Some((days_before_year(y) + days_before_month(y, m) + day) as i32)
    } else {
        None
    }
}

// ── Trusted items of chrono and chrono-tz ────────────────────────────────────

/// Year, month and day of the month of the day with the number `day`, as
/// `NaiveDate::from_num_days_from_ce_opt` finds them.
pub uninterp spec fn civil_date(day: int) -> (i32, u32, u32);

/// The instants at which clocks in `zone` show the second `second` of the day
/// with the number `day`, as `TimeZone::from_local_datetime` finds them.
pub uninterp spec fn zone_instants(zone: Seq<char>, day: int, second: int) -> LocalInstants;

/// The day number and the second of the day that clocks in `zone` show at
/// `instant`, as `DateTime::with_timezone` finds them.
pub uninterp spec fn zone_clock(zone: Seq<char>, instant: int) -> (int, int);

/// Whether `Tz::from_str` knows the zone.
pub uninterp spec fn zone_known(zone: Seq<char>) -> bool;

/// `NaiveDate::from_num_days_from_ce_opt`, which has a date for every day of
/// chrono's calendar: 1 January 1 is day 1. Its month is one of twelve and its
/// day one of at most thirty-one, and no other day has that date.
#[verifier::external_body]
fn chrono_date(day: i32) -> (r: (i32, u32, u32))
    requires
        MIN_DAY <= day <= MAX_DAY,
    ensures
        r == civil_date(day as int),
        MIN_YEAR <= r.0 <= MAX_YEAR,
        1 <= r.1 <= 12,
        1 <= r.2 <= 31,
        civil_day(r.0, r.1, r.2) == Some(day),
{
    let date = NaiveDate::from_num_days_from_ce_opt(day).unwrap();
    (date.year(), date.month(), date.day())
}

/// `NaiveDate::from_ymd_opt`, which has a date for every year, month and day
/// of the month of chrono's calendar, and none for anything else.
#[verifier::external_body]
fn chrono_day(year: i32, month: u32, day: u32) -> (r: Option<i32>)
    ensures
        r == civil_day(year, month, day),
        r is Some ==> MIN_DAY <= r->0 <= MAX_DAY,
        r is Some ==> civil_date(r->0 as int) == (year, month, day),
{
    NaiveDate::from_ymd_opt(year, month, day).map(|d| d.num_days_from_ce())
}

/// `TimeZone::from_local_datetime` of the zone that `zone` names. No zone is as
/// much as a day from UTC. Clocks in UTC show every second once, and the day
/// 1 January 1970 first at the epoch.
#[verifier::external_body]
fn chrono_instants(zone: &str, day: i32, second: u32) -> (r: LocalInstants)
    requires
        zone_known(zone@),
        MIN_DAY <= day <= MAX_DAY,
        second < 86400,
    ensures
        r == zone_instants(zone@, day as int, second as int),
        within_a_day(r, utc_instant(day as int, second as int)),
        zone@ == "UTC"@ ==> r == LocalInstants::Once(utc_instant(day as int, second as int) as i64),
{
    let tz = zone.parse::<Tz>().unwrap();
    let midnight = NaiveDate::from_num_days_from_ce_opt(day).unwrap().and_hms_opt(0, 0, 0).unwrap();
    match tz.from_local_datetime(&(midnight + Duration::seconds(second as i64))) {
        LocalResult::None => LocalInstants::Never,
        LocalResult::Single(a) => LocalInstants::Once(a.timestamp()),
        LocalResult::Ambiguous(a, b) => LocalInstants::Twice(a.timestamp(), b.timestamp()),
    }
}

/// `DateTime::with_timezone` for the zone that `zone` names. What clocks show
/// is a day of chrono's calendar and a second of that day: the instants are
/// kept two days from the ends of the calendar, and no zone is further than a
/// day from UTC. Clocks in UTC show the seconds since the epoch.
#[verifier::external_body]
fn chrono_clock(zone: &str, instant: i64) -> (r: (i32, u32))
    requires
        zone_known(zone@),
        (MIN_DAY + 2 - EPOCH_DAY) * DAY_SECS <= instant <= (MAX_DAY - 2 - EPOCH_DAY) * DAY_SECS,
    ensures
        zone_clock(zone@, instant as int) == (r.0 as int, r.1 as int),
        MIN_DAY < r.0 < MAX_DAY,
        r.1 < 86400,
        zone@ == "UTC"@ ==> utc_instant(r.0 as int, r.1 as int) == instant,
{
    let tz = zone.parse::<Tz>().unwrap();
    let local = DateTime::from_timestamp(instant, 0).unwrap().with_timezone(&tz).naive_local();
    (local.date().num_days_from_ce(), local.time().num_seconds_from_midnight())
}

/// `Utc::now`, as seconds since the Unix epoch and nanoseconds into the second.
/// The time is one of chrono's calendar, and none within a leap second. Which
/// one it is, the clock of the machine says; one that stands before the epoch
/// makes the call panic.
#[verifier::external_body]
fn chrono_now() -> (r: (i64, u32))
    ensures
        utc_instant(MIN_DAY as int, 0) <= r.0 < utc_instant(MAX_DAY + 1, 0),
        r.1 < 1000000000,
{
    let now = chrono::Utc::now();
    (now.timestamp(), now.timestamp_subsec_nanos())
}

/// `Tz::from_str`, which knows the names of the IANA zones, UTC among them.
#[verifier::external_body]
fn chrono_zone_known(zone: &str) -> (r: bool)
    ensures
        r == zone_known(zone@),
        zone@ == "UTC"@ ==> r,
{
    zone.parse::<Tz>().is_ok()
}

// ── Zones ────────────────────────────────────────────────────────────────────

/// The zone that a name stands for: an unknown one counts as UTC.
pub open spec fn zone_or_utc(zone: Seq<char>) -> Seq<char> {
    if zone_known(zone) {
        zone
    } else {
        "UTC"@
    }
}

/// The zone that a name stands for, see `zone_or_utc`.
pub fn known_zone(zone: &str) -> (r: &str)
    ensures
        r@ == zone_or_utc(zone@),
        zone_known(r@),
{
    if chrono_zone_known(zone) {
        return zone;
    }
    // Looking UTC up is what shows that it is known.
    let utc = "UTC";
    let _utc_is_known: bool = chrono_zone_known(utc);
    utc
}

/// Whether `zone` names a time zone.
pub fn is_zone(zone: &str) -> (r: bool)
    ensures
        r == zone_known(zone@),
{
    chrono_zone_known(zone)
}

// ── Dates ────────────────────────────────────────────────────────────────────

/// When clocks of a zone show a given local time.
pub enum LocalInstants {
    /// Never: the clocks skip it.
    Never,
    /// Once, at this Unix time.
    Once(i64),
    /// Twice, at these Unix times.
    Twice(i64, i64),
}

/// A day of chrono's calendar, by its number: 1 January 1 is day 1.
#[derive(Clone, Copy, Debug, PartialEq, Eq, Structural)]
pub struct Date {
    number: i32,
}

impl View for Date {
    type V = int;

    closed spec fn view(&self) -> int {
        self.number as int
    }
}

impl Date {
    #[verifier::type_invariant]
    spec fn in_calendar(self) -> bool {
        MIN_DAY <= self.number <= MAX_DAY
    }

    /// The date with the number `number`, if the calendar has it.
    pub fn from_number(number: i32) -> (r: Option<Date>)
        ensures
            r is Some <==> MIN_DAY <= number <= MAX_DAY,
            r is Some ==> r->0@ == number,
    {
        if MIN_DAY <= number && number <= MAX_DAY {
            Some(Date { number })
        } else {
            None
        }
    }

    /// The number of the date.
    pub fn number(&self) -> (r: i32)
        ensures
            r == self@,
            MIN_DAY <= r <= MAX_DAY,
    {
        proof {
            use_type_invariant(self);
        }
        self.number
    }

    /// The date of `year`, `month` and `day`, if the calendar has it.
    pub fn from_ymd_opt(year: i32, month: u32, day: u32) -> (r: Option<Date>)
        ensures
            r is Some <==> civil_day(year, month, day) is Some,
            r is Some ==> r->0@ == civil_day(year, month, day)->0,
            r is Some ==> civil_date(r->0@) == (year, month, day),
            r is Some ==> MIN_YEAR <= year <= MAX_YEAR && 1 <= month <= 12,
            MIN_YEAR <= year <= MAX_YEAR && 1 <= month <= 12 && 1 <= day <= 28 ==> r is Some,
    {
        match chrono_day(year, month, day) {
            Some(number) => Some(Date { number }),
            None => None,
        }
    }

    /// Year, month and day of the month, of which `from_ymd_opt` makes the same
    /// date.
    pub fn ymd(&self) -> (r: (i32, u32, u32))
        ensures
            r == civil_date(self@),
            civil_day(r.0, r.1, r.2) is Some,
            civil_day(r.0, r.1, r.2)->0 == self@,
            MIN_YEAR <= r.0 <= MAX_YEAR,
            1 <= r.1 <= 12,
            1 <= r.2 <= 31,
    {
        proof {
            use_type_invariant(self);
        }
        chrono_date(self.number)
    }

    /// The day before, if the calendar has it.
    pub fn day_before(&self) -> (r: Option<Date>)
        ensures
            r is Some <==> self@ > MIN_DAY,
            r is Some ==> r->0@ == self@ - 1,
    {
        proof {
            use_type_invariant(self);
        }
        Date::from_number(self.number - 1)
    }

    /// The day after, if the calendar has it.
    pub fn day_after(&self) -> (r: Option<Date>)
        ensures
            r is Some <==> self@ < MAX_DAY,
            r is Some ==> r->0@ == self@ + 1,
    {
        proof {
            use_type_invariant(self);
        }
        Date::from_number(self.number + 1)
    }

    /// Whether two dates are the same.
    pub fn same_day(&self, other: &Date) -> (r: bool)
        ensures
            r == (self@ == other@),
            r == (*self == *other),
    {
        self.number == other.number
    }

    /// The date as text, see `date_text`.
    pub fn text(&self) -> (r: String)
        ensures
            r@ == date_text(self@),
    {
        let (year, month, day) = self.ymd();
        let mut out = String::new();
        if 0 <= year && year <= 9999 {
            push_zero_padded(&mut out, year as u64, 4);
        } else if year < 0 {
            out.push('-');
            push_zero_padded(&mut out, (-(year as i64)) as u64, 4);
        } else {
            out.push('+');
            push_zero_padded(&mut out, year as u64, 4);
        }
        out.push('-');
        push_zero_padded(&mut out, month as u64, 2);
        out.push('-');
        push_zero_padded(&mut out, day as u64, 2);
        out
    }
}

/// A year with at least four digits, and with a sign where it is not one of
/// the years 0 to 9999.
pub open spec fn year_text(year: int) -> Seq<char> {
    if year < 0 {
        seq!['-'] + zero_padded((-year) as nat, 4)
    } else if year <= 9999 {
        zero_padded(year as nat, 4)
    } else {
        seq!['+'] + zero_padded(year as nat, 4)
    }
}

/// Year, month and day of the month of the day with the number `day`, with
/// dashes between them.
pub open spec fn date_text(day: int) -> Seq<char> {
    let (year, month, mday) = civil_date(day);
    (year_text(year as int).push('-') + zero_padded(month as nat, 2)).push('-') + zero_padded(
        mday as nat,
        2,
    )
}

// ── Local times ──────────────────────────────────────────────────────────────

/// A time that the clocks of a zone show.
#[derive(Clone, Copy, Debug, PartialEq, Eq, Structural)]
pub struct LocalTime {
    date: Date,
    second: u32,
    nano: u32,
}

impl LocalTime {
    #[verifier::type_invariant]
    spec fn in_day(self) -> bool {
        self.second < 86400 && self.nano < 1000000000
    }

    /// The date.
    pub closed spec fn day(self) -> Date {
        self.date
    }

    /// The second of the day.
    pub closed spec fn secs(self) -> int {
        self.second as int
    }

    /// The nanosecond of the second.
    pub closed spec fn nanos(self) -> int {
        self.nano as int
    }

    /// The time `second` seconds and `nano` nanoseconds after midnight, if
    /// the day has it.
    pub fn new(date: Date, second: u32, nano: u32) -> (r: Option<LocalTime>)
        ensures
            r is Some <==> second < 86400 && nano < 1000000000,
            r is Some ==> r->0.day() == date && r->0.secs() == second && r->0.nanos() == nano,
    {
        if second < 86400 && nano < 1000000000 {
            Some(LocalTime { date, second, nano })
        } else {
            None
        }
    }

    /// The date.
    pub fn date(&self) -> (r: Date)
        ensures
            r == self.day(),
    {
        self.date
    }

    /// The second of the day.
    pub fn second(&self) -> (r: u32)
        ensures
            r == self.secs(),
            r < 86400,
    {
        proof {
            use_type_invariant(self);
        }
        self.second
    }

    /// The nanosecond of the second.
    pub fn nano(&self) -> (r: u32)
        ensures
            r == self.nanos(),
            r < 1000000000,
    {
        proof {
            use_type_invariant(self);
        }
        self.nano
    }

    /// What clocks in the zone that `zone` stands for show at the Unix time
    /// `instant`, `nano` nanoseconds past it.
    pub fn in_zone(zone: &str, instant: i64, nano: u32) -> (r: Option<LocalTime>)
        ensures
            r is Some <==> ((MIN_DAY + 2 - EPOCH_DAY) * DAY_SECS <= instant <= (MAX_DAY - 2
                - EPOCH_DAY) * DAY_SECS && nano < 1000000000),
            r is Some ==> zone_clock(zone_or_utc(zone@), instant as int) == (
                r->0.day()@,
                r->0.secs(),
            ) && r->0.nanos() == nano,
            r is Some && zone_or_utc(zone@) == "UTC"@ ==> utc_instant(r->0.day()@, r->0.secs())
                == instant,
    {
        let low: i64 = (MIN_DAY as i64 + 2 - EPOCH_DAY) * DAY_SECS;
        let high: i64 = (MAX_DAY as i64 - 2 - EPOCH_DAY) * DAY_SECS;
        if low <= instant && instant <= high && nano < 1000000000 {
            let (number, second) = chrono_clock(known_zone(zone), instant);
            Some(LocalTime { date: Date { number }, second, nano })
        } else {
            None
        }
    }
}

/// An instant, in nanoseconds since the Unix epoch.
#[derive(Clone, Copy, Debug, PartialEq, Eq, Structural)]
pub struct Timestamp {
    pub nanos: i128,
}

impl Timestamp {
    /// Whether the instant is on a day of chrono's calendar, as clocks in UTC
    /// show it.
    pub open spec fn in_calendar(self) -> bool {
        utc_instant(MIN_DAY as int, 0) * 1000000000 <= self.nanos < utc_instant(MAX_DAY + 1, 0)
            * 1000000000
    }

    /// The instant `nano` nanoseconds after the second `second` since the Unix
    /// epoch.
    pub fn from_parts(second: i64, nano: u32) -> (r: Timestamp)
        ensures
            r.nanos == second * 1000000000 + nano,
    {
        Timestamp { nanos: second as i128 * 1000000000 + nano as i128 }
    }
}

/// The current time, which chrono's calendar has: it can be stored and shown as
/// a date and a time of day.
pub fn utc_now() -> (r: Timestamp)
    ensures
        r.in_calendar(),
{
    let (second, nano) = chrono_now();
    Timestamp::from_parts(second, nano)
}

/// When clocks in the zone that `zone` stands for show the second `second` of
/// `date`.
pub fn local_instants(zone: &str, date: Date, second: u32) -> (r: LocalInstants)
    requires
        second < 86400,
    ensures
        r == zone_instants(zone_or_utc(zone@), date@, second as int),
        within_a_day(r, utc_instant(date@, second as int)),
        zone_or_utc(zone@) == "UTC"@ ==> r == LocalInstants::Once(
            utc_instant(date@, second as int) as i64,
        ),
{
    let day: i32 = date.number();
    chrono_instants(known_zone(zone), day, second)
}

// ── Laws ─────────────────────────────────────────────────────────────────────

/// Days are counted one by one: the next day of a month, the first day of the
/// next month, and the first day of the next year have the next number.
pub proof fn law_days_follow_each_other(year: i32, month: u32, day: u32)
    requires
        civil_day(year, month, day) is Some,
    ensures
        day < month_length(year as int, month as int) ==> civil_day(
            year,
            month,
            (day + 1) as u32,
        ) is Some && civil_day(year, month, (day + 1) as u32)->0 as int == civil_day(
            year,
            month,
            day,
        )->0 + 1,
        day == month_length(year as int, month as int) && month < 12 ==> civil_day(
            year,
            (month + 1) as u32,
            1,
        ) is Some && civil_day(year, (month + 1) as u32, 1)->0 as int == civil_day(
            year,
            month,
            day,
        )->0 + 1,
        day == 31 && month == 12 && year < MAX_YEAR ==> civil_day((year + 1) as i32, 1, 1) is Some
            && civil_day((year + 1) as i32, 1, 1)->0 as int == civil_day(year, month, day)->0 + 1,
{
    let (y, m) = (year as int, month as int);
    lemma_before_month(y, m);
    lemma_before_month(y, m + 1);
    assert(days_before_month(y, m + 1) == days_before_month(y, m) + month_length(y, m));
    lemma_year_length(y);
}

proof fn lemma_before_month(year: int, month: int)
    requires
        1 <= month <= 13,
    ensures
        0 <= days_before_month(year, month) <= 31 * (month - 1),
    decreases month,
{
    if month > 1 {
        lemma_before_month(year, month - 1);
    }
}

/// A quotient grows by one where the divisor divides.
proof fn lemma_next_quotient(y: int, d: int)
    requires
        d > 1,
    ensures
        y / d == (y - 1) / d + (if y % d == 0 {
            1int
        } else {
            0
        }),
{
    let (q, r) = (y / d, y % d);
    lemma_fundamental_div_mod(y, d);
    assert(y == q * d + r) by (nonlinear_arith)
        requires
            y == d * q + r,
    ;
    if r == 0 {
        assert(y - 1 == (q - 1) * d + (d - 1)) by (nonlinear_arith)
            requires
                y == q * d + r,
                r == 0,
        ;
        lemma_fundamental_div_mod_converse(y - 1, d, q - 1, d - 1);
    } else {
        lemma_fundamental_div_mod_converse(y - 1, d, q, r - 1);
    }
}

/// What 400 divides, 100 divides, and what 100 divides, 4 divides.
proof fn lemma_leap_divisors(y: int)
    ensures
        y % 400 == 0 ==> y % 100 == 0,
        y % 100 == 0 ==> y % 4 == 0,
{
    lemma_fundamental_div_mod(y, 400);
    lemma_fundamental_div_mod(y, 100);
    if y % 400 == 0 {
        lemma_fundamental_div_mod_converse(y, 100, 4 * (y / 400), 0);
    }
    if y % 100 == 0 {
        lemma_fundamental_div_mod_converse(y, 4, 25 * (y / 100), 0);
    }
}

proof fn lemma_months_of_year(year: int)
    ensures
        days_before_month(year, 12) + 31 == 365 + (if is_leap(year) {
            1int
        } else {
            0
        }),
{
    reveal_with_fuel(days_before_month, 12);
}

/// A year is as long as its months.
pub proof fn lemma_year_length(year: int)
    ensures
        days_before_year(year + 1) == days_before_year(year) + 365 + (if is_leap(year) {
            1int
        } else {
            0
        }),
        days_before_month(year, 12) + 31 == 365 + (if is_leap(year) {
            1int
        } else {
            0
        }),
{
    lemma_next_quotient(year, 4);
    lemma_next_quotient(year, 100);
    lemma_next_quotient(year, 400);
    lemma_leap_divisors(year);
    lemma_months_of_year(year);
}

/// Dates are written with four digits of the year and two each of the month and
/// the day, with dashes between.
pub proof fn law_dates_have_ten_characters(day: int)
    requires
        0 <= civil_date(day).0 <= 9999,
        civil_date(day).1 <= 12,
        civil_date(day).2 <= 31,
    ensures
        date_text(day).len() == 10,
        date_text(day)[4] == '-',
        date_text(day)[7] == '-',
        date_text(day).take(4) == zero_padded(civil_date(day).0 as nat, 4),
        date_text(day).subrange(5, 7) == zero_padded(civil_date(day).1 as nat, 2),
        date_text(day).skip(8) == zero_padded(civil_date(day).2 as nat, 2),
{
    let (year, month, mday) = civil_date(day);
    lemma_padded_len(year as nat, 4);
    lemma_padded_len(month as nat, 2);
    lemma_padded_len(mday as nat, 2);
    let y: Seq<char> = zero_padded(year as nat, 4);
    let m: Seq<char> = zero_padded(month as nat, 2);
    let d: Seq<char> = zero_padded(mday as nat, 2);
    assert(date_text(day) =~= y + seq!['-'] + m + seq!['-'] + d);
    assert(date_text(day).take(4) =~= y);
    assert(date_text(day).subrange(5, 7) =~= m);
    assert(date_text(day).skip(8) =~= d);
}

proof fn lemma_padded_len(n: nat, width: nat)
    requires
        n <= 9999,
        width == 4 || width == 2 && n <= 99,
    ensures
        zero_padded(n, width).len() == width,
{
    reveal_with_fuel(decimal, 5);
    assert(decimal(n).len() <= 4);
    assert(n <= 99 ==> decimal(n).len() <= 2);
}

/// Years outside of the four digits have a sign before them.
pub proof fn law_other_years_have_a_sign(year: int)
    requires
        0 < year,
    ensures
        year_text(-year) == seq!['-'] + zero_padded(year as nat, 4),
        year <= 9999 ==> year_text(-year) == seq!['-'] + year_text(year) && year_text(year).len()
            == 4,
        year > 9999 ==> year_text(year) == seq!['+'] + zero_padded(year as nat, 4),
{
    if year <= 9999 {
        lemma_padded_len(year as nat, 4);
    }
}

} // verus!
