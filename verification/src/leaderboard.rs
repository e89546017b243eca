//! The leaderboard of a month.

use vstd::prelude::*;

use crate::calendar::{
    civil_date, civil_day, date_text, days_before_month, days_before_year, known_zone,
    lemma_year_length, local_instants, month_length, utc_instant, zone_instants, zone_or_utc, Date,
    LocalInstants, DAY_SECS, MAX_YEAR, MIN_YEAR,
};
use crate::db::MonthlyLeaderboardEntry;
use crate::format::{
    cleaned_name, mentionify_with_names, rendered, sanitize_display_name, Message,
};
use crate::names::{name_texts, NameMap};
use crate::numbers::{
    decimal, push_int, push_signed_zero_padded, push_zero_padded, signed, signed_zero_padded, zero_padded,
};
use crate::quiz::scores::{medal, medal_of};
use crate::text::{join, join_texts, texts};

verus! {

/// A month of a year.
#[derive(Clone, Copy, Debug, PartialEq, Eq, Structural)]
pub struct YearMonth {
    pub year: i32,
    pub month: u32,
}

/// The month before.
pub open spec fn month_before(year: int, month: int) -> (int, int) {
    if month == 1 {
        (year - 1, 12)
    } else {
        (year, month - 1)
    }
}

/// The month after.
pub open spec fn month_after(year: int, month: int) -> (int, int) {
    if month == 12 {
        (year + 1, 1)
    } else {
        (year, month + 1)
    }
}

/// A year and a month as text.
pub open spec fn period_text(year: int, month: nat) -> Seq<char> {
    signed_zero_padded(year, 4) + "-"@ + zero_padded(month, 2)
}

/// The name of a month.
pub open spec fn name_of_month(month: int) -> Seq<char> {
    if month == 1 {
        "January"@
    } else if month == 2 {
        "February"@
    } else if month == 3 {
        "March"@
    } else if month == 4 {
        "April"@
    } else if month == 5 {
        "May"@
    } else if month == 6 {
        "June"@
    } else if month == 7 {
        "July"@
    } else if month == 8 {
        "August"@
    } else if month == 9 {
        "September"@
    } else if month == 10 {
        "October"@
    } else if month == 11 {
        "November"@
    } else {
        "December"@
    }
}

/// The minute up to which the start of a day is looked for.
pub const LAST_START_MINUTE: u32 = 180;

/// The first instant of a day at which clocks in `zone` show a full minute
/// from `minute` on, given what they show at each: the earlier one where they
/// show it twice.
pub open spec fn first_instant(zone: Seq<char>, day: int, minute: nat) -> Option<i64>
    decreases LAST_START_MINUTE + 1 - minute,
{
    if minute > LAST_START_MINUTE {
        None
    } else {
        match zone_instants(zone_or_utc(zone), day, minute as int * 60) {
            LocalInstants::Once(t) => Some(t),
            LocalInstants::Twice(a, b) => Some(
                if a <= b {
                    a
                } else {
                    b
                },
            ),
            LocalInstants::Never => first_instant(zone, day, minute + 1),
        }
    }
}

/// What to do with the instants at which clocks show a minute.
pub fn earliest(instants: LocalInstants) -> (r: Option<i64>)
    ensures
        r == (match instants {
            LocalInstants::Once(t) => Some(t),
            LocalInstants::Twice(a, b) => Some(
                if a <= b {
                    a
                } else {
                    b
                },
            ),
            LocalInstants::Never => None,
        }),
{
    match instants {
        LocalInstants::Once(t) => Some(t),
        LocalInstants::Twice(a, b) => Some(
            if a <= b {
                a
            } else {
                b
            },
        ),
        LocalInstants::Never => None,
    }
}

/// Whether an instant is less than two days from the midnight in UTC at which a
/// day begins.
pub open spec fn is_near(instant: int, day: int) -> bool {
    -2 * DAY_SECS < instant - utc_instant(day, 0) < 2 * DAY_SECS
}

fn local_day_start(zone: &str, date: Date) -> (r: Option<i64>)
    ensures
        r == first_instant(zone@, date@, 0),
        r is Some ==> is_near(r->0 as int, date@),
        zone_or_utc(zone@) == "UTC"@ ==> r == Some(utc_instant(date@, 0) as i64),
{
    let mut minute: u32 = 0;
    while minute <= LAST_START_MINUTE
        invariant
            minute <= LAST_START_MINUTE + 1,
            first_instant(zone@, date@, 0) == first_instant(zone@, date@, minute as nat),
            zone_or_utc(zone@) == "UTC"@ ==> minute == 0,
        decreases LAST_START_MINUTE + 1 - minute,
    {
        match earliest(local_instants(zone, date, minute * 60)) {
            Some(t) => {
                return Some(t);
            },
            None => {},
        }
        minute = minute + 1;
    }
    None
}

/// Why a month has no bounds.
pub enum BoundsError {
    /// There is no such month.
    NoMonth,
    /// There is no month after it.
    NoNextMonth,
    /// A day never starts in the time zone; its first or last moment is missing.
    NoStart { date: Date },
}

/// The days on which a month and the next begin.
pub open spec fn month_days(year: int, month: int) -> (Option<i32>, Option<i32>) {
    let next: (int, int) = month_after(year, month);
    (
        civil_day(year as i32, month as u32, 1),
        civil_day(next.0 as i32, next.1 as u32, 1),
    )
}

/// Whether `r` are the instants at which a month begins and ends. They are near
/// the days on which it does so in UTC.
pub open spec fn is_bounds(r: Result<(i64, i64), BoundsError>, year: int, month: int, zone: Seq<
    char,
>) -> bool {
    let (first, last) = month_days(year, month);
    if first is None {
        r is Err && r->Err_0 is NoMonth
    } else if last is None {
        r is Err && r->Err_0 is NoNextMonth
    } else {
        let a: Option<i64> = first_instant(zone, first->0 as int, 0);
        let b: Option<i64> = first_instant(zone, last->0 as int, 0);
        if a is None {
            r is Err && r->Err_0 is NoStart && r->Err_0->date@ == first->0
        } else if b is None {
            r is Err && r->Err_0 is NoStart && r->Err_0->date@ == last->0
        } else {
            &&& r == Ok::<(i64, i64), BoundsError>((a->0, b->0))
            &&& is_near(a->0 as int, first->0 as int)
            &&& is_near(b->0 as int, last->0 as int)
        }
    }
}

impl YearMonth {
    /// Whether the calendar has the month and the one after it.
    pub open spec fn in_calendar(self) -> bool {
        &&& MIN_YEAR <= self.year <= MAX_YEAR
        &&& 1 <= self.month <= 12
        &&& self.year == MAX_YEAR ==> self.month < 12
    }

    /// The month of a day.
    pub fn containing(date: Date) -> (r: YearMonth)
        ensures
            r.year == civil_date(date@).0,
            r.month == civil_date(date@).1,
            1 <= r.month <= 12,
    {
        let (year, month, day) = date.ymd();
        YearMonth { year, month }
    }

    /// The month before `month` of `year`.
    pub fn before(year: i32, month: u32) -> (r: YearMonth)
        requires
            year > i32::MIN,
            1 <= month,
        ensures
            (r.year as int, r.month as int) == month_before(year as int, month as int),
    {
        if month == 1 {
            YearMonth { year: year - 1, month: 12 }
        } else {
            YearMonth { year, month: month - 1 }
        }
    }

    /// The month before that of a day.
    pub fn previous(date: Date) -> (r: YearMonth)
        ensures
            (r.year as int, r.month as int) == month_before(
                civil_date(date@).0 as int,
                civil_date(date@).1 as int,
            ),
            1 <= r.month <= 12,
    {
        let (year, month, day) = date.ymd();
        YearMonth::before(year, month)
    }

    /// The year and the month as text.
    pub fn period(self) -> (r: String)
        ensures
            r@ == period_text(self.year as int, self.month as nat),
    {
        let mut out = String::new();
        push_signed_zero_padded(&mut out, self.year as i64, 4);
        out.append("-");
        push_zero_padded(&mut out, self.month as u64, 2);
        out
    }

    /// The name of the month.
    pub fn month_name(self) -> (r: &'static str)
        requires
            1 <= self.month <= 12,
        ensures
            r@ == name_of_month(self.month as int),
    {
        if self.month == 1 {
            "January"
        } else if self.month == 2 {
            "February"
        } else if self.month == 3 {
            "March"
        } else if self.month == 4 {
            "April"
        } else if self.month == 5 {
            "May"
        } else if self.month == 6 {
            "June"
        } else if self.month == 7 {
            "July"
        } else if self.month == 8 {
            "August"
        } else if self.month == 9 {
            "September"
        } else if self.month == 10 {
            "October"
        } else if self.month == 11 {
            "November"
        } else {
            "December"
        }
    }

    /// The instants at which the month begins and ends in a time zone, in
    /// seconds since the Unix epoch. Every month of the calendar but the last
    /// has bounds in UTC.
    pub fn utc_bounds(self, zone: &str) -> (r: Result<(i64, i64), BoundsError>)
        ensures
            is_bounds(r, self.year as int, self.month as int, zone@),
            self.in_calendar() && zone_or_utc(zone@) == "UTC"@ ==> {
                let (first, last) = month_days(self.year as int, self.month as int);
                r == Ok::<(i64, i64), BoundsError>(
                    (
                        utc_instant(first->0 as int, 0) as i64,
                        utc_instant(last->0 as int, 0) as i64,
                    ),
                )
            },
            self.in_calendar() && r is Err ==> r->Err_0 is NoStart,
    {
        let start = match Date::from_ymd_opt(self.year, self.month, 1) {
            Some(d) => d,
            None => {
                return Err(BoundsError::NoMonth);
            },
        };
        let next = YearMonth::after(self.year, self.month);
        let end = match Date::from_ymd_opt(next.year, next.month, 1) {
            Some(d) => d,
            None => {
                return Err(BoundsError::NoNextMonth);
            },
        };
        match local_day_start(zone, start) {
            None => Err(BoundsError::NoStart { date: start }),
            Some(a) => match local_day_start(zone, end) {
                None => Err(BoundsError::NoStart { date: end }),
                Some(b) => Ok((a, b)),
            },
        }
    }

    /// The month after `month` of `year`.
    pub fn after(year: i32, month: u32) -> (r: YearMonth)
        requires
            year < i32::MAX,
            month < u32::MAX,
        ensures
            (r.year as int, r.month as int) == month_after(year as int, month as int),
    {
        if month == 12 {
            YearMonth { year: year + 1, month: 1 }
        } else {
            YearMonth { year, month: month + 1 }
        }
    }
}

/// The text of the error that a month has no bounds in a time zone.
pub open spec fn bounds_error_text(
    e: BoundsError,
    year: int,
    month: nat,
    zone: Seq<char>,
) -> Seq<char> {
    match e {
        BoundsError::NoMonth => "invalid leaderboard month "@ + period_text(year, month),
        BoundsError::NoNextMonth => "invalid next leaderboard month"@,
        BoundsError::NoStart { date } => "could not resolve local start of "@ + date_text(date@)
            + " in timezone "@ + zone_or_utc(zone),
    }
}

impl BoundsError {
    /// The text of the error.
    pub fn message(&self, month: YearMonth, zone: &str) -> (r: String)
        ensures
            r@ == bounds_error_text(*self, month.year as int, month.month as nat, zone@),
    {
        let mut out = String::new();
        match self {
            BoundsError::NoMonth => {
                out.append("invalid leaderboard month ");
                out.append(month.period().as_str());
            },
            BoundsError::NoNextMonth => {
                out.append("invalid next leaderboard month");
            },
            BoundsError::NoStart { date } => {
                out.append("could not resolve local start of ");
                out.append(date.text().as_str());
                out.append(" in timezone ");
                out.append(known_zone(zone));
            },
        }
        out
    }
}

/// The month before the month after a month is that month.
pub proof fn law_previous_month_undoes_next(year: int, month: int)
    requires
        1 <= month <= 12,
    ensures
        ({
            let next: (int, int) = month_after(year, month);
            month_before(next.0, next.1) == (year, month)
        }),
        ({
            let last: (int, int) = month_before(year, month);
            month_after(last.0, last.1) == (year, month)
        }),
        1 <= month_before(year, month).1 <= 12,
{
}

/// The number of the first day of a month.
spec fn first_day(year: int, month: int) -> int {
    days_before_year(year) + days_before_month(year, month) + 1
}

/// A month begins at least four weeks before the next.
proof fn lemma_next_first_day(year: int, month: int)
    requires
        1 <= month <= 12,
    ensures
        ({
            let next: (int, int) = month_after(year, month);
            first_day(next.0, next.1) >= first_day(year, month) + 28
        }),
{
    lemma_year_length(year);
    if month == 12 {
        assert(days_before_month(year + 1, 1) == 0);
    } else {
        assert(days_before_month(year, month + 1) == days_before_month(year, month)
            + month_length(year, month));
    }
}

/// Whether a month comes before another.
pub open spec fn is_earlier_month(year: int, month: int, later_year: int, later_month: int) -> bool {
    year < later_year || year == later_year && month < later_month
}

proof fn lemma_first_days_in_order(year: int, month: int, later_year: int, later_month: int)
    requires
        1 <= month <= 12,
        1 <= later_month <= 12,
        is_earlier_month(year, month, later_year, later_month),
    ensures
        first_day(later_year, later_month) >= first_day(year, month) + 28,
    decreases later_year * 12 + later_month - year * 12 - month,
{
    let next: (int, int) = month_after(year, month);
    lemma_next_first_day(year, month);
    if next != (later_year, later_month) {
        lemma_first_days_in_order(next.0, next.1, later_year, later_month);
    }
}

/// The days of a month are those that the calendar counts.
proof fn lemma_month_days(year: int, month: int)
    requires
        i32::MIN < year < i32::MAX,
        0 <= month < u32::MAX,
    ensures
        month_days(year, month).0 is Some ==> 1 <= month <= 12 && MIN_YEAR <= year <= MAX_YEAR
            && month_days(year, month).0->0 == first_day(year, month),
        month_days(year, month).0 is Some && month_days(year, month).1 is Some ==> ({
            let next: (int, int) = month_after(year, month);
            month_days(year, month).1->0 == first_day(next.0, next.1)
        }),
{
    let next: (int, int) = month_after(year, month);
    if month_days(year, month).0 is Some {
        lemma_year_length(year);
        lemma_days_are_few(year, month);
        if month_days(year, month).1 is Some {
            lemma_days_are_few(next.0, next.1);
        }
    }
}

/// A day number of the calendar takes no more than 32 bits.
proof fn lemma_days_are_few(year: int, month: int)
    requires
        MIN_YEAR <= year <= MAX_YEAR,
        1 <= month <= 12,
    ensures
        i32::MIN < first_day(year, month) < i32::MAX,
{
    reveal_with_fuel(days_before_month, 12);
    assert(0 <= days_before_month(year, month) <= 366);
}

/// A month begins before it ends.
pub proof fn law_months_begin_before_they_end(
    year: i32,
    month: u32,
    zone: Seq<char>,
    a: Result<(i64, i64), BoundsError>,
)
    requires
        is_bounds(a, year as int, month as int, zone),
        a is Ok,
    ensures
        a->Ok_0.0 < a->Ok_0.1,
{
    assert(1 <= month <= 12 && MIN_YEAR <= year <= MAX_YEAR);
    lemma_month_days(year as int, month as int);
    lemma_next_first_day(year as int, month as int);
}

/// Consecutive months meet: where one ends, the next begins. Each begins before
/// it ends.
pub proof fn law_months_meet(
    year: i32,
    month: u32,
    next: YearMonth,
    zone: Seq<char>,
    a: Result<(i64, i64), BoundsError>,
    b: Result<(i64, i64), BoundsError>,
)
    requires
        (next.year as int, next.month as int) == month_after(year as int, month as int),
        is_bounds(a, year as int, month as int, zone),
        is_bounds(b, next.year as int, next.month as int, zone),
        a is Ok,
        b is Ok,
    ensures
        a->Ok_0.1 == b->Ok_0.0,
        a->Ok_0.0 < a->Ok_0.1,
        b->Ok_0.0 < b->Ok_0.1,
{
    law_months_begin_before_they_end(year, month, zone, a);
    law_months_begin_before_they_end(next.year, next.month, zone, b);
}

/// Months do not overlap: no instant lies in two of them.
pub proof fn law_months_do_not_overlap(
    first: YearMonth,
    second: YearMonth,
    zone: Seq<char>,
    a: Result<(i64, i64), BoundsError>,
    b: Result<(i64, i64), BoundsError>,
)
    requires
        is_earlier_month(
            first.year as int,
            first.month as int,
            second.year as int,
            second.month as int,
        ),
        is_bounds(a, first.year as int, first.month as int, zone),
        is_bounds(b, second.year as int, second.month as int, zone),
        a is Ok,
        b is Ok,
    ensures
        a->Ok_0.1 <= b->Ok_0.0,
{
    let (y, m) = (first.year as int, first.month as int);
    let (y2, m2) = (second.year as int, second.month as int);
    assert(1 <= m <= 12 && MIN_YEAR <= y <= MAX_YEAR);
    assert(1 <= m2 <= 12 && MIN_YEAR <= y2 <= MAX_YEAR);
    lemma_month_days(y, m);
    lemma_month_days(y2, m2);
    let next: (int, int) = month_after(y, m);
    if next != (y2, m2) {
        lemma_first_days_in_order(next.0, next.1, y2, m2);
    }
}

/// What is no month of the year has no bounds.
pub proof fn law_only_months_have_bounds(
    year: i32,
    month: u32,
    zone: Seq<char>,
    a: Result<(i64, i64), BoundsError>,
)
    requires
        is_bounds(a, year as int, month as int, zone),
        month < 1 || month > 12,
    ensures
        a is Err,
        a->Err_0 is NoMonth,
{
}

// ── Names and text ───────────────────────────────────────────────────────────

/// The name of an entry, cleaned, if there is anything left of it.
pub open spec fn entry_name(e: MonthlyLeaderboardEntry) -> Option<Seq<char>> {
    match e.display_name {
        Some(name) => if cleaned_name(name@).len() > 0 {
            Some(cleaned_name(name@))
        } else {
            None
        },
        None => None,
    }
}

/// The cleaned display names of the first entries by user, the last one of a
/// user counting.
pub open spec fn names_in(entries: Seq<MonthlyLeaderboardEntry>) -> Map<Seq<char>, Seq<char>>
    decreases entries.len(),
{
    if entries.len() == 0 {
        Map::empty()
    } else {
        let before: Map<Seq<char>, Seq<char>> = names_in(entries.drop_last());
        match entry_name(entries.last()) {
            Some(name) => before.insert(entries.last().user_id@, name),
            None => before,
        }
    }
}

/// The display names of the players on a leaderboard, for the pills. Players
/// without one are left out, so that their user ID is shown.
pub fn mention_names(entries: &Vec<MonthlyLeaderboardEntry>) -> (r: NameMap<String>)
    ensures
        name_texts(r@) == names_in(entries@),
{
    let mut out: NameMap<String> = NameMap::new();
    let mut i: usize = 0;
    assert(name_texts(out@) =~= names_in(entries@.take(0)));
    while i < entries.len()
        invariant
            i <= entries.len(),
            name_texts(out@) == names_in(entries@.take(i as int)),
        decreases entries.len() - i,
    {
        proof {
            assert(entries@.take(i + 1).drop_last() =~= entries@.take(i as int));
            assert(entries@.take(i + 1).last() == entries@[i as int]);
        }
        let ghost before: Map<Seq<char>, String> = out@;
        match &entries[i].display_name {
            Some(name) => match sanitize_display_name(name.as_str()) {
                Some(clean) => {
                    let ghost text: Seq<char> = clean@;
                    out.insert(entries[i].user_id.clone(), clean);
                    assert(name_texts(out@) =~= name_texts(before).insert(
                        entries@[i as int].user_id@,
                        text,
                    ));
                },
                None => {},
            },
            None => {},
        }
        i = i + 1;
    }
    assert(entries@.take(entries.len() as int) =~= entries@);
    out
}

/// A share in percent, rounded towards zero; of nothing, 0.
pub open spec fn percent(correct: int, total: int) -> int {
    if total > 0 {
        if correct >= 0 {
            correct * 100 / total
        } else {
            -((-correct) * 100 / total)
        }
    } else {
        0
    }
}

/// A share in percent, see `percent`.
pub fn percentage(correct: i64, total: i64) -> (r: i64)
    requires
        total > 0 ==> i64::MIN <= correct * 100 <= i64::MAX,
    ensures
        r == percent(correct as int, total as int),
{
    if total > 0 {
        proof {
            lemma_quotient_bound(correct as int, total as int);
        }
        if correct >= 0 {
            ((correct as u64) * 100 / (total as u64)) as i64
        } else {
            let whole: u64 = (-correct) as u64;
            -((whole * 100 / (total as u64)) as i64)
        }
    } else {
        0
    }
}

proof fn lemma_quotient_bound(correct: int, total: int)
    requires
        total > 0,
        i64::MIN <= correct * 100 <= i64::MAX,
    ensures
        correct >= 0 ==> 0 <= correct * 100 / total <= i64::MAX,
        correct < 0 ==> 0 <= (-correct) * 100 / total <= i64::MAX,
{
    if correct >= 0 {
        assert(0 <= correct * 100 / total <= correct * 100) by (nonlinear_arith)
            requires
                total > 0,
                correct >= 0,
        ;
    } else {
        assert(0 <= (-correct) * 100 / total <= (-correct) * 100) by (nonlinear_arith)
            requires
                total > 0,
                correct < 0,
        ;
    }
}

/// Whether the entry's share can be computed.
pub open spec fn can_show(e: MonthlyLeaderboardEntry) -> bool {
    e.total_questions > 0 ==> i64::MIN <= e.total_correct * 100 <= i64::MAX
}

/// The line of a place.
pub open spec fn entry_line(place: int, e: MonthlyLeaderboardEntry) -> Seq<char> {
    medal_of(place) + " "@ + e.user_id@ + " · "@ + signed(e.total_correct as int) + "/"@ + signed(
        e.total_questions as int,
    ) + " ("@ + signed(percent(e.total_correct as int, e.total_questions as int)) + "%) · ⭐"@
        + e.wilson_percent@ + "%"@
}

/// The lines of a leaderboard.
pub open spec fn board_lines(
    title: Seq<char>,
    question_count: int,
    entries: Seq<MonthlyLeaderboardEntry>,
) -> Seq<Seq<char>> {
    seq!["**🏆 "@ + title + " · "@ + signed(question_count) + " Qs:**"@] + entries.map(
        |i: int, e: MonthlyLeaderboardEntry| entry_line(i, e),
    )
}

/// A leaderboard as text, with user IDs for pills.
pub fn leaderboard_text(
    title: &str,
    question_count: i64,
    entries: &Vec<MonthlyLeaderboardEntry>,
) -> (r: String)
    requires
        forall|i: int| 0 <= i < entries.len() ==> can_show(#[trigger] entries@[i]),
    ensures
        r@ == join(board_lines(title@, question_count as int, entries@), "\n"@),
{
    let mut head = "**🏆 ".to_owned();
    head.append(title);
    head.append(" · ");
    push_int(&mut head, question_count);
    head.append(" Qs:**");
    let ghost first: Seq<char> = head@;
    let mut lines: Vec<String> = Vec::new();
    lines.push(head);
    assert(texts(lines@) =~= seq![first] + entries@.take(0).map(
        |j: int, e: MonthlyLeaderboardEntry| entry_line(j, e),
    ));
    let mut i: usize = 0;
    while i < entries.len()
        invariant
            i <= entries.len(),
            forall|j: int| 0 <= j < entries.len() ==> can_show(#[trigger] entries@[j]),
            texts(lines@) == seq![first] + entries@.take(i as int).map(
                |j: int, e: MonthlyLeaderboardEntry| entry_line(j, e),
            ),
        decreases entries.len() - i,
    {
        let ghost before: Seq<String> = lines@;
        let e: &MonthlyLeaderboardEntry = &entries[i];
        assert(can_show(entries@[i as int]));
        let mut line = medal(i).to_owned();
        line.append(" ");
        line.append(e.user_id.as_str());
        line.append(" · ");
        push_int(&mut line, e.total_correct);
        line.append("/");
        push_int(&mut line, e.total_questions);
        line.append(" (");
        push_int(&mut line, percentage(e.total_correct, e.total_questions));
        line.append("%) · ⭐");
        line.append(e.wilson_percent.as_str());
        line.append("%");
        let ghost text: Seq<char> = line@;
        lines.push(line);
        proof {
            assert(text == entry_line(i as int, entries@[i as int]));
            assert(texts(lines@) =~= texts(before).push(text));
            assert(entries@.take(i + 1).map(
                |j: int, x: MonthlyLeaderboardEntry| entry_line(j, x),
            ) =~= entries@.take(i as int).map(
                |j: int, x: MonthlyLeaderboardEntry| entry_line(j, x),
            ).push(text));
        }
        i = i + 1;
    }
    assert(entries@.take(entries.len() as int) =~= entries@);
    join_texts(&lines, "\n")
}

/// The message with the leaderboard of a month.
pub fn monthly_content(
    month: YearMonth,
    question_count: i64,
    entries: &Vec<MonthlyLeaderboardEntry>,
) -> (r: Message)
    requires
        1 <= month.month <= 12,
        forall|i: int| 0 <= i < entries.len() ==> can_show(#[trigger] entries@[i]),
    ensures
        ({
            let text: Seq<char> = join(
                board_lines(name_of_month(month.month as int), question_count as int, entries@),
                "\n"@,
            );
            r.shows(text, rendered(text, false, false, names_in(entries@)))
        }),
{
    let plain = leaderboard_text(month.month_name(), question_count, entries);
    let names = mention_names(entries);
    mentionify_with_names(plain.as_str(), &names)
}

// ── Laws of the board ────────────────────────────────────────────────────────

/// A share is rounded down to whole percent: nothing right is 0, all right is
/// 100, and more right answers never make it smaller. A share of nothing is 0.
pub proof fn law_percent_rounds_down(correct: int, more: int, total: int)
    requires
        0 <= correct <= more,
    ensures
        total > 0 ==> percent(correct, total) * total <= correct * 100 < (percent(correct, total)
            + 1) * total,
        total > 0 ==> percent(0, total) == 0 && percent(total, total) == 100,
        percent(correct, total) <= percent(more, total),
        total <= 0 ==> percent(correct, total) == 0,
        percent(-correct, total) == -percent(correct, total),
{
    if total > 0 {
        assert((correct * 100 / total) * total <= correct * 100 < (correct * 100 / total + 1)
            * total && correct * 100 / total <= more * 100 / total && total * 100 / total == 100
            && 0int * 100 / total == 0) by (nonlinear_arith)
            requires
                total > 0,
                0 <= correct <= more,
        ;
    }
}

/// Everyone on the board of a month has a line at their place, with their right
/// answers of all, the share in percent and their score.
pub proof fn law_everyone_is_on_the_board(
    title: Seq<char>,
    question_count: int,
    entries: Seq<MonthlyLeaderboardEntry>,
    i: int,
)
    requires
        0 <= i < entries.len(),
    ensures
        board_lines(title, question_count, entries).len() == 1 + entries.len(),
        board_lines(title, question_count, entries)[0] == "**🏆 "@ + title + " · "@ + signed(
            question_count,
        ) + " Qs:**"@,
        board_lines(title, question_count, entries)[1 + i] == medal_of(i) + " "@
            + entries[i].user_id@ + " · "@ + signed(entries[i].total_correct as int) + "/"@
            + signed(entries[i].total_questions as int) + " ("@ + signed(
            percent(entries[i].total_correct as int, entries[i].total_questions as int),
        ) + "%) · ⭐"@ + entries[i].wilson_percent@ + "%"@,
{
}

/// The name of a player is the cleaned display name of their last entry that has
/// one; a player without any has none, so that their user ID is shown.
pub proof fn law_players_are_named_by_their_entries(
    entries: Seq<MonthlyLeaderboardEntry>,
    user: Seq<char>,
)
    ensures
        names_in(entries).dom().contains(user) ==> exists|i: int|
            0 <= i < entries.len() && (#[trigger] entries[i]).user_id@ == user
                && entries[i].display_name is Some && names_in(entries)[user] == cleaned_name(
                entries[i].display_name->0@,
            ) && names_in(entries)[user].len() > 0,
        (exists|i: int|
            0 <= i < entries.len() && (#[trigger] entries[i]).user_id@ == user
                && entries[i].display_name is Some && cleaned_name(
                entries[i].display_name->0@,
            ).len() > 0) ==> names_in(entries).dom().contains(user),
    decreases entries.len(),
{
    if entries.len() > 0 {
        let head: Seq<MonthlyLeaderboardEntry> = entries.drop_last();
        law_players_are_named_by_their_entries(head, user);
        let last: MonthlyLeaderboardEntry = entries[entries.len() - 1];
        assert(last == entries.last());
        if names_in(entries).dom().contains(user) && !(entry_name(last) is Some
            && last.user_id@ == user) {
            let i: int = choose|i: int|
                0 <= i < head.len() && (#[trigger] head[i]).user_id@ == user
                    && head[i].display_name is Some && names_in(head)[user] == cleaned_name(
                    head[i].display_name->0@,
                ) && names_in(head)[user].len() > 0;
            assert(entries[i] == head[i]);
        }
        if exists|i: int|
            0 <= i < entries.len() && (#[trigger] entries[i]).user_id@ == user
                && entries[i].display_name is Some && cleaned_name(
                entries[i].display_name->0@,
            ).len() > 0 {
            let i: int = choose|i: int|
                0 <= i < entries.len() && (#[trigger] entries[i]).user_id@ == user
                    && entries[i].display_name is Some && cleaned_name(
                    entries[i].display_name->0@,
                ).len() > 0;
            if i < head.len() {
                assert(head[i] == entries[i]);
            }
        }
    }
}

/// The last entry of a player with a display name gives them their name.
pub proof fn law_the_last_name_counts(
    entries: Seq<MonthlyLeaderboardEntry>,
    last: MonthlyLeaderboardEntry,
)
    ensures
        last.display_name is Some && cleaned_name(last.display_name->0@).len() > 0 ==> names_in(
            entries.push(last),
        ) == names_in(entries).insert(last.user_id@, cleaned_name(last.display_name->0@)),
        last.display_name is None || cleaned_name(last.display_name->0@).len() == 0 ==> names_in(
            entries.push(last),
        ) == names_in(entries),
{
    assert(entries.push(last).drop_last() =~= entries);
}

/// Every month of the year has its name, and no two have the same.
pub proof fn law_months_have_different_names(a: int, b: int)
    requires
        1 <= a < b <= 12,
    ensures
        name_of_month(a) != name_of_month(b),
        name_of_month(a) == seq![
            "January"@,
            "February"@,
            "March"@,
            "April"@,
            "May"@,
            "June"@,
            "July"@,
            "August"@,
            "September"@,
            "October"@,
            "November"@,
        ][a - 1],
        b == 12 ==> name_of_month(b) == "December"@,
{
    reveal_strlit("January");
    reveal_strlit("February");
    reveal_strlit("March");
    reveal_strlit("April");
    reveal_strlit("May");
    reveal_strlit("June");
    reveal_strlit("July");
    reveal_strlit("August");
    reveal_strlit("September");
    reveal_strlit("October");
    reveal_strlit("November");
    reveal_strlit("December");
    assert("January"@[0] == 'J' && "January"@[1] == 'a');
    assert("February"@[0] == 'F');
    assert("March"@[0] == 'M' && "March"@[2] == 'r');
    assert("April"@[0] == 'A' && "April"@[1] == 'p');
    assert("May"@[0] == 'M' && "May"@[2] == 'y');
    assert("June"@[0] == 'J' && "June"@[1] == 'u' && "June"@[2] == 'n');
    assert("July"@[0] == 'J' && "July"@[1] == 'u' && "July"@[2] == 'l');
    assert("August"@[0] == 'A' && "August"@[1] == 'u');
    assert("September"@[0] == 'S');
    assert("October"@[0] == 'O');
    assert("November"@[0] == 'N');
    assert("December"@[0] == 'D');
}

/// A day begins at the first minute that clocks in the zone show on it, and where
/// they show it twice, at the first time.
pub proof fn law_days_begin_at_their_first_minute(zone: Seq<char>, day: int, minute: nat)
    requires
        minute <= 180,
        forall|m: nat| m < minute ==> #[trigger] is_skipped(zone, day, m),
    ensures
        match zone_instants(zone_or_utc(zone), day, minute as int * 60) {
            LocalInstants::Once(t) => first_instant(zone, day, 0) == Some(t),
            LocalInstants::Twice(a, b) => first_instant(zone, day, 0) is Some && first_instant(
                zone,
                day,
                0,
            )->0 <= a && first_instant(zone, day, 0)->0 <= b && (first_instant(zone, day, 0)->0 == a
                || first_instant(zone, day, 0)->0 == b),
            LocalInstants::Never => minute == 180 ==> first_instant(zone, day, 0) is None,
        },
{
    lemma_skipped_minutes(zone, day, 0, minute);
    if minute == 180 {
        assert(first_instant(zone, day, 181) is None);
    }
}

/// Whether clocks in a zone never show a minute on a day.
pub open spec fn is_skipped(zone: Seq<char>, day: int, minute: nat) -> bool {
    zone_instants(zone_or_utc(zone), day, minute as int * 60) is Never
}

proof fn lemma_skipped_minutes(zone: Seq<char>, day: int, from: nat, minute: nat)
    requires
        from <= minute <= 180,
        forall|m: nat| m < minute ==> #[trigger] is_skipped(zone, day, m),
    ensures
        first_instant(zone, day, from) == first_instant(zone, day, minute),
    decreases minute - from,
{
    if from < minute {
        assert(is_skipped(zone, day, from));
        lemma_skipped_minutes(zone, day, from + 1, minute);
    }
}

/// A month is written as its year, a dash and two digits, so that texts are in
/// the order of the months of a year.
pub proof fn law_months_are_written_with_two_digits(year: int, month: nat)
    requires
        1 <= month <= 12,
    ensures
        period_text(year, month).len() == signed_zero_padded(year, 4).len() + 3,
        period_text(year, month).take(signed_zero_padded(year, 4).len() as int)
            == signed_zero_padded(year, 4),
        period_text(year, month)[signed_zero_padded(year, 4).len() as int] == '-',
        zero_padded(month, 2).is_suffix_of(period_text(year, month)),
{
    reveal_strlit("-");
    reveal_with_fuel(decimal, 3);
    let y: Seq<char> = signed_zero_padded(year, 4);
    let m: Seq<char> = zero_padded(month, 2);
    let whole: Seq<char> = period_text(year, month);
    assert(m.len() == 2);
    assert(whole.take(y.len() as int) =~= y);
    assert(whole.skip(whole.len() - 2) =~= m);
}

/// Where a day never starts, the message tells the day and ends with the zone
/// that was looked in; where there is no such month, it ends with the month.
pub proof fn law_missing_bounds_are_told(
    e: BoundsError,
    year: int,
    month: nat,
    zone: Seq<char>,
)
    ensures
        e is NoMonth ==> ("month "@ + period_text(year, month)).is_suffix_of(
            bounds_error_text(e, year, month, zone),
        ),
        e is NoStart ==> ("start of "@ + date_text(e->date@) + " in timezone "@ + zone_or_utc(
            zone,
        )).is_suffix_of(bounds_error_text(e, year, month, zone)),
        e is NoNextMonth ==> bounds_error_text(e, year, month, zone)
            == "invalid next leaderboard month"@,
{
    reveal_strlit("month ");
    reveal_strlit("start of ");
    reveal_strlit("invalid leaderboard month ");
    reveal_strlit("could not resolve local start of ");
    let text: Seq<char> = bounds_error_text(e, year, month, zone);
    if e is NoMonth {
        let end: Seq<char> = "month "@ + period_text(year, month);
        assert(text.skip(text.len() - end.len()) =~= end);
    }
    if e is NoStart {
        let end: Seq<char> = "start of "@ + date_text(e->date@) + " in timezone "@ + zone_or_utc(
            zone,
        );
        assert(text.skip(text.len() - end.len()) =~= end);
    }
}

} // verus!
