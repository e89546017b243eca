//! When quizzes start.

use vstd::prelude::*;

use crate::calendar::{civil_date, Date, LocalTime, MAX_DAY, MIN_DAY};
use crate::config::{quiz_time, ScheduleConfig};
use crate::leaderboard::{month_before, period_text, YearMonth};
use crate::state::{once_views, OnceView, ScheduledOnce, State};
use crate::text::same;

verus! {

/// For how many seconds after its moment a quiz may still be fired.
pub const FIRE_GRACE_SECS: i64 = 300;

/// The second of the day at which a quiz is fired that starts at `hour` and
/// `minute` and is announced `offset` seconds before: on the day before, where
/// need be.
pub open spec fn fire_second(hour: int, minute: int, offset: int) -> int {
    (hour * 3600 + minute * 60 - offset) % 86400
}

/// The second of the day at which a quiz is fired, see `fire_second`.
pub fn fire_secs(qh: u32, qm: u32, offset: i64) -> (r: i64)
    requires
        qh * 3600 + qm * 60 <= u32::MAX,
        i64::MIN <= qh * 3600 + qm * 60 - offset <= i64::MAX,
    ensures
        r == fire_second(qh as int, qm as int, offset as int),
        0 <= r < 86400,
{
    let start: i64 = (qh * 3600 + qm * 60) as i64;
    let x: i128 = start as i128 - offset as i128;
    if x >= 0 {
        ((x as u128) % 86400) as i64
    } else {
        let m: i64 = (((-x) as u128) % 86400) as i64;
        if m == 0 {
            0
        } else {
            86400 - m
        }
    }
}

/// The second, counted through all days, at which a quiz is fired on `day`.
pub open spec fn fire_moment(day: int, fire_secs: int) -> int {
    day * 86400 + fire_secs
}

/// Whether a moment lies in the calendar.
pub open spec fn in_calendar(day: int, fire_secs: int) -> bool {
    MIN_DAY * 86400 <= fire_moment(day, fire_secs) < (MAX_DAY + 1) * 86400
}

/// Whole seconds from the moment at which a quiz is fired on `day` to `now`,
/// rounded down: negative as long as the moment lies ahead.
pub open spec fn since_fire(now: LocalTime, day: int, fire_secs: int) -> int {
    now.day()@ * 86400 + now.secs() - fire_moment(day, fire_secs)
}

/// Whole seconds from the moment at which a quiz is fired, see `since_fire`.
pub fn seconds_since(now: &LocalTime, date: Date, fire_secs: i64) -> (r: i64)
    requires
        in_calendar(date@, fire_secs as int),
    ensures
        r == since_fire(*now, date@, fire_secs as int),
{
    let today: i64 = now.date().number() as i64;
    let day: i64 = date.number() as i64;
    (today * 86400 + now.second() as i64) - (day * 86400 + fire_secs)
}

/// Whether a quiz that fires on `day` is to be fired at `now`.
pub open spec fn is_due(now: LocalTime, day: int, fire_secs: int) -> bool {
    0 <= since_fire(now, day, fire_secs) < FIRE_GRACE_SECS
}

/// The day whose quiz is to be fired at `now`: today, or yesterday where the
/// time for it reaches past midnight.
pub open spec fn due_day(now: LocalTime, fire_secs: int) -> Option<int> {
    if is_due(now, now.day()@, fire_secs) {
        Some(now.day()@)
    } else if is_due(now, now.day()@ - 1, fire_secs) {
        Some(now.day()@ - 1)
    } else {
        None
    }
}

/// The number of an optional day.
pub open spec fn opt_day(d: Option<Date>) -> Option<int> {
    match d {
        Some(x) => Some(x@),
        None => None,
    }
}

/// The day whose quiz is to be fired at `now`, see `due_day`.
pub fn due_fire_date(now: &LocalTime, fire_secs: i64) -> (r: Option<Date>)
    requires
        now.day()@ > MIN_DAY,
        in_calendar(now.day()@, fire_secs as int),
        in_calendar(now.day()@ - 1, fire_secs as int),
    ensures
        opt_day(r) == due_day(*now, fire_secs as int),
{
    let today = now.date();
    let since: i64 = seconds_since(now, today, fire_secs);
    if 0 <= since && since < FIRE_GRACE_SECS {
        return Some(today);
    }
    match today.day_before() {
        Some(yesterday) => {
            let since: i64 = seconds_since(now, yesterday, fire_secs);
            if 0 <= since && since < FIRE_GRACE_SECS {
                Some(yesterday)
            } else {
                None
            }
        },
        None => None,
    }
}

// ── Reminders ────────────────────────────────────────────────────────────────

/// The longest of the reminders, or none.
pub open spec fn longest(times: Seq<u64>) -> u64
    decreases times.len(),
{
    if times.len() == 0 {
        0
    } else if times.last() > longest(times.drop_last()) {
        times.last()
    } else {
        longest(times.drop_last())
    }
}

/// How many seconds before its start a quiz is fired: as long as its first
/// reminder needs.
pub fn reminder_offset(times: &Vec<u64>) -> (r: i64)
    ensures
        r == longest(times@) as i64,
{
    let mut best: u64 = 0;
    let mut i: usize = 0;
    assert(times@.take(0).len() == 0);
    while i < times.len()
        invariant
            i <= times.len(),
            best == longest(times@.take(i as int)),
        decreases times.len() - i,
    {
        assert(times@.take(i + 1).drop_last() =~= times@.take(i as int));
        if times[i] > best {
            best = times[i];
        }
        i = i + 1;
    }
    assert(times@.take(times.len() as int) =~= times@);
    #[verifier::truncate]
    (best as i64)
}

// ── Slots ────────────────────────────────────────────────────────────────────

/// What becomes of a slot of the schedule.
pub enum SlotStep {
    /// The slot is no time of the day.
    Invalid,
    /// It is not its time.
    NotDue,
    /// It was fired already.
    AlreadyFired,
    /// It is its time, but a quiz is running. It is tried again.
    Busy,
    /// A quiz starts. The slot is marked with the day.
    Fire { date: Date },
}

/// The moments of a slot on the days round `now` lie in the calendar.
pub open spec fn slot_in_range(now: LocalTime, offset: int) -> bool {
    &&& MIN_DAY + 1 < now.day()@ < MAX_DAY
    &&& -offset <= i64::MAX - 86400
}

/// Whether a slot is fired: `quiz` are its hour and minute, `last` the day on
/// which it was fired last.
pub open spec fn fires(
    quiz: (u32, u32),
    now: LocalTime,
    offset: int,
    last: Option<int>,
    busy: bool,
) -> bool {
    let day: Option<int> = due_day(now, fire_second(quiz.0 as int, quiz.1 as int, offset));
    day is Some && last != day && !busy
}

/// The day on which a slot was fired last.
pub open spec fn last_fired(state: State, slot: Seq<char>) -> Option<int> {
    if state.last_quiz_dates@.dom().contains(slot) {
        Some(state.last_quiz_dates@[slot]@)
    } else {
        None
    }
}

/// Whether two states agree in all but the days on which slots were fired.
pub open spec fn same_but_slots(a: State, b: State) -> bool {
    &&& a.cached_questions == b.cached_questions
    &&& a.opentdb_token == b.opentdb_token
    &&& a.created_at == b.created_at
    &&& a.scheduled_once == b.scheduled_once
}

/// Notes that a slot was fired on a day.
pub fn mark_slot(state: &mut State, slot: &str, date: Date)
    ensures
        final(state).last_quiz_dates@ == old(state).last_quiz_dates@.insert(slot@, date),
        same_but_slots(*old(state), *final(state)),
{
    let key = slot.to_owned();
    state.last_quiz_dates.insert(key, date);
}

/// Decides whether a slot of the schedule is fired at `now`. A slot is marked
/// before its quiz starts, so that it cannot start twice.
pub fn tick_slot(state: &mut State, slot: &str, now: &LocalTime, offset: i64, busy: bool) -> (r:
    SlotStep)
    requires
        slot_in_range(*now, offset as int),
    ensures
        ({
            let quiz: Option<(u32, u32)> = quiz_time(slot@);
            let last: Option<int> = last_fired(*old(state), slot@);
            if quiz is None {
                r is Invalid
            } else {
                let (hour, minute) = quiz->0;
                let day: Option<int> = due_day(
                    *now,
                    fire_second(hour as int, minute as int, offset as int),
                );
                if day is None {
                    r is NotDue
                } else if last == day {
                    r is AlreadyFired
                } else if busy {
                    r is Busy
                } else {
                    r is Fire && r->date@ == day->0
                }
            }
        }),
        r is Fire ==> final(state).last_quiz_dates@ == old(state).last_quiz_dates@.insert(
            slot@,
            r->date,
        ),
        r !is Fire ==> final(state).last_quiz_dates == old(state).last_quiz_dates,
        same_but_slots(*old(state), *final(state)),
{
    let (qh, qm) = match ScheduleConfig::parse_quiz_time(slot) {
        Some(t) => t,
        None => {
            return SlotStep::Invalid;
        },
    };
    let secs: i64 = fire_secs(qh, qm, offset);
    let date = match due_fire_date(now, secs) {
        Some(d) => d,
        None => {
            return SlotStep::NotDue;
        },
    };
    let fired: bool = match state.last_quiz_dates.get(slot) {
        Some(d) => d.same_day(&date),
        None => false,
    };
    if fired {
        return SlotStep::AlreadyFired;
    }
    if busy {
        return SlotStep::Busy;
    }
    mark_slot(state, slot, date);
    SlotStep::Fire { date }
}

// ── One-time quizzes ─────────────────────────────────────────────────────────

/// What becomes of a one-time quiz.
pub enum OnceStep {
    /// It has no time of the day. It is removed.
    Invalid,
    /// Its time has not come.
    NotYet,
    /// Its time has long passed. It is removed.
    Missed,
    /// It is its time, but a quiz is running. It is removed.
    Dropped,
    /// A quiz starts. It is removed.
    Fire,
}

/// Whether two states agree in all but the one-time quizzes.
pub open spec fn same_but_once(a: State, b: State) -> bool {
    &&& a.cached_questions == b.cached_questions
    &&& a.opentdb_token == b.opentdb_token
    &&& a.created_at == b.created_at
    &&& a.last_quiz_dates == b.last_quiz_dates
}

/// Removes a one-time quiz.
pub fn remove_once(state: &mut State, entry: &ScheduledOnce)
    ensures
        once_views(final(state).scheduled_once@) == once_views(old(state).scheduled_once@).filter(
            |e: OnceView| e != entry@,
        ),
        same_but_once(*old(state), *final(state)),
{
    let ghost all: Seq<OnceView> = once_views(state.scheduled_once@);
    let ghost other = |e: OnceView| e != entry@;
    let mut kept: Vec<ScheduledOnce> = Vec::new();
    let mut i: usize = 0;
    assert(all.take(0).filter(other) =~= Seq::<OnceView>::empty()) by {
        reveal(Seq::filter);
    }
    while i < state.scheduled_once.len()
        invariant
            i <= state.scheduled_once.len(),
            *state == *old(state),
            all == once_views(state.scheduled_once@),
            other == (|e: OnceView| e != entry@),
            once_views(kept@) == all.take(i as int).filter(other),
        decreases state.scheduled_once.len() - i,
    {
        let ghost e: OnceView = all[i as int];
        proof {
            assert(all.take(i + 1).drop_last() =~= all.take(i as int));
            assert(all.take(i + 1).last() == e);
            reveal(Seq::filter);
        }
        let item: &ScheduledOnce = &state.scheduled_once[i];
        if !(same(item.quiz_time.as_str(), entry.quiz_time.as_str()) && item.date.same_day(
            &entry.date,
        )) {
            let ghost before: Seq<ScheduledOnce> = kept@;
            kept.push(item.copy());
            assert(once_views(kept@) =~= once_views(before).push(e));
        }
        i = i + 1;
    }
    assert(all.take(all.len() as int) =~= all);
    state.scheduled_once = kept;
}

/// What becomes of a one-time quiz whose moment lies `since` seconds back.
pub open spec fn once_of(since: int, busy: bool) -> OnceStep {
    if since < 0 {
        OnceStep::NotYet
    } else if since >= FIRE_GRACE_SECS {
        OnceStep::Missed
    } else if busy {
        OnceStep::Dropped
    } else {
        OnceStep::Fire
    }
}

/// Decides whether a one-time quiz is fired at `now`. Unless its time has not
/// come, it is removed first, so that it cannot start twice.
pub fn tick_once(
    state: &mut State,
    entry: &ScheduledOnce,
    now: &LocalTime,
    offset: i64,
    busy: bool,
) -> (r: OnceStep)
    requires
        -offset <= i64::MAX - 86400,
    ensures
        ({
            let quiz: Option<(u32, u32)> = quiz_time(entry.quiz_time@);
            if quiz is None {
                r is Invalid
            } else {
                let (hour, minute) = quiz->0;
                r == once_of(
                    since_fire(
                        *now,
                        entry.date@,
                        fire_second(hour as int, minute as int, offset as int),
                    ),
                    busy,
                )
            }
        }),
        once_views(final(state).scheduled_once@) == (if r is NotYet {
            once_views(old(state).scheduled_once@)
        } else {
            once_views(old(state).scheduled_once@).filter(|e: OnceView| e != entry@)
        }),
        same_but_once(*old(state), *final(state)),
{
    let (qh, qm) = match ScheduleConfig::parse_quiz_time(entry.quiz_time.as_str()) {
        Some(t) => t,
        None => {
            remove_once(state, entry);
            return OnceStep::Invalid;
        },
    };
    let secs: i64 = fire_secs(qh, qm, offset);
    // The number of a date says that it lies in the calendar.
    let _day: i32 = entry.date.number();
    let since: i64 = seconds_since(now, entry.date, secs);
    if since < 0 {
        return OnceStep::NotYet;
    }
    remove_once(state, entry);
    if since >= FIRE_GRACE_SECS {
        OnceStep::Missed
    } else if busy {
        OnceStep::Dropped
    } else {
        OnceStep::Fire
    }
}

// ── The month ────────────────────────────────────────────────────────────────

/// Whether the past month is over for good: quizzes that began in it get an
/// hour to finish.
pub fn month_is_settled(now: &LocalTime) -> (r: bool)
    ensures
        r == (civil_date(now.day()@).2 > 1 || now.secs() >= 3600),
{
    let (year, month, day) = now.date().ymd();
    day > 1 || now.second() / 3600 >= 1
}

/// The leaderboard of the past month, which is posted once.
pub struct MonthlyPost {
    pub month: YearMonth,
    pub period: String,
    /// The same for every attempt, so that the server takes the post once.
    pub transaction_id: String,
}

/// What is posted for the month before that of a day.
pub fn monthly_post(date: Date) -> (r: MonthlyPost)
    ensures
        ({
            let (year, month) = month_before(
                civil_date(date@).0 as int,
                civil_date(date@).1 as int,
            );
            &&& (r.month.year as int, r.month.month as int) == (year, month)
            &&& 1 <= r.month.month <= 12
            &&& r.period@ == period_text(year, month as nat)
            &&& r.transaction_id@ == "quiz-monthly-leaderboard-"@ + period_text(year, month as nat)
        }),
{
    let month = YearMonth::previous(date);
    let period = month.period();
    let mut transaction_id = "quiz-monthly-leaderboard-".to_owned();
    transaction_id.append(period.as_str());
    MonthlyPost { month, period, transaction_id }
}

// ── Laws ─────────────────────────────────────────────────────────────────────

/// A quiz is fired from its moment on, and no later than the time allowed for
/// it.
pub proof fn law_due_from_its_moment(now: LocalTime, day: int, fire_secs: int)
    requires
        0 <= now.secs() < 86400,
        0 <= fire_secs < 86400,
    ensures
        is_due(now, day, fire_secs) <==> fire_moment(day, fire_secs) <= now.day()@ * 86400
            + now.secs() < fire_moment(day, fire_secs) + FIRE_GRACE_SECS,
        is_due(now, day, fire_secs) ==> now.day()@ - 1 <= day <= now.day()@,
{
}

/// No moment is in time for two days.
pub proof fn law_due_for_one_day_only(now: LocalTime, a: int, b: int, fire_secs: int)
    requires
        is_due(now, a, fire_secs),
        is_due(now, b, fire_secs),
    ensures
        a == b,
{
    if a < b {
        assert(fire_moment(b, fire_secs) - fire_moment(a, fire_secs) >= 86400) by (nonlinear_arith)
            requires
                a < b,
                fire_moment(b, fire_secs) == b * 86400 + fire_secs,
                fire_moment(a, fire_secs) == a * 86400 + fire_secs,
        ;
    }
    if b < a {
        assert(fire_moment(a, fire_secs) - fire_moment(b, fire_secs) >= 86400) by (nonlinear_arith)
            requires
                b < a,
                fire_moment(b, fire_secs) == b * 86400 + fire_secs,
                fire_moment(a, fire_secs) == a * 86400 + fire_secs,
        ;
    }
}

/// A slot that was fired for a day is not fired for that day again.
pub proof fn law_a_slot_fires_once_a_day(
    quiz: (u32, u32),
    first: LocalTime,
    second: LocalTime,
    offset: int,
    last: Option<int>,
    busy: bool,
)
    requires
        fires(quiz, first, offset, last, false),
        due_day(second, fire_second(quiz.0 as int, quiz.1 as int, offset)) == due_day(
            first,
            fire_second(quiz.0 as int, quiz.1 as int, offset),
        ),
    ensures
        !fires(
            quiz,
            second,
            offset,
            due_day(first, fire_second(quiz.0 as int, quiz.1 as int, offset)),
            busy,
        ),
{
}

/// A quiz announced `offset` seconds ahead is fired that long before it starts,
/// today or on a day before.
pub proof fn law_fire_second_is_ahead(hour: int, minute: int, offset: int)
    requires
        0 <= hour < 24,
        0 <= minute < 60,
    ensures
        0 <= fire_second(hour, minute, offset) < 86400,
        0 <= offset <= hour * 3600 + minute * 60 ==> fire_second(hour, minute, offset) + offset
            == hour * 3600 + minute * 60,
        hour * 3600 + minute * 60 < offset <= 86400 ==> fire_second(hour, minute, offset) + offset
            == hour * 3600 + minute * 60 + 86400,
{
}

/// Removing a one-time quiz leaves none like it, and all others.
pub proof fn law_removed_quiz_is_gone(list: Seq<OnceView>, entry: OnceView, other: OnceView)
    requires
        other != entry,
    ensures
        !list.filter(|e: OnceView| e != entry).contains(entry),
        list.contains(other) <==> list.filter(|e: OnceView| e != entry).contains(other),
{
    let keep = |e: OnceView| e != entry;
    let kept: Seq<OnceView> = list.filter(keep);
    if kept.contains(entry) {
        let i: int = kept.index_of(entry);
        list.lemma_filter_pred(keep, i);
    }
    if list.contains(other) {
        let i: int = list.index_of(other);
        list.lemma_filter_contains(keep, i);
    }
    if kept.contains(other) {
        list.lemma_filter_contains_rev(keep, other);
    }
}

/// A quiz is fired early enough for the longest of its reminders: none is
/// longer, and it is one of them where there are any.
pub proof fn law_longest_reminder(times: Seq<u64>, i: int)
    ensures
        0 <= i < times.len() ==> times[i] <= longest(times),
        times.len() > 0 ==> times.contains(longest(times)),
        times.len() == 0 ==> longest(times) == 0,
    decreases times.len(),
{
    if times.len() > 0 {
        let head: Seq<u64> = times.drop_last();
        law_longest_reminder(head, i);
        assert(times[times.len() - 1] == times.last());
        if longest(times) != times.last() || head.len() > 0 {
            if head.contains(longest(head)) {
                let k: int = head.index_of(longest(head));
                assert(times[k] == longest(head));
            }
        }
        if 0 <= i < head.len() {
            assert(head[i] == times[i]);
        }
    }
}

/// A slot fires at every moment of its time, today's or yesterday's, unless it
/// has fired for that day or a quiz is running; and at no other moment.
pub proof fn law_a_slot_fires_in_its_time(
    quiz: (u32, u32),
    now: LocalTime,
    offset: int,
    last: Option<int>,
    busy: bool,
    day: int,
)
    requires
        0 <= now.secs() < 86400,
        0 <= now.day()@ * 86400 + now.secs() - (day * 86400 + (quiz.0 * 3600 + quiz.1 * 60 - offset)
            % 86400) < 300,
    ensures
        fires(quiz, now, offset, last, busy) <==> !busy && last != Some(day),
{
    let f: int = fire_second(quiz.0 as int, quiz.1 as int, offset);
    assert(is_due(now, day, f));
    law_due_from_its_moment(now, day, f);
    assert(due_day(now, f) == Some(day));
}

/// Outside the time of today and of yesterday a slot does not fire.
pub proof fn law_a_slot_does_not_fire_out_of_time(
    quiz: (u32, u32),
    now: LocalTime,
    offset: int,
    last: Option<int>,
    busy: bool,
)
    requires
        forall|day: int|
            !(0 <= now.day()@ * 86400 + now.secs() - #[trigger] fire_moment(
                day,
                (quiz.0 * 3600 + quiz.1 * 60 - offset) % 86400,
            ) < 300),
    ensures
        !fires(quiz, now, offset, last, busy),
{
    let f: int = fire_second(quiz.0 as int, quiz.1 as int, offset);
    assert(!(0 <= now.day()@ * 86400 + now.secs() - fire_moment(now.day()@, f) < 300));
    assert(!(0 <= now.day()@ * 86400 + now.secs() - fire_moment(now.day()@ - 1, f) < 300));
}

/// A one-time quiz waits for its moment, starts within five minutes from it
/// unless a quiz is running, and is missed after that.
pub proof fn law_one_time_quizzes_start_in_time(since: int, busy: bool)
    ensures
        once_of(since, busy) is NotYet <==> since < 0,
        once_of(since, busy) is Missed <==> since >= 300,
        once_of(since, busy) is Fire <==> 0 <= since < 300 && !busy,
        once_of(since, busy) is Dropped <==> 0 <= since < 300 && busy,
{
}

} // verus!
