//! Scheduling a quiz once, and cancelling it.

use vstd::prelude::*;

use crate::calendar::{date_text, LocalTime, MAX_DAY};
use crate::config::{clock_text, quiz_time, ScheduleConfig};
use crate::numbers::push_zero_padded;
use crate::scheduler::{fire_moment, fire_second, fire_secs, same_but_once};
use crate::state::{once_views, OnceView, ScheduledOnce, State};
use crate::text::{join, join_texts, same, texts};

verus! {

/// A time of the day as text.
pub fn clock(hour: u32, minute: u32) -> (r: String)
    ensures
        r@ == clock_text(hour as nat, minute as nat),
{
    let mut out = String::new();
    push_zero_padded(&mut out, hour as u64, 2);
    out.push(':');
    push_zero_padded(&mut out, minute as u64, 2);
    assert(out@ =~= clock_text(hour as nat, minute as nat));
    out
}

/// The line of a quiz that is scheduled.
pub open spec fn once_line(e: OnceView) -> Seq<char> {
    "• "@ + e.quiz_time + " on "@ + date_text(e.date@)
}

/// The reply that lists what is scheduled.
pub open spec fn pending_of(list: Seq<OnceView>) -> Seq<char> {
    if list.len() == 0 {
        "No quizzes scheduled.\nUsage: !schedulequiz HH:MM"@
    } else {
        join(seq!["📅 Pending quizzes:"@] + list.map_values(|e: OnceView| once_line(e)), "\n"@)
    }
}

fn pending_text(list: &Vec<ScheduledOnce>) -> (r: String)
    ensures
        r@ == pending_of(once_views(list@)),
{
    let ghost all: Seq<OnceView> = once_views(list@);
    assert(all.len() == list.len());
    if list.len() == 0 {
        return "No quizzes scheduled.\nUsage: !schedulequiz HH:MM".to_owned();
    }
    let mut lines: Vec<String> = Vec::new();
    lines.push("📅 Pending quizzes:".to_owned());
    let mut i: usize = 0;
    assert(texts(lines@) =~= seq!["📅 Pending quizzes:"@] + all.take(0).map_values(
        |e: OnceView| once_line(e),
    ));
    while i < list.len()
        invariant
            i <= list.len(),
            all == once_views(list@),
            texts(lines@) == seq!["📅 Pending quizzes:"@] + all.take(i as int).map_values(
                |e: OnceView| once_line(e),
            ),
        decreases list.len() - i,
    {
        let ghost before: Seq<String> = lines@;
        let mut line = "• ".to_owned();
        line.append(list[i].quiz_time.as_str());
        line.append(" on ");
        line.append(list[i].date.text().as_str());
        let ghost text: Seq<char> = line@;
        lines.push(line);
        proof {
            assert(text == once_line(all[i as int]));
            assert(texts(lines@) =~= texts(before).push(text));
            assert(all.take(i + 1).map_values(|e: OnceView| once_line(e)) =~= all.take(
                i as int,
            ).map_values(|e: OnceView| once_line(e)).push(text));
        }
        i = i + 1;
    }
    assert(all.take(list.len() as int) =~= all);
    join_texts(&lines, "\n")
}

/// The reply to a time that is none.
pub open spec fn invalid_of(argument: Seq<char>) -> Seq<char> {
    "❌ Invalid: \""@ + argument + "\" · use HH:MM"@
}

fn invalid_text(argument: &str) -> (r: String)
    ensures
        r@ == invalid_of(argument@),
{
    let mut out = "❌ Invalid: \"".to_owned();
    out.append(argument);
    out.append("\" · use HH:MM");
    out
}

/// The day on which a quiz is fired that is scheduled at `now`: today, or
/// tomorrow where the moment has passed.
pub open spec fn schedule_day(now: LocalTime, fire_secs: int) -> int {
    if now.secs() >= fire_secs {
        now.day()@ + 1
    } else {
        now.day()@
    }
}

/// The reply to a quiz that was scheduled.
pub open spec fn scheduled_of(
    today: bool,
    time: Seq<char>,
    fire_secs: int,
    offset: int,
) -> Seq<char> {
    let head: Seq<char> = "✅ Quiz "@ + (if today {
        "today"@
    } else {
        "tomorrow"@
    }) + " at "@ + time;
    if offset > 0 {
        head + " · reminder "@ + clock_text(
            (fire_secs / 3600) as nat,
            ((fire_secs % 3600) / 60) as nat,
        ) + "\nCancel: !cancelquiz "@ + time
    } else {
        head + "\nCancel: !cancelquiz "@ + time
    }
}

/// The reply to a quiz that is scheduled already.
pub open spec fn duplicate_of(time: Seq<char>, day: int) -> Seq<char> {
    "⚠️ A quiz at "@ + time + " on "@ + date_text(day) + " is already scheduled."@
}

/// Whether a list holds a quiz at that time on that day.
pub open spec fn holds_quiz(list: Seq<OnceView>, time: Seq<char>, day: int) -> bool {
    exists|i: int|
        0 <= i < list.len() && (#[trigger] list[i]).quiz_time == time && list[i].date@ == day
}

/// What scheduling a quiz by the argument of the command does: the reply, and
/// the day of a quiz that is added at the end of the list.
pub open spec fn schedule_result(
    list: Seq<OnceView>,
    argument: Seq<char>,
    now: LocalTime,
    offset: int,
) -> (Seq<char>, Option<(Seq<char>, int)>) {
    if argument.len() == 0 {
        (pending_of(list), None)
    } else {
        match quiz_time(argument) {
            None => (invalid_of(argument), None),
            Some((hour, minute)) => {
                let secs: int = fire_second(hour as int, minute as int, offset);
                let day: int = schedule_day(now, secs);
                let time: Seq<char> = clock_text(hour as nat, minute as nat);
                if holds_quiz(list, time, day) {
                    (duplicate_of(time, day), None)
                } else {
                    (
                        scheduled_of(day == now.day()@, time, secs, offset),
                        Some((time, day)),
                    )
                }
            },
        }
    }
}

/// The list with a quiz added, if there is one.
pub open spec fn is_added(
    before: Seq<OnceView>,
    after: Seq<OnceView>,
    added: Option<(Seq<char>, int)>,
) -> bool {
    match added {
        None => after == before,
        Some((time, day)) => {
            &&& after.len() == before.len() + 1
            &&& after.drop_last() == before
            &&& after.last().quiz_time == time
            &&& after.last().date@ == day
        },
    }
}

/// Whether the day on which a quiz would fire is within the calendar, where the
/// argument asks for one.
pub open spec fn can_schedule(argument: Seq<char>, now: LocalTime, offset: int) -> bool {
    argument.len() > 0 ==> (quiz_time(argument) matches Some((hour, minute)) ==> {
        &&& -offset <= i64::MAX - 86400
        &&& schedule_day(now, fire_second(hour as int, minute as int, offset)) <= MAX_DAY
    })
}

/// Whether `schedule_quiz` can be asked, see `can_schedule`.
pub fn schedulable(argument: &str, now: &LocalTime, offset: i64) -> (r: bool)
    ensures
        r == can_schedule(argument@, *now, offset as int),
{
    if crate::text::chars_of(argument).len() == 0 {
        return true;
    }
    match ScheduleConfig::parse_quiz_time(argument) {
        None => true,
        Some((hour, minute)) => {
            if offset < -(i64::MAX - 86400) {
                return false;
            }
            let secs: i64 = fire_secs(hour, minute, offset);
            let today: i32 = now.date().number();
            (now.second() as i64) < secs || today < MAX_DAY
        },
    }
}

/// Schedules a quiz once by the argument of the command, or lists what is
/// scheduled where there is none. Returns the reply, and whether the state
/// changed.
pub fn schedule_quiz(state: &mut State, argument: &str, now: &LocalTime, offset: i64) -> (r: (
    String,
    bool,
))
    requires
        can_schedule(argument@, *now, offset as int),
    ensures
        ({
            let list: Seq<OnceView> = once_views(old(state).scheduled_once@);
            let (reply, added) = schedule_result(list, argument@, *now, offset as int);
            &&& r.0@ == reply
            &&& r.1 == (added is Some)
            &&& is_added(list, once_views(final(state).scheduled_once@), added)
        }),
        same_but_once(*old(state), *final(state)),
{
    let ghost list: Seq<OnceView> = once_views(state.scheduled_once@);
    if crate::text::chars_of(argument).len() == 0 {
        return (pending_text(&state.scheduled_once), false);
    }
    let (qh, qm) = match ScheduleConfig::parse_quiz_time(argument) {
        Some(t) => t,
        None => {
            return (invalid_text(argument), false);
        },
    };
    let secs: i64 = fire_secs(qh, qm, offset);
    let today = now.date();
    let is_today: bool = (now.second() as i64) < secs;
    let date = if is_today {
        today
    } else {
        match today.day_after() {
            Some(d) => d,
            None => today,
        }
    };
    let time = clock(qh, qm);
    let mut i: usize = 0;
    while i < state.scheduled_once.len()
        invariant
            i <= state.scheduled_once.len(),
            *state == *old(state),
            list == once_views(state.scheduled_once@),
            forall|k: int|
                0 <= k < i ==> !((#[trigger] list[k]).quiz_time == time@ && list[k].date@
                    == date@),
            argument@.len() > 0,
            quiz_time(argument@) == Some((qh, qm)),
            time@ == clock_text(qh as nat, qm as nat),
            secs == fire_second(qh as int, qm as int, offset as int),
            date@ == schedule_day(*now, secs as int),
        decreases state.scheduled_once.len() - i,
    {
        let e: &ScheduledOnce = &state.scheduled_once[i];
        assert(list[i as int] == e@);
        if same(e.quiz_time.as_str(), time.as_str()) && e.date.same_day(&date) {
            assert(holds_quiz(list, time@, date@));
            let mut out = "⚠️ A quiz at ".to_owned();
            out.append(time.as_str());
            out.append(" on ");
            out.append(date.text().as_str());
            out.append(" is already scheduled.");
            return (out, false);
        }
        i = i + 1;
    }
    assert(!holds_quiz(list, time@, date@));
    let ghost before: Seq<ScheduledOnce> = state.scheduled_once@;
    state.scheduled_once.push(ScheduledOnce { quiz_time: time.clone(), date });
    proof {
        let after: Seq<OnceView> = once_views(state.scheduled_once@);
        assert(after.drop_last() =~= list);
    }
    let mut out = "✅ Quiz ".to_owned();
    out.append(if is_today { "today" } else { "tomorrow" });
    out.append(" at ");
    out.append(time.as_str());
    if offset > 0 {
        out.append(" · reminder ");
        let hour: u32 = (secs as u64 / 3600) as u32;
        let minute: u32 = ((secs as u64 % 3600) / 60) as u32;
        out.append(clock(hour, minute).as_str());
    }
    out.append("\nCancel: !cancelquiz ");
    out.append(time.as_str());
    (out, true)
}

/// What cancelling by the argument of the command does: the reply, and the
/// time of the quizzes that are removed.
pub open spec fn cancel_result(list: Seq<OnceView>, argument: Seq<char>) -> (
    Seq<char>,
    Option<Seq<char>>,
) {
    if argument.len() == 0 {
        ("Usage: !cancelquiz HH:MM\nPending: !schedulequiz"@, None)
    } else {
        match quiz_time(argument) {
            None => (invalid_of(argument), None),
            Some((hour, minute)) => {
                let time: Seq<char> = clock_text(hour as nat, minute as nat);
                if exists|i: int| 0 <= i < list.len() && (#[trigger] list[i]).quiz_time == time {
                    ("✅ Cancelled quiz at "@ + time + "."@, Some(time))
                } else {
                    ("⚠️ No quiz scheduled for "@ + time + "."@, Some(time))
                }
            },
        }
    }
}

/// The list without the quizzes at a time, if there is one.
pub open spec fn without_time(list: Seq<OnceView>, time: Option<Seq<char>>) -> Seq<OnceView> {
    match time {
        None => list,
        Some(t) => list.filter(|e: OnceView| e.quiz_time != t),
    }
}

/// Cancels the quizzes that are scheduled at the time in the argument of the
/// command. Returns the reply, and whether the state is to be saved.
pub fn cancel_quiz(state: &mut State, argument: &str) -> (r: (String, bool))
    ensures
        ({
            let list: Seq<OnceView> = once_views(old(state).scheduled_once@);
            let (reply, time) = cancel_result(list, argument@);
            &&& r.0@ == reply
            &&& r.1 == (time is Some)
            &&& once_views(final(state).scheduled_once@) == without_time(list, time)
        }),
        same_but_once(*old(state), *final(state)),
{
    let ghost list: Seq<OnceView> = once_views(state.scheduled_once@);
    if crate::text::chars_of(argument).len() == 0 {
        return ("Usage: !cancelquiz HH:MM\nPending: !schedulequiz".to_owned(), false);
    }
    let (qh, qm) = match ScheduleConfig::parse_quiz_time(argument) {
        Some(t) => t,
        None => {
            return (invalid_text(argument), false);
        },
    };
    let time = clock(qh, qm);
    let ghost t: Seq<char> = time@;
    let ghost keep = |e: OnceView| e.quiz_time != t;
    let mut kept: Vec<ScheduledOnce> = Vec::new();
    let mut found: bool = false;
    let mut i: usize = 0;
    assert(list.take(0).filter(keep) =~= Seq::<OnceView>::empty()) by {
        reveal(Seq::filter);
    }
    while i < state.scheduled_once.len()
        invariant
            i <= state.scheduled_once.len(),
            *state == *old(state),
            list == once_views(state.scheduled_once@),
            t == time@,
            keep == (|e: OnceView| e.quiz_time != t),
            once_views(kept@) == list.take(i as int).filter(keep),
            found == (exists|k: int| 0 <= k < i && (#[trigger] list[k]).quiz_time == t),
        decreases state.scheduled_once.len() - i,
    {
        let e: &ScheduledOnce = &state.scheduled_once[i];
        proof {
            assert(list[i as int] == e@);
            assert(list.take(i + 1).drop_last() =~= list.take(i as int));
            assert(list.take(i + 1).last() == e@);
            reveal(Seq::filter);
        }
        if same(e.quiz_time.as_str(), time.as_str()) {
            found = true;
        } else {
            let ghost before: Seq<ScheduledOnce> = kept@;
            kept.push(e.copy());
            assert(once_views(kept@) =~= once_views(before).push(list[i as int]));
        }
        i = i + 1;
    }
    assert(list.take(list.len() as int) =~= list);
    assert(list.len() == state.scheduled_once.len());
    state.scheduled_once = kept;
    let mut out = if found {
        "✅ Cancelled quiz at ".to_owned()
    } else {
        "⚠️ No quiz scheduled for ".to_owned()
    };
    out.append(time.as_str());
    out.append(".");
    (out, true)
}

// ── Laws ─────────────────────────────────────────────────────────────────────

/// Whether no quiz is listed twice.
pub open spec fn is_distinct(list: Seq<OnceView>) -> bool {
    forall|i: int, j: int|
        0 <= i < j < list.len() ==> !((#[trigger] list[i]).quiz_time == (
        #[trigger] list[j]).quiz_time && list[i].date@ == list[j].date@)
}

/// Scheduling never lists a quiz twice.
pub proof fn law_scheduling_makes_no_duplicates(
    list: Seq<OnceView>,
    argument: Seq<char>,
    now: LocalTime,
    offset: int,
    after: Seq<OnceView>,
)
    requires
        is_distinct(list),
        is_added(list, after, schedule_result(list, argument, now, offset).1),
    ensures
        is_distinct(after),
{
    let added: Option<(Seq<char>, int)> = schedule_result(list, argument, now, offset).1;
    if added is Some {
        let (time, day) = added->0;
        assert(!holds_quiz(list, time, day));
        assert forall|i: int, j: int| 0 <= i < j < after.len() implies !((
        #[trigger] after[i]).quiz_time == (#[trigger] after[j]).quiz_time && after[i].date@
            == after[j].date@) by {
            assert(after.drop_last()[i] == list[i]);
            if j < list.len() {
                assert(after.drop_last()[j] == list[j]);
            } else {
                assert(after[j] == after.last());
            }
        }
    }
}

/// A quiz that is scheduled lies ahead, by a day at most.
pub proof fn law_scheduled_quiz_lies_ahead(
    list: Seq<OnceView>,
    argument: Seq<char>,
    now: LocalTime,
    offset: int,
)
    requires
        0 <= now.secs() < 86400,
        schedule_result(list, argument, now, offset).1 is Some,
    ensures
        ({
            let (hour, minute) = quiz_time(argument)->0;
            let (time, day) = schedule_result(list, argument, now, offset).1->0;
            let moment: int = fire_moment(
                day,
                fire_second(hour as int, minute as int, offset),
            );
            now.day()@ * 86400 + now.secs() < moment <= now.day()@ * 86400 + now.secs() + 86400
        }),
{
}

/// Once a time is cancelled, no quiz at that time is left, and all others are.
pub proof fn law_cancelled_quizzes_are_gone(list: Seq<OnceView>, time: Seq<char>, other: OnceView)
    requires
        other.quiz_time != time,
    ensures
        forall|i: int|
            0 <= i < without_time(list, Some(time)).len() ==> (#[trigger] without_time(
                list,
                Some(time),
            )[i]).quiz_time != time,
        list.contains(other) <==> without_time(list, Some(time)).contains(other),
{
    let keep = |e: OnceView| e.quiz_time != time;
    let kept: Seq<OnceView> = list.filter(keep);
    assert forall|i: int| 0 <= i < kept.len() implies (#[trigger] kept[i]).quiz_time != time by {
        list.lemma_filter_pred(keep, i);
    }
    if list.contains(other) {
        let i: int = list.index_of(other);
        list.lemma_filter_contains(keep, i);
    }
    if kept.contains(other) {
        list.lemma_filter_contains_rev(keep, other);
    }
}

/// Cancelling undoes scheduling: where no quiz was listed at the time, the
/// list is as before.
pub proof fn law_cancelling_undoes_scheduling(
    list: Seq<OnceView>,
    after: Seq<OnceView>,
    time: Seq<char>,
    day: int,
)
    requires
        forall|i: int| 0 <= i < list.len() ==> (#[trigger] list[i]).quiz_time != time,
        is_added(list, after, Some((time, day))),
    ensures
        without_time(after, Some(time)) == list,
{
    let keep = |e: OnceView| e.quiz_time != time;
    reveal(Seq::filter);
    assert(after.drop_last() == list);
    lemma_filter_all(list, time);
}

proof fn lemma_filter_all(list: Seq<OnceView>, time: Seq<char>)
    requires
        forall|i: int| 0 <= i < list.len() ==> (#[trigger] list[i]).quiz_time != time,
    ensures
        list.filter(|e: OnceView| e.quiz_time != time) == list,
    decreases list.len(),
{
    reveal(Seq::filter);
    if list.len() > 0 {
        assert forall|i: int| 0 <= i < list.drop_last().len() implies (
        #[trigger] list.drop_last()[i]).quiz_time != time by {
            assert(list.drop_last()[i] == list[i]);
        }
        lemma_filter_all(list.drop_last(), time);
        assert(list[list.len() - 1].quiz_time != time);
        assert(list.drop_last().push(list.last()) =~= list);
    }
}

/// Every quiz that is scheduled has a line in the list of those pending, with
/// its time and its day.
pub proof fn law_every_pending_quiz_is_listed(list: Seq<OnceView>) -> (lines: Seq<Seq<char>>)
    requires
        list.len() > 0,
    ensures
        pending_of(list) == join(lines, "\n"@),
        lines.len() == 1 + list.len(),
        forall|i: int| #![trigger list[i]]
            0 <= i < list.len() ==> lines[1 + i] == "• "@ + list[i].quiz_time + " on "@ + date_text(
                list[i].date@,
            ),
{
    seq!["📅 Pending quizzes:"@] + list.map_values(|e: OnceView| once_line(e))
}

/// A quiz is scheduled exactly where the argument is a time of the day and no
/// quiz is listed at that time on that day. It is listed under that time, on
/// today's date where its moment lies ahead today, on tomorrow's otherwise.
pub proof fn law_what_scheduling_adds(
    list: Seq<OnceView>,
    argument: Seq<char>,
    now: LocalTime,
    offset: int,
)
    requires
        argument.len() > 0,
    ensures
        ({
            let (reply, added) = schedule_result(list, argument, now, offset);
            match quiz_time(argument) {
                None => added is None && reply == "❌ Invalid: \""@ + argument
                    + "\" · use HH:MM"@,
                Some((hour, minute)) => {
                    let time: Seq<char> = clock_text(hour as nat, minute as nat);
                    let fire: int = (hour * 3600 + minute * 60 - offset) % 86400;
                    let day: int = if now.secs() < fire {
                        now.day()@
                    } else {
                        now.day()@ + 1
                    };
                    let listed: bool = exists|i: int|
                        0 <= i < list.len() && (#[trigger] list[i]).quiz_time == time
                            && list[i].date@ == day;
                    &&& !listed ==> added == Some((time, day))
                    &&& listed ==> added is None && reply == "⚠️ A quiz at "@ + time + " on "@
                        + date_text(day) + " is already scheduled."@
                },
            }
        }),
{
}

/// The reply to a quiz that is scheduled says whether it is today or tomorrow
/// and when, how to cancel it, and when it is announced where it is.
pub proof fn law_scheduled_replies_tell_when(
    today: bool,
    time: Seq<char>,
    hour: nat,
    minute: nat,
    second: nat,
    offset: int,
)
    requires
        hour < 24,
        minute < 60,
        second < 60,
    ensures
        ({
            let fire: int = (hour * 3600 + minute * 60 + second) as int;
            let reply: Seq<char> = scheduled_of(today, time, fire, offset);
            let day: Seq<char> = if today {
                "today"@
            } else {
                "tomorrow"@
            };
            &&& offset > 0 ==> reply == "✅ Quiz "@ + day + " at "@ + time + " · reminder "@
                + clock_text(hour, minute) + "\nCancel: !cancelquiz "@ + time
            &&& offset <= 0 ==> reply == "✅ Quiz "@ + day + " at "@ + time
                + "\nCancel: !cancelquiz "@ + time
        }),
{
    let fire: int = (hour * 3600 + minute * 60 + second) as int;
    assert(fire / 3600 == hour);
    assert((fire % 3600) / 60 == minute);
}

/// Cancelling removes the quizzes at the time that the argument writes, and says
/// whether there were any; what is no time removes nothing.
pub proof fn law_what_cancelling_removes(list: Seq<OnceView>, argument: Seq<char>)
    ensures
        ({
            let (reply, time) = cancel_result(list, argument);
            match quiz_time(argument) {
                Some((hour, minute)) if argument.len() > 0 => {
                    let clock: Seq<char> = clock_text(hour as nat, minute as nat);
                    let listed: bool = exists|i: int|
                        0 <= i < list.len() && (#[trigger] list[i]).quiz_time == clock;
                    &&& time == Some(clock)
                    &&& listed ==> reply == "✅ Cancelled quiz at "@ + clock + "."@
                    &&& !listed ==> reply == "⚠️ No quiz scheduled for "@ + clock + "."@
                },
                _ => time is None && without_time(list, time) == list,
            }
        }),
{
}

} // verus!
