//! When quizzes start.

use quiz_bot::calendar::{
    is_zone, known_zone, local_instants, utc_now, Date, LocalInstants, LocalTime, Timestamp,
    MAX_DAY, MIN_DAY,
};
use quiz_bot::leaderboard::YearMonth;
use quiz_bot::scheduler::{
    due_fire_date, fire_secs, mark_slot, month_is_settled, monthly_post, reminder_offset,
    remove_once, tick_once, tick_slot, OnceStep, SlotStep,
};
use quiz_bot::state::{ScheduledOnce, State};

fn day(date: &str) -> Date {
    let parts: Vec<u32> = date.split('-').map(|p| p.parse().unwrap()).collect();
    Date::from_ymd_opt(parts[0] as i32, parts[1], parts[2]).unwrap()
}

fn at(date: &str, time: &str) -> LocalTime {
    let parts: Vec<u32> = time.split(':').map(|p| p.parse().unwrap()).collect();
    LocalTime::new(day(date), parts[0] * 3600 + parts[1] * 60 + parts[2], 0).unwrap()
}

#[test]
fn fires_within_the_grace_window_not_only_in_the_exact_minute() {
    let fire = fire_secs(20, 0, 300); // quiz 20:00, reminder 19:55
    assert_eq!(due_fire_date(&at("2026-09-25", "19:54:59"), fire), None);
    assert_eq!(due_fire_date(&at("2026-09-25", "19:55:00"), fire), Some(day("2026-09-25")));
    assert_eq!(due_fire_date(&at("2026-09-25", "19:59:30"), fire), Some(day("2026-09-25")));
    assert_eq!(due_fire_date(&at("2026-09-25", "20:00:00"), fire), None);
}

#[test]
fn a_window_crossing_midnight_belongs_to_the_previous_day() {
    let fire = fire_secs(0, 0, 120); // quiz 00:00, reminder 23:58
    assert_eq!(due_fire_date(&at("2026-09-26", "00:01:00"), fire), Some(day("2026-09-25")));
    assert_eq!(due_fire_date(&at("2026-09-25", "23:58:10"), fire), Some(day("2026-09-25")));
}

#[test]
fn the_fire_second_wraps_to_the_day_before() {
    assert_eq!(fire_secs(20, 0, 300), 19 * 3600 + 55 * 60);
    assert_eq!(fire_secs(0, 0, 120), 23 * 3600 + 58 * 60);
    assert_eq!(fire_secs(0, 0, 0), 0);
    assert_eq!(fire_secs(1, 0, 90_000), 0);
    assert_eq!(fire_secs(0, 0, 86_400 * 3), 0);
}

#[test]
fn the_longest_reminder_decides_when_a_quiz_is_fired() {
    assert_eq!(reminder_offset(&vec![60, 300, 5]), 300);
    assert_eq!(reminder_offset(&Vec::new()), 0);
}

#[test]
fn a_slot_is_fired_once_a_day() {
    let mut state = State::default();
    let now = at("2026-09-25", "19:56:00");
    assert!(matches!(tick_slot(&mut state, "20:00", &now, 300, true), SlotStep::Busy));
    assert!(state.last_quiz_dates.get("20:00").is_none());
    let SlotStep::Fire { date } = tick_slot(&mut state, "20:00", &now, 300, false) else {
        panic!("should fire");
    };
    assert_eq!(date, day("2026-09-25"));
    assert_eq!(state.last_quiz_dates.get("20:00"), Some(&day("2026-09-25")));
    let later = at("2026-09-25", "19:57:00");
    assert!(matches!(
        tick_slot(&mut state, "20:00", &later, 300, false),
        SlotStep::AlreadyFired
    ));
    let tomorrow = at("2026-09-26", "19:57:00");
    assert!(matches!(
        tick_slot(&mut state, "20:00", &tomorrow, 300, false),
        SlotStep::Fire { .. }
    ));
    assert!(matches!(tick_slot(&mut state, "21:00", &later, 300, false), SlotStep::NotDue));
    assert!(matches!(tick_slot(&mut state, "25:00", &later, 300, false), SlotStep::Invalid));
}

#[test]
fn a_mark_replaces_the_one_before() {
    let mut state = State::default();
    mark_slot(&mut state, "20:00", day("2026-09-25"));
    mark_slot(&mut state, "20:00", day("2026-09-26"));
    assert_eq!(state.last_quiz_dates.len(), 1);
    assert_eq!(state.last_quiz_dates.get("20:00"), Some(&day("2026-09-26")));
}

fn once(time: &str, date: &str) -> ScheduledOnce {
    ScheduledOnce { quiz_time: time.to_owned(), date: day(date) }
}

#[test]
fn a_one_time_quiz_is_fired_missed_or_dropped_and_then_gone() {
    let outcome = |time: &str, now: &LocalTime, busy: bool| {
        let mut state = State::default();
        state.scheduled_once.push(once(time, "2026-09-25"));
        state.scheduled_once.push(once("10:00", "2026-09-26"));
        let entry = once(time, "2026-09-25");
        let step = tick_once(&mut state, &entry, now, 300, busy);
        (step, state.scheduled_once.len())
    };
    let now = at("2026-09-25", "19:55:00");
    assert!(matches!(outcome("20:00", &now, false), (OnceStep::Fire, 1)));
    assert!(matches!(outcome("20:00", &now, true), (OnceStep::Dropped, 1)));
    let early = at("2026-09-25", "19:54:59");
    assert!(matches!(outcome("20:00", &early, false), (OnceStep::NotYet, 2)));
    let late = at("2026-09-25", "20:00:00");
    assert!(matches!(outcome("20:00", &late, true), (OnceStep::Missed, 1)));
    assert!(matches!(outcome("soon", &now, false), (OnceStep::Invalid, 1)));
}

#[test]
fn removing_a_quiz_removes_no_other() {
    let mut state = State::default();
    state.scheduled_once.push(once("20:00", "2026-09-25"));
    state.scheduled_once.push(once("20:00", "2026-09-26"));
    state.scheduled_once.push(once("21:00", "2026-09-25"));
    state.scheduled_once.push(once("20:00", "2026-09-25"));
    remove_once(&mut state, &once("20:00", "2026-09-25"));
    let left: Vec<_> =
        state.scheduled_once.iter().map(|e| (e.quiz_time.clone(), e.date.text())).collect();
    assert_eq!(
        left,
        vec![
            ("20:00".to_owned(), "2026-09-26".to_owned()),
            ("21:00".to_owned(), "2026-09-25".to_owned())
        ]
    );
}

#[test]
fn a_month_is_settled_an_hour_after_it_ended() {
    assert!(!month_is_settled(&at("2026-10-01", "00:59:59")));
    assert!(month_is_settled(&at("2026-10-01", "01:00:00")));
    assert!(month_is_settled(&at("2026-10-02", "00:00:00")));
    let post = monthly_post(day("2027-01-02"));
    assert_eq!(post.month, YearMonth { year: 2026, month: 12 });
    assert_eq!(post.period, "2026-12");
    assert_eq!(post.transaction_id, "quiz-monthly-leaderboard-2026-12");
}

// ── The calendar ─────────────────────────────────────────────────────────────

#[test]
fn dates_are_those_of_chrono() {
    for number in (-2000..800_000).step_by(97) {
        let date = Date::from_number(number).unwrap();
        let expected = chrono::NaiveDate::from_num_days_from_ce_opt(number).unwrap();
        assert_eq!(date.text(), expected.to_string());
        let (y, m, d) = date.ymd();
        assert_eq!(chrono::NaiveDate::from_ymd_opt(y, m, d), Some(expected));
        assert_eq!(Date::from_ymd_opt(y, m, d), Some(date));
    }
    assert_eq!(Date::from_ymd_opt(2026, 2, 29), None);
    assert_eq!(day("2026-03-01").day_before(), Some(day("2026-02-28")));
    assert_eq!(day("2028-02-28").day_after(), Some(day("2028-02-29")));
}

#[test]
fn the_ends_of_the_calendar_are_those_of_chrono() {
    let first = Date::from_number(MIN_DAY).unwrap();
    let last = Date::from_number(MAX_DAY).unwrap();
    assert_eq!(first.text(), chrono::NaiveDate::MIN.to_string());
    assert_eq!(last.text(), chrono::NaiveDate::MAX.to_string());
    assert_eq!(Date::from_number(MIN_DAY - 1), None);
    assert_eq!(Date::from_number(MAX_DAY + 1), None);
    assert_eq!(first.day_before(), None);
    assert_eq!(last.day_after(), None);
}

#[test]
fn clocks_show_local_time() {
    // 2026-07-01 12:00:00 UTC.
    let instant = 1_782_907_200;
    let berlin = LocalTime::in_zone("Europe/Berlin", instant, 5).unwrap();
    assert_eq!(berlin.date(), day("2026-07-01"));
    assert_eq!(berlin.second(), 14 * 3600);
    assert_eq!(berlin.nano(), 5);
    let tokyo = LocalTime::in_zone("Asia/Tokyo", instant + 4 * 3600, 0).unwrap();
    assert_eq!(tokyo, at("2026-07-02", "01:00:00"));
    let unknown = LocalTime::in_zone("Atlantis", instant, 0).unwrap();
    assert_eq!(unknown, at("2026-07-01", "12:00:00"));
    assert_eq!(LocalTime::in_zone("UTC", i64::MAX, 0), None);
    assert_eq!(LocalTime::new(day("2026-07-01"), 86_400, 0), None);
    assert!(is_zone("Europe/Berlin"));
    assert!(!is_zone("Atlantis"));
}

#[test]
fn a_slot_is_not_due_before_its_moment() {
    let early = LocalTime::new(day("2026-09-25"), 71_699, 500_000_000).unwrap();
    assert_eq!(due_fire_date(&early, 71_700), None);
    let due = LocalTime::new(day("2026-09-25"), 71_700, 1).unwrap();
    assert_eq!(due_fire_date(&due, 71_700), Some(day("2026-09-25")));
    let late = LocalTime::new(day("2026-09-25"), 71_999, 999_999_999).unwrap();
    assert_eq!(due_fire_date(&late, 71_700), Some(day("2026-09-25")));
}

#[test]
fn days_are_counted_as_the_calendar_does() {
    let number = |y, m, d| Date::from_ymd_opt(y, m, d).map(|date| date.number());
    assert_eq!(number(1, 1, 1), Some(1));
    assert_eq!(number(1, 12, 31), Some(365));
    assert_eq!(number(0, 12, 31), Some(0));
    assert_eq!(number(0, 1, 1), Some(-365));
    assert_eq!(number(-262_143, 1, 1), Some(MIN_DAY));
    assert_eq!(number(262_142, 12, 31), Some(MAX_DAY));
    assert_eq!(number(1970, 1, 1), Some(719_163));
    assert_eq!(number(2000, 2, 29), Some(730_179));
    assert_eq!(number(2000, 3, 1), Some(730_180));
    assert_eq!(number(1900, 2, 29), None);
    assert_eq!(number(2023, 2, 29), None);
    assert_eq!(number(2024, 4, 31), None);
    assert_eq!(number(2024, 13, 1), None);
    assert_eq!(number(2024, 0, 1), None);
    assert_eq!(number(2024, 1, 0), None);
    assert_eq!(number(262_143, 1, 1), None);
}

#[test]
fn months_follow_one_another_without_a_gap() {
    for zone in ["UTC", "Europe/Berlin", "Pacific/Apia", "America/Sao_Paulo"] {
        let mut month = YearMonth { year: 2010, month: 11 };
        let (_, mut end) = month.utc_bounds(zone).ok().unwrap();
        for _ in 0..60 {
            month = YearMonth::after(month.year, month.month);
            let bounds = month.utc_bounds(zone).ok().unwrap();
            assert_eq!(bounds.0, end);
            assert!(bounds.0 < bounds.1);
            end = bounds.1;
        }
    }
    assert!(YearMonth { year: 2026, month: 13 }.utc_bounds("UTC").is_err());
    assert!(YearMonth { year: 2026, month: 0 }.utc_bounds("UTC").is_err());
}

#[test]
fn unknown_zones_count_as_utc() {
    assert_eq!(known_zone("Asia/Tokyo"), "Asia/Tokyo");
    assert_eq!(known_zone("Atlantis"), "UTC");
    assert_eq!(known_zone("UTC"), "UTC");
    for number in [MIN_DAY, 719_163, MAX_DAY] {
        let date = Date::from_number(number).unwrap();
        let expected = (i64::from(number) - 719_163) * 86_400 + 7;
        for zone in ["UTC", "Atlantis"] {
            match local_instants(zone, date, 7) {
                LocalInstants::Once(instant) => assert_eq!(instant, expected),
                _ => panic!("clocks in UTC show every second once"),
            }
        }
    }
}

#[test]
fn the_first_28_days_of_every_month_are_there() {
    for year in [-262_143, -1, 0, 1900, 2024, 2026, 262_142] {
        for month in 1..=12 {
            for day in 1..=28 {
                let date = Date::from_ymd_opt(year, month, day).unwrap();
                assert_eq!(date.ymd(), (year, month, day));
            }
        }
    }
}

#[test]
fn months_have_bounds_in_utc() {
    let month = YearMonth { year: 2026, month: 7 };
    match month.utc_bounds("UTC") {
        Ok(bounds) => assert_eq!(bounds, (1_782_864_000, 1_785_542_400)),
        Err(_) => panic!("every month has bounds in UTC"),
    }
    assert!(YearMonth { year: -262_143, month: 1 }.utc_bounds("UTC").is_ok());
    assert!(YearMonth { year: 262_142, month: 11 }.utc_bounds("UTC").is_ok());
    assert!(YearMonth { year: 262_142, month: 12 }.utc_bounds("UTC").is_err());
}

#[test]
fn the_present_lies_after_the_past() {
    let now = utc_now();
    assert!(now.nanos > Timestamp::from_parts(1_600_000_000, 0).nanos);
    let end = (i64::from(MAX_DAY) + 1 - 719_163) * 86_400;
    assert!(now.nanos < Timestamp::from_parts(end, 0).nanos);
    assert_eq!(Timestamp::from_parts(2, 3).nanos, 2_000_000_003);
}

#[test]
fn the_first_start_is_noted_once() {
    let mut state = State::default();
    let first = Timestamp::from_parts(10, 0);
    assert!(state.note_start(first));
    assert!(!state.note_start(Timestamp::from_parts(20, 0)));
    assert_eq!(state.created_at, Some(first));
}
