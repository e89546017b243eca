//! The leaderboard of a month, and the order of the all-time one.

use quiz_bot::calendar::{Date, LocalInstants};
use quiz_bot::db::{
    rank_entries, user_stats_of, LeaderboardEntry, MonthlyLeaderboardEntry, UserStatsRow,
};
use quiz_bot::format::mentionify_with_names;
use quiz_bot::leaderboard::{
    earliest, leaderboard_text, mention_names, monthly_content, percentage, BoundsError, YearMonth,
};

fn wilson_lower_bound(correct: i64, total: i64) -> f64 {
    if total == 0 {
        return 0.0;
    }
    let n = total as f64;
    let p = correct as f64 / n;
    let z = 1.96_f64;
    let z2 = z * z;
    let margin = z * (p * (1.0 - p) / n + z2 / (4.0 * n * n)).sqrt();
    (p + z2 / (2.0 * n) - margin) / (1.0 + z2 / n)
}

fn percent(correct: i64, total: i64) -> String {
    format!("{:.0}", wilson_lower_bound(correct, total) * 100.0)
}

fn entry(name: &str, correct: i64, total: i64) -> MonthlyLeaderboardEntry {
    MonthlyLeaderboardEntry {
        user_id: format!("@{}:example.org", name.to_lowercase()),
        display_name: Some(name.to_owned()),
        total_correct: correct,
        total_questions: total,
        rounds_played: 4,
        wilson_percent: percent(correct, total),
    }
}

fn entry_without_display_name(
    localpart: &str,
    correct: i64,
    total: i64,
) -> MonthlyLeaderboardEntry {
    MonthlyLeaderboardEntry {
        user_id: format!("@{localpart}:example.org"),
        display_name: None,
        total_correct: correct,
        total_questions: total,
        rounds_played: 4,
        wilson_percent: percent(correct, total),
    }
}

fn day(year: i32, month: u32, day: u32) -> Date {
    Date::from_ymd_opt(year, month, day).unwrap()
}

#[test]
fn previous_month_crosses_year_boundary() {
    assert_eq!(YearMonth::previous(day(2027, 1, 2)), YearMonth { year: 2026, month: 12 });
    assert_eq!(YearMonth::previous(day(2026, 3, 31)), YearMonth { year: 2026, month: 2 });
}

#[test]
fn local_month_bounds_handle_dst_and_month_lengths() {
    let month = YearMonth { year: 2026, month: 3 };
    let Ok((start, end)) = month.utc_bounds("Europe/Berlin") else {
        panic!("the month has bounds");
    };
    let text = |secs: i64| chrono::DateTime::from_timestamp(secs, 0).unwrap().to_rfc3339();
    assert_eq!(text(start), "2026-02-28T23:00:00+00:00");
    assert_eq!(text(end), "2026-03-31T22:00:00+00:00");
}

#[test]
fn leaderboard_text_embeds_raw_mxids_for_the_mention_pipeline() {
    let text = leaderboard_text("All-time", 653, &vec![entry("Yakari", 98, 130)]);
    assert_eq!(
        text,
        "**🏆 All-time · 653 Qs:**\n\
         🥇 @yakari:example.org · 98/130 (75%) · ⭐67%"
    );
}

#[test]
fn mention_names_omits_entries_without_a_usable_display_name() {
    let entries = vec![entry("Alice", 1, 1), entry_without_display_name("ghost", 0, 1)];
    let names = mention_names(&entries);
    assert_eq!(names.get("@alice:example.org").map(String::as_str), Some("Alice"));
    assert!(!names.contains_key("@ghost:example.org"));
}

#[test]
fn monthly_leaderboard_uses_mention_pills_with_display_names() {
    let content = monthly_content(
        YearMonth { year: 2026, month: 7 },
        42,
        &vec![entry("Alice", 30, 40), entry("Bob", 12, 20)],
    );
    let html = content.html.expect("should have HTML body");
    assert_eq!(
        content.plain,
        "🏆 July · 42 Qs:\n\
         🥇 Alice · 30/40 (75%) · ⭐60%\n\
         🥈 Bob · 12/20 (60%) · ⭐39%"
    );
    assert!(html.contains(r#"href="https://matrix.to/#/@alice:example.org""#));
    assert!(html.contains(">Alice<"));
    assert!(html.contains(r#"href="https://matrix.to/#/@bob:example.org""#));
    assert!(html.contains(">Bob<"));
    assert!(html.contains("<strong>"), "header should still be bold");
}

#[test]
fn leaderboard_falls_back_to_localpart_when_display_name_is_missing() {
    let content = monthly_content(
        YearMonth { year: 2026, month: 7 },
        5,
        &vec![entry_without_display_name("mysterious", 3, 5)],
    );
    let html = content.html.expect("should have HTML body");
    assert!(content.plain.contains("mysterious"));
    assert!(html.contains(r#"href="https://matrix.to/#/@mysterious:example.org""#));
    assert!(html.contains(">mysterious<"));
}

#[test]
fn all_time_leaderboard_reply_uses_the_same_mention_pipeline_as_monthly() {
    let entries = vec![entry("Yakari", 98, 130)];
    let content = mentionify_with_names(
        &leaderboard_text("All-time", 653, &entries),
        &mention_names(&entries),
    );
    let html = content.html.expect("should have HTML body");
    assert_eq!(
        content.plain,
        "🏆 All-time · 653 Qs:\n\
         🥇 Yakari · 98/130 (75%) · ⭐67%"
    );
    assert!(html.contains(r#"href="https://matrix.to/#/@yakari:example.org""#));
    assert!(html.contains(">Yakari<"));
}

#[test]
fn display_names_are_escaped_in_html_and_sanitized_in_plain_text() {
    let messy = MonthlyLeaderboardEntry {
        user_id: "@alice:example.org".to_owned(),
        display_name: Some("<Alice & Co>\nAdmin".to_owned()),
        total_correct: 10,
        total_questions: 12,
        rounds_played: 4,
        wilson_percent: percent(10, 12),
    };
    let content = monthly_content(YearMonth { year: 2026, month: 7 }, 12, &vec![messy]);
    let html = content.html.expect("should have HTML body");
    assert!(content.plain.contains("<Alice & Co> Admin"));
    assert!(html.contains("&lt;Alice &amp; Co&gt; Admin"));
    assert!(!html.contains("><Alice"));
    assert!(html.contains("https://matrix.to/#/@"), "still a mention pill");
}

#[test]
fn months_follow_each_other() {
    assert_eq!(YearMonth::containing(day(2026, 12, 31)), YearMonth { year: 2026, month: 12 });
    assert_eq!(YearMonth::after(2026, 12), YearMonth { year: 2027, month: 1 });
    assert_eq!(YearMonth::after(2026, 5), YearMonth { year: 2026, month: 6 });
    assert_eq!(YearMonth::before(2026, 1), YearMonth { year: 2025, month: 12 });
    assert_eq!(YearMonth { year: 2026, month: 3 }.period(), "2026-03");
    assert_eq!(YearMonth { year: -5, month: 12 }.period(), "-005-12");
    assert_eq!(YearMonth { year: 12345, month: 7 }.period(), "12345-07");
    let names: Vec<_> = (1..=12).map(|month| YearMonth { year: 2026, month }.month_name()).collect();
    assert_eq!(
        names,
        vec![
            "January",
            "February",
            "March",
            "April",
            "May",
            "June",
            "July",
            "August",
            "September",
            "October",
            "November",
            "December"
        ]
    );
}

#[test]
fn neighbouring_months_share_a_bound() {
    for zone in ["UTC", "Europe/Berlin", "America/New_York", "Asia/Kolkata", "no such zone"] {
        for month in 1..12 {
            let Ok((_, end)) = (YearMonth { year: 2026, month }).utc_bounds(zone) else {
                panic!("the month has bounds");
            };
            let Ok((start, _)) = (YearMonth { year: 2026, month: month + 1 }).utc_bounds(zone)
            else {
                panic!("the month has bounds");
            };
            assert_eq!(end, start);
        }
    }
    // What names no zone counts as UTC.
    let Ok((start, _)) = (YearMonth { year: 1970, month: 1 }).utc_bounds("no such zone") else {
        panic!("the month has bounds");
    };
    assert_eq!(start, 0);
}

#[test]
fn a_month_whose_first_midnight_is_skipped_begins_later() {
    // Clocks in Asuncion went from 00:00 to 01:00 on 1 October 2017.
    let Ok((start, _)) = (YearMonth { year: 2017, month: 10 }).utc_bounds("America/Asuncion")
    else {
        panic!("the month has bounds");
    };
    let text = chrono::DateTime::from_timestamp(start, 0).unwrap().to_rfc3339();
    assert_eq!(text, "2017-10-01T04:00:00+00:00");
}

#[test]
fn of_two_instants_the_earlier_counts() {
    assert_eq!(earliest(LocalInstants::Once(7)), Some(7));
    assert_eq!(earliest(LocalInstants::Twice(9, 5)), Some(5));
    assert_eq!(earliest(LocalInstants::Twice(5, 9)), Some(5));
    assert_eq!(earliest(LocalInstants::Never), None);
}

#[test]
fn a_month_outside_the_calendar_has_no_bounds() {
    let bad = YearMonth { year: 2026, month: 13 };
    let Err(e) = bad.utc_bounds("UTC") else {
        panic!("there is no such month");
    };
    assert!(matches!(e, BoundsError::NoMonth));
    assert_eq!(e.message(bad, "UTC"), "invalid leaderboard month 2026-13");
    let last = YearMonth { year: 262142, month: 12 };
    let Err(e) = last.utc_bounds("UTC") else {
        panic!("there is no month after it");
    };
    assert!(matches!(e, BoundsError::NoNextMonth));
    assert_eq!(e.message(last, "UTC"), "invalid next leaderboard month");
    let e = BoundsError::NoStart { date: day(2026, 2, 1) };
    assert_eq!(
        e.message(YearMonth { year: 2026, month: 2 }, "Europe/Berlin"),
        "could not resolve local start of 2026-02-01 in timezone Europe/Berlin"
    );
}

#[test]
fn the_fourth_place_has_no_medal() {
    let entries =
        vec![entry("A", 4, 4), entry("B", 3, 4), entry("C", 2, 4), entry_without_display_name("d", 0, 0)];
    let text = leaderboard_text("May", 4, &entries);
    assert!(text.ends_with("\n▪️ @d:example.org · 0/0 (0%) · ⭐0%"));
    assert_eq!(text.lines().count(), 5);
    assert_eq!(leaderboard_text("May", 0, &Vec::new()), "**🏆 May · 0 Qs:**");
    assert_eq!(percentage(2, 3), 66);
    assert_eq!(percentage(0, 0), 0);
    assert_eq!(percentage(-1, 3), -33);
}

fn ranked(user: &str, questions: i64, key: i64) -> LeaderboardEntry {
    LeaderboardEntry {
        user_id: user.to_owned(),
        total_correct: 0,
        total_questions: questions,
        rounds_played: 1,
        wilson_key: key,
        wilson_percent: String::new(),
    }
}

#[test]
fn ties_go_to_more_questions_and_then_to_the_name() {
    let board = rank_entries(vec![
        ranked("@z:x", 10, 5),
        ranked("@b:x", 20, 5),
        ranked("@a:x", 20, 5),
        ranked("@c:x", 1, 9),
    ]);
    let users: Vec<_> = board.iter().map(|e| e.user_id.as_str()).collect();
    assert_eq!(users, vec!["@c:x", "@a:x", "@b:x", "@z:x"]);
}

#[test]
fn who_was_asked_nothing_has_no_results() {
    assert_eq!(user_stats_of(0, 0, 0), None);
    assert_eq!(
        user_stats_of(3, 5, 1),
        Some(UserStatsRow { total_correct: 3, total_questions: 5, rounds_played: 1 })
    );
}
