//! Commands and their replies.

use quiz_bot::calendar::{Date, LocalTime, MAX_DAY};
use quiz_bot::commands::parse::{
    argument, classify_message, command_of, is_admin, not_admin_text, reset_confirmed, route,
    Command, MessageKind, Route,
};
use quiz_bot::commands::replies::{
    catconfig_text, categories_text, fastest_text, format_duration, gameinfo_text, help_text,
    mystats_text, prefetch_reply, reset_reply, reset_warning, scores_text, start_reply,
};
use quiz_bot::commands::schedule::{cancel_quiz, clock, schedulable, schedule_quiz};
use quiz_bot::config::{ScheduleConfig, TriviaConfig};
use quiz_bot::db::{
    CategoryStat, LeaderboardEntry, SpeedEntry, SpeedNearEntry, UserCategoryStat, UserStatsRow,
};
use quiz_bot::fetcher::categories::{active_groups, category_groups};
use quiz_bot::state::State;

fn admins() -> Vec<String> {
    vec!["@admin:x".to_owned()]
}

#[test]
fn every_command_is_known() {
    let known = [
        ("!startquiz", Command::StartQuiz),
        ("!schedulequiz 18:00", Command::ScheduleQuiz),
        ("!CancelQuiz", Command::CancelQuiz),
        ("!prefetch", Command::Prefetch),
        (" !resetstats confirm", Command::ResetStats),
        ("!scores", Command::Scores),
        ("!leaderboard", Command::Scores),
        ("!mystats", Command::MyStats),
        ("!categories", Command::Categories),
        ("!catconfig", Command::CatConfig),
        ("!gameinfo", Command::GameInfo),
        ("!fastest", Command::Fastest),
        ("!help me", Command::Help),
    ];
    for (body, command) in known {
        assert_eq!(command_of(body), Some(command));
        assert_eq!(route(body, &admins(), "@admin:x"), Route::Run(command));
    }
    assert_eq!(command_of("!start"), None);
    assert_eq!(command_of(""), None);
    assert_eq!(route("!nope", &admins(), "@admin:x"), Route::Ignore);
}

#[test]
fn some_commands_are_for_admins() {
    for body in ["!startquiz", "!schedulequiz", "!cancelquiz", "!prefetch", "!resetstats"] {
        assert_eq!(route(body, &admins(), "@user:x"), Route::NotAdmin);
    }
    for body in ["!scores", "!mystats", "!categories", "!catconfig", "!gameinfo", "!help"] {
        assert!(matches!(route(body, &admins(), "@user:x"), Route::Run(_)));
    }
    assert!(is_admin(&admins(), "@admin:x"));
    assert!(!is_admin(&admins(), "@ADMIN:x"));
    assert_eq!(not_admin_text(), "❌ This command requires admin privileges.");
}

#[test]
fn answers_and_commands_are_told_apart() {
    assert_eq!(classify_message(" !a "), MessageKind::Answer(0));
    assert_eq!(classify_message("!B"), MessageKind::Answer(1));
    assert_eq!(classify_message("!c"), MessageKind::Answer(2));
    assert_eq!(classify_message("!d"), MessageKind::Answer(3));
    assert_eq!(classify_message("!e"), MessageKind::Command);
    assert_eq!(classify_message("!a b"), MessageKind::Command);
    assert_eq!(classify_message("a"), MessageKind::Other);
    assert_eq!(classify_message(""), MessageKind::Other);
}

#[test]
fn arguments_lose_space_and_quotes() {
    assert_eq!(argument("!schedulequiz 18:00"), "18:00");
    assert_eq!(argument("!schedulequiz   \"18:00\" "), "18:00");
    assert_eq!(argument("!schedulequiz '' "), "");
    assert_eq!(argument("!schedulequiz"), "");
    assert!(reset_confirmed("!resetstats  confirm now"));
    assert!(!reset_confirmed("!resetstats Confirm"));
    assert!(!reset_confirmed("!resetstats"));
}

fn at(hour: u32, minute: u32) -> LocalTime {
    let date = Date::from_ymd_opt(2026, 9, 25).unwrap();
    LocalTime::new(date, hour * 3600 + minute * 60, 0).unwrap()
}

#[test]
fn a_quiz_is_scheduled_for_today_or_tomorrow() {
    let mut state = State::default();
    assert_eq!(
        schedule_quiz(&mut state, "", &at(12, 0), 300),
        ("No quizzes scheduled.\nUsage: !schedulequiz HH:MM".to_owned(), false)
    );
    assert_eq!(
        schedule_quiz(&mut state, "18:00", &at(12, 0), 300),
        (
            "✅ Quiz today at 18:00 · reminder 17:55\nCancel: !cancelquiz 18:00".to_owned(),
            true
        )
    );
    assert_eq!(
        schedule_quiz(&mut state, " 9 : 5", &at(12, 0), 0),
        ("✅ Quiz tomorrow at 09:05\nCancel: !cancelquiz 09:05".to_owned(), true)
    );
    assert_eq!(
        schedule_quiz(&mut state, "18:00", &at(12, 0), 300),
        ("⚠️ A quiz at 18:00 on 2026-09-25 is already scheduled.".to_owned(), false)
    );
    assert_eq!(
        schedule_quiz(&mut state, "late", &at(12, 0), 300),
        ("❌ Invalid: \"late\" · use HH:MM".to_owned(), false)
    );
    assert_eq!(
        schedule_quiz(&mut state, "", &at(12, 0), 300),
        (
            "📅 Pending quizzes:\n• 18:00 on 2026-09-25\n• 09:05 on 2026-09-26".to_owned(),
            false
        )
    );
    assert_eq!(clock(7, 3), "07:03");
}

#[test]
fn the_last_day_can_still_be_used() {
    let last = LocalTime::new(Date::from_number(MAX_DAY).unwrap(), 12 * 3600, 0).unwrap();
    let mut state = State::default();
    for argument in ["", "late", "18:00"] {
        assert!(schedulable(argument, &last, 300));
    }
    assert_eq!(
        schedule_quiz(&mut state, "", &last, 300),
        ("No quizzes scheduled.\nUsage: !schedulequiz HH:MM".to_owned(), false)
    );
    assert_eq!(
        schedule_quiz(&mut state, "late", &last, 300),
        ("❌ Invalid: \"late\" · use HH:MM".to_owned(), false)
    );
    assert_eq!(
        schedule_quiz(&mut state, "18:00", &last, 300),
        (
            "✅ Quiz today at 18:00 · reminder 17:55\nCancel: !cancelquiz 18:00".to_owned(),
            true
        )
    );
    // There is no tomorrow.
    assert!(!schedulable("09:00", &last, 300));
    assert!(schedulable("09:00", &at(12, 0), 300));
    assert!(!schedulable("09:00", &at(12, 0), i64::MIN + 1));
}

#[test]
fn cancelling_removes_all_quizzes_of_a_time() {
    let mut state = State::default();
    schedule_quiz(&mut state, "18:00", &at(12, 0), 300);
    schedule_quiz(&mut state, "18:00", &at(19, 0), 300);
    schedule_quiz(&mut state, "20:00", &at(12, 0), 300);
    assert_eq!(state.scheduled_once.len(), 3);
    assert_eq!(
        cancel_quiz(&mut state, "18:0"),
        ("✅ Cancelled quiz at 18:00.".to_owned(), true)
    );
    assert_eq!(state.scheduled_once.len(), 1);
    assert_eq!(state.scheduled_once[0].quiz_time, "20:00");
    assert_eq!(
        cancel_quiz(&mut state, "18:00"),
        ("⚠️ No quiz scheduled for 18:00.".to_owned(), true)
    );
    assert_eq!(
        cancel_quiz(&mut state, ""),
        ("Usage: !cancelquiz HH:MM\nPending: !schedulequiz".to_owned(), false)
    );
    assert_eq!(
        cancel_quiz(&mut state, "x"),
        ("❌ Invalid: \"x\" · use HH:MM".to_owned(), false)
    );
}

#[test]
fn durations_are_worded() {
    let cases = [
        (0, "0s"),
        (30, "30s"),
        (60, "1m"),
        (90, "1m 30s"),
        (3600, "1h"),
        (5400, "1h 30m"),
        (3605, "1h 0m 5s"),
        (3661, "1h 1m 1s"),
        (86_400, "24h"),
    ];
    for (secs, text) in cases {
        assert_eq!(format_duration(secs), text);
    }
}

#[test]
fn short_replies_are_worded() {
    assert_eq!(start_reply(true, 60), ("⚠️ A quiz is already in progress!".to_owned(), false));
    assert_eq!(start_reply(false, 60), ("🎯 Quiz starting · 1m per question".to_owned(), true));
    assert_eq!(
        prefetch_reply(Ok(10), 2, 12),
        "✅ Fetched 10 questions from OpenTDB.  Cache: 2 → 12."
    );
    assert_eq!(prefetch_reply(Err("gone".to_owned()), 2, 2), "❌ Prefetch failed: gone");
    assert_eq!(
        reset_warning(),
        "⚠️ Deletes ALL history: rounds, questions, answers, scores.\nConfirm: !resetstats confirm"
    );
    assert_eq!(reset_reply(true), "✅ Stats reset · leaderboard and history wiped.");
    assert_eq!(reset_reply(false), "❌ Reset failed — check the logs.");
    let help = help_text();
    assert!(help.starts_with("🧠 **Quiz Bot**\n\n!scores / !leaderboard · ranking\n"));
    assert!(help.ends_with("\nChange answer any time before the timer ends."));
    assert_eq!(help.lines().count(), 20);
}

fn board_entry(user: &str, correct: i64, total: i64, rounds: i64) -> LeaderboardEntry {
    LeaderboardEntry {
        user_id: user.to_owned(),
        total_correct: correct,
        total_questions: total,
        rounds_played: rounds,
        wilson_key: 0,
        wilson_percent: String::new(),
    }
}

#[test]
fn scores_are_listed() {
    assert_eq!(scores_text(&Vec::new(), 3), "No scores yet.");
    let board = vec![
        board_entry("@a:x", 3, 4, 2),
        board_entry("@b:x", 1, 3, 1),
        board_entry("@c:x", 0, 0, 1),
        board_entry("@d:x", 0, 5, 1),
    ];
    assert_eq!(
        scores_text(&board, 7),
        "🏆 **Leaderboard** · 7 rounds\n\n🥇 @a:x · 3/4 · 75% · 2 rounds\n\
         🥈 @b:x · 1/3 · 33% · 1 rounds\n🥉 @c:x · 0/0 · 0% · 1 rounds\n   @d:x · 0/5 · 0% · 1 rounds"
    );
}

#[test]
fn own_results_are_shown_with_rank_and_categories() {
    let board = vec![board_entry("@a:x", 3, 4, 2), board_entry("@b:x", 1, 3, 1)];
    let stats = UserStatsRow { total_correct: 1, total_questions: 3, rounds_played: 1 };
    let cat = |category: &str, answered: i64, correct: i64| UserCategoryStat {
        category: category.to_owned(),
        answered,
        correct,
    };
    assert_eq!(
        mystats_text(None, &board, "@b:x", &Vec::new()),
        "You haven't answered any quiz questions yet."
    );
    assert_eq!(
        mystats_text(Some(stats), &board, "@b:x", &vec![cat("Art", 2, 1)]),
        "📊 **Stats** · 1/3 · 33% · 1 rounds · rank #2 of 2"
    );
    assert_eq!(
        mystats_text(
            Some(stats),
            &board,
            "@z:x",
            &vec![cat("Art", 2, 2), cat("Sports", 4, 1), cat("History", 3, 0)]
        ),
        "📊 **Stats** · 1/3 · 33% · 1 rounds\n🏆 Best: Art (100%)\n😬 Worst: History (0%)"
    );
}

#[test]
fn categories_are_shown_with_bars() {
    let stat = |category: &str, asked: i64, answers: i64, correct: i64| CategoryStat {
        category: category.to_owned(),
        questions_asked: asked,
        total_answers: answers,
        correct_answers: correct,
    };
    assert_eq!(categories_text(&Vec::new()), "No questions asked yet.");
    assert_eq!(
        categories_text(&vec![stat("Art", 12, 8, 8), stat("Sports", 3, 0, 0), stat("None", 0, 3, 1)]),
        "📊 **Categories** · 15 Qs asked\n\n██████████  12q  100% ✓  Art\n\
         ██░░░░░░░░   3q    0% ✓  Sports\n░░░░░░░░░░   0q   33% ✓  None"
    );
}

#[test]
fn the_configured_groups_are_shown() {
    let text = catconfig_text(&Vec::new());
    assert!(text.starts_with("📚 **Categories**\n\n✓ General Knowledge\n✓ Entertainment\n"));
    assert!(text.ends_with("\n\nAll 12/12 active."));
    let excluded = vec!["sports".to_owned(), "Science and Technology".to_owned(), "x".to_owned()];
    let text = catconfig_text(&excluded);
    assert!(text.contains("\n✗ ~~Sports~~\n"));
    assert!(text.contains("\n✗ ~~Science & Technology~~\n"));
    assert!(text.contains("\n✓ Art\n"));
    assert!(text.ends_with("\n\n10/12 active."));
}

#[test]
fn a_group_that_is_excluded_twice_counts_once() {
    for times in [2, 12, 13] {
        let mut excluded: Vec<String> = vec!["Art".to_owned(); times];
        excluded[0] = "art".to_owned();
        let text = catconfig_text(&excluded);
        assert!(text.contains("\n✗ ~~Art~~\n"));
        assert_eq!(text.matches("✗").count(), 1);
        assert!(text.ends_with("\n\n11/12 active."));
        assert_eq!(active_groups(&excluded).len(), 11);
    }
}

#[test]
fn with_every_group_excluded_all_are_active() {
    let excluded: Vec<String> =
        category_groups().iter().map(|g| g.name.to_owned()).collect();
    let text = catconfig_text(&excluded);
    assert!(!text.contains("✗"));
    assert!(text.ends_with("\n\n⚠️ All groups excluded · using all categories."));
    assert_eq!(active_groups(&excluded).len(), 12);
}

#[test]
fn the_game_is_described() {
    let mut schedule = ScheduleConfig {
        room_id: "!room:x".to_owned(),
        quiz_times: vec!["18:00".to_owned(), "21:30".to_owned()],
        answer_timeout_secs: 60,
        questions_per_round: 5,
        inter_question_secs: 10,
        reminder_before_secs: 300,
        timezone: "Europe/Berlin".to_owned(),
    };
    let mut trivia = TriviaConfig::default();
    assert_eq!(
        gameinfo_text(&schedule, &trivia),
        "🧠 **Quiz Bot**\n\n🕐 Daily at 18:00, 21:30 · Europe/Berlin\n⏰ Reminder 5m before\n\
         ❓ 5 questions · 1m each\n🗂️ All categories · random\n\n\
         Answer: 🇦 🇧 🇨 🇩 · or type !a !b !c !d\nChange answer any time before the timer ends."
    );
    schedule.quiz_times.clear();
    schedule.reminder_before_secs = 0;
    trivia.difficulty = Some("hard".to_owned());
    trivia.excluded_categories = vec!["Art".to_owned(), "Sports".to_owned()];
    let text = gameinfo_text(&schedule, &trivia);
    assert!(text.contains("🕐 Daily at not scheduled · Europe/Berlin\n❓ 5 questions"));
    assert!(text.contains("\n🗂️ Random · excluding: Art, Sports\n🎯 Difficulty: hard\n\nAnswer"));
    trivia.category = Some(23);
    let text = gameinfo_text(&schedule, &trivia);
    assert!(text.contains("\n🗂️ Fixed category (OpenTDB id 23)\n🎯 Difficulty: hard\n"));
}

#[test]
fn the_fastest_are_listed() {
    assert_eq!(
        fastest_text(&Vec::new(), &Vec::new()),
        "Not enough data yet · min. 3 correct answers per player."
    );
    let near = |user: &str, n: i64| SpeedNearEntry { user_id: user.to_owned(), correct_count: n };
    assert_eq!(
        fastest_text(&Vec::new(), &vec![near("@a:x", 2), near("@b:x", 1)]),
        "⚡ **Speed** · correct answers · min. 3 samples\n\nNo one has 3 correct answers yet.\n\n\
         Almost there:\n  @a:x · 1 more correct answer needed\n  @b:x · 2 more correct answers needed"
    );
    let fast = SpeedEntry {
        user_id: "@c:x".to_owned(),
        avg_secs: format!("{:.1}", 4.25),
        sample_count: 3,
    };
    assert_eq!(
        fastest_text(&vec![fast], &Vec::new()),
        "⚡ **Speed** · correct answers · min. 3 samples\n\n🥇 @c:x · 4.2s avg · 3 correct"
    );
}
