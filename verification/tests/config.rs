//! The configuration.

use quiz_bot::config::{
    default_answer_timeout, default_batch_size, default_explainer_model,
    default_inter_question_secs, default_questions_per_round, default_reminder_before_secs,
    default_timezone, ExplainerConfig, ScheduleConfig, TriviaConfig,
};

fn schedule() -> ScheduleConfig {
    ScheduleConfig {
        room_id: "!room:example.org".to_owned(),
        quiz_times: vec!["18:00".to_owned(), "21:30".to_owned()],
        answer_timeout_secs: default_answer_timeout(),
        questions_per_round: default_questions_per_round(),
        inter_question_secs: default_inter_question_secs(),
        reminder_before_secs: default_reminder_before_secs(),
        timezone: default_timezone(),
    }
}

#[test]
fn a_quiz_time_is_an_hour_and_a_minute() {
    let parse = |s: &str| ScheduleConfig::parse_quiz_time(s);
    assert_eq!(parse("18:00"), Some((18, 0)));
    assert_eq!(parse(" 7 : 5 "), Some((7, 5)));
    assert_eq!(parse("+1:+2"), Some((1, 2)));
    assert_eq!(parse("00023:059"), Some((23, 59)));
    assert_eq!(parse("24:00"), None);
    assert_eq!(parse("12:60"), None);
    assert_eq!(parse("1200"), None);
    assert_eq!(parse("12:00:00"), None);
    assert_eq!(parse("-1:00"), None);
    assert_eq!(parse(":"), None);
    assert_eq!(parse("4294967296:00"), None);
    assert_eq!(parse("1 2:00"), None);
}

#[test]
fn every_time_of_the_day_reads_back() {
    for hour in 0..24 {
        for minute in 0..60 {
            let text = format!("{hour:02}:{minute:02}");
            assert_eq!(ScheduleConfig::parse_quiz_time(&text), Some((hour, minute)));
        }
    }
}

#[test]
fn defaults_are_filled_in() {
    let s = schedule();
    assert_eq!(s.answer_timeout_secs, 60);
    assert_eq!(s.questions_per_round, 5);
    assert_eq!(s.inter_question_secs, 10);
    assert_eq!(s.reminder_before_secs, 300);
    assert_eq!(s.timezone, "UTC");
    assert_eq!(default_batch_size(), 10);
    assert_eq!(default_explainer_model(), "llama-3.3-70b-versatile");
    let trivia = TriviaConfig::default();
    assert_eq!(trivia.category, None);
    assert_eq!(trivia.difficulty, None);
    assert_eq!(trivia.batch_size, 10);
    assert!(trivia.excluded_categories.is_empty());
    let explainer = ExplainerConfig::default();
    assert_eq!(explainer.api_key, None);
    assert_eq!(explainer.model, "llama-3.3-70b-versatile");
}

#[test]
fn reminders_can_be_switched_off() {
    let mut s = schedule();
    assert_eq!(s.reminders(), vec![300]);
    s.reminder_before_secs = 0;
    assert!(s.reminders().is_empty());
}

#[test]
fn a_time_zone_is_known_by_its_name() {
    let mut s = schedule();
    assert!(s.timezone_is_known());
    s.timezone = "Europe/Berlin".to_owned();
    assert!(s.timezone_is_known());
    s.timezone = "Middle/Earth".to_owned();
    assert!(!s.timezone_is_known());
}
