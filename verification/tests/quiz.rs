//! Rounds: answers, reconciliation, scores and messages.

use std::collections::HashSet;

use quiz_bot::calendar::{utc_now, Timestamp};
use quiz_bot::config::{ScheduleConfig, TriviaConfig};
use quiz_bot::names::NameMap;
use quiz_bot::quiz::answers::{
    apply_reaction, choice_emoji, collect_votes, emoji_choice, ActiveQuiz, AnswerOutcome,
    AnswerRecord, ReactionResult, RelatedEvent,
};
use quiz_bot::quiz::display::{
    difficulty_icon, format_countdown, lost_connection_text, no_round_text, question_text,
    reminder_text, time_bar, triggered_by,
};
use quiz_bot::quiz::merge::merge_reconciled_answers;
use quiz_bot::quiz::reconcile::{PageStep, Reconciliation};
use quiz_bot::quiz::round::{
    correct_position, countdown_step, page_attempt, planned_questions, post_attempt,
    post_failed_message, question_record, reminder_plan, resolve_round_length, round_record,
    shuffle_choices, CountdownStep, Round,
};
use quiz_bot::quiz::scores::{
    add_scores, choices_of, finish_scores, medal, merge_names, podium, result_text, summary_text,
    UserChoice,
};
use quiz_bot::retry::RetryStep;
use quiz_bot::state::FetchedQuestion;

#[test]
fn resolve_round_length_caps_at_questions_gathered() {
    assert_eq!(resolve_round_length(3, 5), Some(3));
}

#[test]
fn resolve_round_length_caps_at_configured_count() {
    assert_eq!(resolve_round_length(10, 5), Some(5));
}

#[test]
fn resolve_round_length_matches_when_exact() {
    assert_eq!(resolve_round_length(5, 5), Some(5));
}

#[test]
fn resolve_round_length_is_none_when_nothing_was_gathered() {
    assert_eq!(resolve_round_length(0, 5), None);
}

// ── Reaction handling ────────────────────────────────────────────────────────

fn answer(choice: u8, source: &'static str) -> AnswerRecord {
    AnswerRecord { choice, source, submitted_at: utc_now(), changed_answer: false }
}

fn active_quiz(question: &str) -> ActiveQuiz {
    ActiveQuiz { event_id: question.to_owned(), answers: NameMap::new(), correct_index: 0 }
}

fn record(answers: &NameMap<AnswerRecord>, user: &str) -> AnswerRecord {
    *answers.get(user).unwrap()
}

#[test]
fn record_answer_first_time_is_new() {
    let mut quiz = active_quiz("$q1:example.org");
    let outcome = quiz.record_answer("@alice:example.org".to_owned(), 0, "reaction");
    assert_eq!(outcome, AnswerOutcome::New);
    assert_eq!(record(&quiz.answers, "@alice:example.org").choice, 0);
}

#[test]
fn record_answer_changing_choice_is_replaced_and_flagged() {
    let mut quiz = active_quiz("$q1:example.org");
    quiz.record_answer("@alice:example.org".to_owned(), 0, "reaction");
    let outcome = quiz.record_answer("@alice:example.org".to_owned(), 2, "reaction");
    assert_eq!(outcome, AnswerOutcome::Replaced { previous: 0 });
    assert_eq!(record(&quiz.answers, "@alice:example.org").choice, 2);
    assert!(record(&quiz.answers, "@alice:example.org").changed_answer);
}

#[test]
fn record_answer_duplicate_reaction_is_unchanged() {
    let mut quiz = active_quiz("$q1:example.org");
    quiz.record_answer("@alice:example.org".to_owned(), 1, "reaction");
    let outcome = quiz.record_answer("@alice:example.org".to_owned(), 1, "reaction");
    assert_eq!(outcome, AnswerOutcome::Unchanged);
    assert!(!record(&quiz.answers, "@alice:example.org").changed_answer);
}

#[test]
fn apply_reaction_accepts_for_the_active_question() {
    let mut active = Some(active_quiz("$q1:example.org"));
    let result =
        apply_reaction(&mut active, "$q1:example.org", "@alice:example.org".to_owned(), 0);
    assert_eq!(result, ReactionResult::Accepted(AnswerOutcome::New));
    assert!(active.unwrap().answers.contains_key("@alice:example.org"));
}

#[test]
fn apply_reaction_ignores_a_reaction_to_a_stale_question() {
    let mut active = Some(active_quiz("$q2:example.org"));
    let result =
        apply_reaction(&mut active, "$q1:example.org", "@alice:example.org".to_owned(), 0);
    assert_eq!(result, ReactionResult::WrongQuestion);
    assert_eq!(active.unwrap().answers.len(), 0);
}

#[test]
fn apply_reaction_ignores_when_no_question_is_active() {
    let mut active: Option<ActiveQuiz> = None;
    let result =
        apply_reaction(&mut active, "$q1:example.org", "@alice:example.org".to_owned(), 0);
    assert_eq!(result, ReactionResult::NoActiveQuestion);
}

#[test]
fn apply_reaction_records_multiple_near_simultaneous_senders() {
    let mut active = Some(active_quiz("$q1:example.org"));
    apply_reaction(&mut active, "$q1:example.org", "@a:x.org".to_owned(), 0);
    apply_reaction(&mut active, "$q1:example.org", "@b:x.org".to_owned(), 1);
    apply_reaction(&mut active, "$q1:example.org", "@c:x.org".to_owned(), 2);
    let answers = active.unwrap().answers;
    assert_eq!(answers.len(), 3);
    assert_eq!(record(&answers, "@a:x.org").choice, 0);
    assert_eq!(record(&answers, "@b:x.org").choice, 1);
    assert_eq!(record(&answers, "@c:x.org").choice, 2);
}

#[test]
fn the_last_answer_counts_with_its_time_and_source() {
    let mut quiz = active_quiz("$q1:example.org");
    let early = Timestamp::from_parts(1, 0);
    let late = Timestamp::from_parts(2, 0);
    quiz.record_answer_at("@a:x.org".to_owned(), 0, "reaction", early);
    quiz.record_answer_at("@a:x.org".to_owned(), 3, "text", early);
    let outcome = quiz.record_answer_at("@a:x.org".to_owned(), 2, "reaction", late);
    assert_eq!(outcome, AnswerOutcome::Replaced { previous: 3 });
    let r = record(&quiz.answers, "@a:x.org");
    assert_eq!((r.choice, r.source, r.submitted_at, r.changed_answer), (2, "reaction", late, true));
    assert_eq!(quiz.answers.len(), 1);
}

#[test]
fn the_same_answer_again_changes_nothing() {
    let mut quiz = active_quiz("$q1:example.org");
    let early = Timestamp::from_parts(1, 0);
    let late = Timestamp::from_parts(2, 0);
    quiz.record_answer_at("@a:x.org".to_owned(), 1, "text", early);
    let outcome = quiz.record_answer_at("@a:x.org".to_owned(), 1, "reaction", late);
    assert_eq!(outcome, AnswerOutcome::Unchanged);
    let r = record(&quiz.answers, "@a:x.org");
    assert_eq!((r.choice, r.source, r.submitted_at, r.changed_answer), (1, "text", early, false));
}

#[test]
fn more_questions_than_32_bits_can_count_make_a_round() {
    let many = usize::try_from(1u64 << 32).unwrap_or(usize::MAX);
    assert_eq!(resolve_round_length(many, 5), Some(5));
    assert_eq!(resolve_round_length(many, 0), None);
}

#[test]
fn emojis_stand_for_choices() {
    for (i, emoji) in ["🇦", "🇧", "🇨", "🇩"].iter().enumerate() {
        assert_eq!(choice_emoji(i), Some(*emoji));
        assert_eq!(emoji_choice(emoji), Some(i as u8));
    }
    assert_eq!(choice_emoji(4), None);
    assert_eq!(emoji_choice("👍"), None);
}

fn reaction(sender: &str, key: &str) -> RelatedEvent {
    RelatedEvent::Reaction { sender: sender.to_owned(), key: key.to_owned() }
}

#[test]
fn the_latest_vote_of_each_user_is_collected() {
    // The most recent come first.
    let events = vec![
        reaction("@a:x.org", "🇧"),
        RelatedEvent::Undecryptable,
        reaction("@bot:x.org", "🇦"),
        reaction("@a:x.org", "🇩"),
        reaction("@b:x.org", "👍"),
        RelatedEvent::Other,
        reaction("@b:x.org", "🇨"),
        RelatedEvent::Undecryptable,
    ];
    let mut votes = NameMap::new();
    assert_eq!(collect_votes(&mut votes, &events, Some("@bot:x.org")), 2);
    assert_eq!(votes.len(), 2);
    assert_eq!(votes.get("@a:x.org"), Some(&1));
    assert_eq!(votes.get("@b:x.org"), Some(&2));
    // What a later page holds is older.
    assert_eq!(collect_votes(&mut votes, &vec![reaction("@a:x.org", "🇦")], None), 0);
    assert_eq!(votes.get("@a:x.org"), Some(&1));
}

#[test]
fn all_pages_are_asked_for_before_anything_is_merged() {
    let (mut seen, step) = Reconciliation::start();
    assert!(matches!(step, PageStep::Ask { from: None }));
    let page = vec![reaction("@a:x.org", "🇧"), RelatedEvent::Undecryptable];
    let (step, hidden) = seen.on_page(&page, None, Some("t1".to_owned()));
    assert_eq!(hidden, 1);
    match step {
        PageStep::Ask { from } => assert_eq!(from.as_deref(), Some("t1")),
        PageStep::Done => panic!("a page is missing"),
    }

    // With a page missing, nothing is merged.
    let mut answers = NameMap::new();
    answers.insert("@gone:x.org".to_owned(), answer(0, "reaction"));
    assert!(seen.finish(&mut answers, utc_now()).is_empty());
    assert_eq!(answers.len(), 1);
    assert!(answers.contains_key("@gone:x.org"));

    // An older reaction of the same user does not count.
    let (step, hidden) = seen.on_page(&vec![reaction("@a:x.org", "🇦")], None, None);
    assert_eq!(hidden, 0);
    assert!(matches!(step, PageStep::Done));
    let summary = seen.finish(&mut answers, utc_now());
    assert_eq!(summary.added, vec!["@a:x.org".to_owned()]);
    assert_eq!(summary.removed, vec!["@gone:x.org".to_owned()]);
    assert_eq!(record(&answers, "@a:x.org").choice, 1);
    assert_eq!(answers.len(), 1);
}

// ── Reconciliation merge ─────────────────────────────────────────────────────

fn votes(pairs: &[(&str, u8)]) -> NameMap<u8> {
    let mut map = NameMap::new();
    for (user, choice) in pairs {
        map.insert((*user).to_owned(), *choice);
    }
    map
}

#[test]
fn merge_adds_a_reaction_the_live_stream_missed() {
    let mut answers = NameMap::new();
    let server = votes(&[("@late:example.org", 2)]);

    let summary = merge_reconciled_answers(&mut answers, &server, utc_now());

    assert_eq!(summary.added, vec!["@late:example.org".to_owned()]);
    assert_eq!(record(&answers, "@late:example.org").choice, 2);
    assert_eq!(record(&answers, "@late:example.org").source, "reconciled");
}

#[test]
fn merge_does_not_lose_an_answer_already_received_live() {
    let mut answers = NameMap::new();
    answers.insert("@alice:example.org".to_owned(), answer(1, "reaction"));
    let server = votes(&[("@alice:example.org", 1)]);

    let summary = merge_reconciled_answers(&mut answers, &server, utc_now());

    assert!(summary.is_empty());
    assert_eq!(record(&answers, "@alice:example.org").source, "reaction");
    assert_eq!(answers.len(), 1);
}

#[test]
fn merge_corrects_a_changed_answer_the_stream_missed() {
    let mut answers = NameMap::new();
    answers.insert("@alice:example.org".to_owned(), answer(0, "reaction"));
    let server = votes(&[("@alice:example.org", 3)]);

    let summary = merge_reconciled_answers(&mut answers, &server, utc_now());

    assert_eq!(summary.corrected, vec!["@alice:example.org".to_owned()]);
    assert_eq!(record(&answers, "@alice:example.org").choice, 3);
    assert!(record(&answers, "@alice:example.org").changed_answer);
}

#[test]
fn merge_removes_an_answer_the_user_un_reacted() {
    let mut answers = NameMap::new();
    answers.insert("@alice:example.org".to_owned(), answer(0, "reaction"));
    let server = votes(&[]);

    let summary = merge_reconciled_answers(&mut answers, &server, utc_now());

    assert_eq!(summary.removed, vec!["@alice:example.org".to_owned()]);
    assert_eq!(answers.len(), 0);
}

#[test]
fn merge_never_drops_a_text_answer() {
    let mut answers = NameMap::new();
    answers.insert("@alice:example.org".to_owned(), answer(0, "text"));
    let server = votes(&[]);

    let summary = merge_reconciled_answers(&mut answers, &server, utc_now());

    assert!(summary.is_empty());
    assert_eq!(record(&answers, "@alice:example.org").source, "text");
}

#[test]
fn merge_handles_multiple_senders_reacting_at_once() {
    let mut answers = NameMap::new();
    answers.insert("@already:example.org".to_owned(), answer(0, "reaction"));
    let server =
        votes(&[("@already:example.org", 0), ("@new1:example.org", 1), ("@new2:example.org", 3)]);

    let summary = merge_reconciled_answers(&mut answers, &server, utc_now());

    assert_eq!(answers.len(), 3);
    assert_eq!(summary.added.len(), 2);
    assert!(summary.added.contains(&"@new1:example.org".to_owned()));
    assert!(summary.added.contains(&"@new2:example.org".to_owned()));
}

#[test]
fn merging_again_changes_nothing() {
    let mut answers = NameMap::new();
    answers.insert("@a:x.org".to_owned(), answer(0, "reaction"));
    answers.insert("@b:x.org".to_owned(), answer(1, "text"));
    answers.insert("@c:x.org".to_owned(), answer(2, "reaction"));
    let server = votes(&[("@b:x.org", 3), ("@c:x.org", 0), ("@d:x.org", 1)]);
    let now = Timestamp::from_parts(9, 0);

    let first = merge_reconciled_answers(&mut answers, &server, now);
    assert_eq!(first.removed, vec!["@a:x.org".to_owned()]);
    assert_eq!(first.corrected, vec!["@c:x.org".to_owned()]);
    assert_eq!(first.added, vec!["@d:x.org".to_owned()]);
    assert_eq!(record(&answers, "@b:x.org").choice, 1);
    assert_eq!(record(&answers, "@d:x.org").submitted_at, now);

    let second = merge_reconciled_answers(&mut answers, &server, Timestamp::from_parts(10, 0));
    assert!(second.is_empty());
    assert_eq!(record(&answers, "@d:x.org").submitted_at, now);
}

// ── Choices and texts ────────────────────────────────────────────────────────

fn question(text: &str) -> FetchedQuestion {
    FetchedQuestion {
        category: "History".to_owned(),
        difficulty: "medium".to_owned(),
        question: text.to_owned(),
        correct_answer: "1066".to_owned(),
        incorrect_answers: vec!["1065".to_owned(), "1067".to_owned(), "1166".to_owned()],
    }
}

#[test]
fn shuffling_keeps_all_answers_and_knows_the_right_one() {
    let q = question("When?");
    let mut seen = HashSet::new();
    for _ in 0..200 {
        let (choices, index) = shuffle_choices(&q);
        assert_eq!(choices[index as usize], "1066");
        let mut sorted = choices.clone();
        sorted.sort();
        assert_eq!(sorted, vec!["1065", "1066", "1067", "1166"]);
        seen.insert(index);
    }
    assert_eq!(seen.len(), 4);
    let texts = vec!["a".to_owned(), "b".to_owned(), "b".to_owned()];
    assert_eq!(correct_position(&texts, "b"), 1);
    assert_eq!(correct_position(&texts, "z"), 0);
}

#[test]
fn a_question_is_written_with_its_time_bar() {
    let choices = vec!["1065".to_owned(), "1066".to_owned()];
    assert_eq!(
        question_text(2, 5, &question("When?"), &choices, 60, 45),
        "❓ Q2/5 | 🟡 medium · History | ⏳ 45s ███████░░░\n\nWhen?\n\n🇦  1065\n🇧  1066"
    );
    assert_eq!(time_bar(60, 60), "██████████");
    assert_eq!(time_bar(0, 60), "░░░░░░░░░░");
    assert_eq!(time_bar(0, 0), "░░░░░░░░░░");
    assert_eq!(difficulty_icon("easy"), "🟢");
    assert_eq!(difficulty_icon("hard"), "🔴");
    assert_eq!(difficulty_icon("Hard"), "⚪");
}

#[test]
fn reminders_are_worded() {
    assert_eq!(format_countdown(300), "5 minutes");
    assert_eq!(format_countdown(119), "1 minute");
    assert_eq!(format_countdown(59), "59 seconds");
    assert_eq!(format_countdown(1), "1 seconds");
    assert_eq!(
        reminder_text(300, 5),
        (
            "🧠 Quiz starting in 5 minutes! @room\n5 questions incoming.".to_owned(),
            "🧠 <strong>Quiz starting in 5 minutes!</strong> @room<br>5 questions incoming."
                .to_owned()
        )
    );
    assert!(reminder_text(60, 1).0.ends_with("\n1 question incoming."));
    assert_eq!(
        no_round_text(),
        "⚠️ Couldn't prepare any questions for this round (OpenTDB unavailable) — skipping."
    );
    assert_eq!(
        lost_connection_text(3, 5, 2),
        "⚠️ Lost connection to Matrix while posting Q3/5 — ending round early \
         (2 questions completed)."
    );
    assert!(lost_connection_text(2, 5, 1).ends_with("(1 question completed)."));
    assert_eq!(triggered_by(None), "manual");
    assert_eq!(triggered_by(Some("18:00")), "scheduler:18:00");
}

#[test]
fn reminders_are_posted_longest_first_and_end_at_the_quiz() {
    let plan: Vec<(u64, u64)> =
        reminder_plan(&vec![60, 300, 60, 10]).iter().map(|r| (r.before_secs, r.wait_secs)).collect();
    assert_eq!(plan, vec![(300, 240), (60, 50), (10, 10)]);
    assert!(reminder_plan(&Vec::new()).is_empty());
}

#[test]
fn a_countdown_takes_its_time() {
    let mut remaining = 50;
    let mut total = 0;
    let mut shown = Vec::new();
    loop {
        match countdown_step(remaining) {
            CountdownStep::Edit { wait_secs, remaining: left } => {
                total += wait_secs;
                shown.push(left);
                remaining = left;
            }
            CountdownStep::Close { wait_secs } => {
                total += wait_secs;
                break;
            }
        }
    }
    assert_eq!(shown, vec![35, 20, 5]);
    assert_eq!(total, 50);
    assert!(matches!(countdown_step(15), CountdownStep::Close { wait_secs: 15 }));
}

#[test]
fn posting_and_paging_are_retried() {
    assert!(matches!(post_attempt(4), RetryStep::Try { wait_secs: 8 }));
    assert!(matches!(post_attempt(5), RetryStep::GiveUp));
    assert!(matches!(page_attempt(3), RetryStep::Try { wait_secs: 4 }));
    assert!(matches!(page_attempt(4), RetryStep::GiveUp));
    assert_eq!(post_failed_message(), "failed to post question after 5 attempts");
}

// ── Scores ───────────────────────────────────────────────────────────────────

fn answers_of(pairs: &[(&str, u8)]) -> NameMap<AnswerRecord> {
    let mut answers = NameMap::new();
    for (user, choice) in pairs {
        answers.insert((*user).to_owned(), answer(*choice, "reaction"));
    }
    answers
}

#[test]
fn right_and_wrong_answers_are_listed_by_name() {
    let answers = answers_of(&[("@c:x", 1), ("@a:x", 0), ("@b:x", 0), ("@d:x", 9)]);
    let right = choices_of(&answers, 0, true);
    let wrong = choices_of(&answers, 0, false);
    let names = |v: &Vec<UserChoice>| v.iter().map(|u| u.user.clone()).collect::<Vec<_>>();
    assert_eq!(names(&right), vec!["@a:x", "@b:x"]);
    assert_eq!(names(&wrong), vec!["@c:x", "@d:x"]);
    assert_eq!(
        result_text(0, "1066", &right, &wrong, Some(10)),
        "✅ 🇦 **1066**\n🎉 @a:x, @b:x\n❌ @c:x (🇧), @d:x (?)\n⏭️ Next in 10s"
    );
    assert_eq!(
        result_text(3, "1066", &Vec::new(), &wrong, None),
        "✅ 🇩 **1066**\nNobody got it right 😅\n❌ @c:x (🇧), @d:x (?)"
    );
    assert_eq!(
        result_text(1, "1066", &Vec::new(), &Vec::new(), None),
        "✅ 🇧 **1066**\nNo answers."
    );
}

#[test]
fn scores_count_right_answers_and_end_with_the_questions_asked() {
    let mut scores = NameMap::new();
    add_scores(&mut scores, &answers_of(&[("@a:x", 0), ("@b:x", 1)]), 0);
    add_scores(&mut scores, &answers_of(&[("@a:x", 2)]), 2);
    assert_eq!(scores.get("@a:x"), Some(&(2, 2)));
    assert_eq!(scores.get("@b:x"), Some(&(0, 1)));
    finish_scores(&mut scores, 3);
    assert_eq!(scores.get("@a:x"), Some(&(2, 3)));
    assert_eq!(scores.get("@b:x"), Some(&(0, 3)));
}

#[test]
fn a_round_ends_with_the_best_five() {
    let mut scores = NameMap::new();
    for (user, correct) in
        [("@f:x", 0), ("@b:x", 2), ("@e:x", 1), ("@a:x", 2), ("@d:x", 1), ("@c:x", 5)]
    {
        scores.insert(user.to_owned(), (correct, 5));
    }
    let places = podium(&scores);
    let order: Vec<_> = places.iter().map(|p| (p.user.as_str(), p.correct, p.total)).collect();
    assert_eq!(
        order,
        vec![
            ("@c:x", 5, 5),
            ("@a:x", 2, 5),
            ("@b:x", 2, 5),
            ("@d:x", 1, 5),
            ("@e:x", 1, 5),
            ("@f:x", 0, 5)
        ]
    );
    assert_eq!(
        summary_text(5, &places, Some("**🏆 May · 9 Qs:**\n🥇 @c:x")),
        "🏁 Round done · 5 Qs\n\n🎯 This round:\n🥇 @c:x · 5/5\n🥈 @a:x · 2/5\n🥉 @b:x · 2/5\n\
         ▪️ @d:x · 1/5\n▪️ @e:x · 1/5\n\n**🏆 May · 9 Qs:**\n🥇 @c:x"
    );
    assert_eq!(
        summary_text(0, &Vec::new(), None),
        "🏁 Round done · 0 Qs\n\nNobody got it right."
    );
    assert_eq!(medal(2), "🥉");
    assert_eq!(medal(3), "▪️");
}

#[test]
fn fresher_names_win() {
    let mut stored = NameMap::new();
    stored.insert("@a:x".to_owned(), "Old".to_owned());
    stored.insert("@b:x".to_owned(), "Bob".to_owned());
    let mut live = NameMap::new();
    live.insert("@a:x".to_owned(), "New".to_owned());
    let names = merge_names(stored, &live);
    assert_eq!(names.get("@a:x").map(String::as_str), Some("New"));
    assert_eq!(names.get("@b:x").map(String::as_str), Some("Bob"));
    assert_eq!(names.len(), 2);
}

// ── A whole round ────────────────────────────────────────────────────────────

fn schedule(questions: u32) -> ScheduleConfig {
    ScheduleConfig {
        room_id: "!room:x".to_owned(),
        quiz_times: vec!["18:00".to_owned()],
        answer_timeout_secs: 30,
        questions_per_round: questions,
        inter_question_secs: 10,
        reminder_before_secs: 300,
        timezone: "UTC".to_owned(),
    }
}

#[test]
fn a_round_runs_from_start_to_finish() {
    let mut round = Round::start(vec![question("Q1"), question("Q2"), question("Q3")], 2).unwrap();
    assert_eq!(round.round_len, 2);
    assert!(round.goes_on());
    let first = round.prepare(30);
    assert_eq!(first.q_num, 1);
    assert!(first.call_room);
    assert!(first.text.starts_with("@room\n❓ Q1/2 | 🟡 medium · History | ⏳ 30s ██████████\n\nQ1\n"));
    assert_eq!(first.category_group, "History");
    let right = first.correct_index;
    let closed = round.close(&first, &answers_of(&[("@a:x", right)]), 10);
    assert_eq!(closed.pause, Some(10));
    assert_eq!(closed.right.len(), 1);
    assert!(closed.text.contains("**1066**\n🎉 @a:x\n⏭️ Next in 10s"));
    let second = round.prepare(30);
    assert!(!second.call_room);
    assert!(second.text.starts_with("❓ Q2/2"));
    let wrong = (second.correct_index + 1) % 4;
    let closed = round.close(&second, &answers_of(&[("@b:x", wrong)]), 10);
    assert_eq!(closed.pause, None);
    assert!(!round.goes_on());
    let (asked, scores) = round.finish();
    assert_eq!(asked, 2);
    assert_eq!(scores.get("@a:x"), Some(&(1, 2)));
    assert_eq!(scores.get("@b:x"), Some(&(0, 2)));
    assert!(Round::start(Vec::new(), 5).is_none());
}

#[test]
fn a_round_is_recorded_as_configured() {
    assert_eq!(planned_questions(&schedule(0)), 1);
    assert_eq!(planned_questions(&schedule(7)), 7);
    let s = schedule(0);
    let mut trivia = TriviaConfig::default();
    trivia.category = Some(23);
    trivia.difficulty = Some("hard".to_owned());
    let r = round_record("!room:x", 3, "manual", &s, &trivia);
    assert_eq!(r.room_id, "!room:x");
    assert_eq!(r.n_questions_planned, 3);
    assert_eq!(r.triggered_by, "manual");
    assert_eq!(r.config_answer_timeout, 30);
    assert_eq!(r.config_questions_per_round, 1);
    assert_eq!(r.config_timezone, "UTC");
    assert_eq!(r.config_category_id, Some(23));
    assert_eq!(r.config_difficulty, Some("hard"));

    let round = Round::start(vec![question("Q1")], 1).unwrap();
    let prepared = round.prepare(30);
    let q = question_record(9, "$event", &round.questions[0], &prepared, 30);
    assert_eq!(q.round_id, 9);
    assert_eq!(q.question_num, 1);
    assert_eq!(q.matrix_event_id, Some("$event"));
    assert_eq!(q.category, "History");
    assert_eq!(q.category_group, "History");
    assert_eq!(q.difficulty, "medium");
    assert_eq!(q.question_text, "Q1");
    assert_eq!(q.choices.len(), 4);
    assert_eq!(q.choices[q.correct_index as usize], "1066");
    assert_eq!(q.correct_answer_text, "1066");
    assert_eq!(q.answer_timeout_secs, 30);
}
