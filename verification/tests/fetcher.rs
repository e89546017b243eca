//! Fetching questions: throttling, categories, tokens and the cache.

use std::collections::{HashSet, VecDeque};

use quiz_bot::calendar::Timestamp;
use quiz_bot::config::TriviaConfig;
use quiz_bot::fetcher::batch::{
    keep_usable, pick_category, prefetch_failed_message, store_questions, Prefetch, PrefetchStep,
};
use quiz_bot::fetcher::cache::{
    no_questions_message, question_group, CacheScan, NextQuestion, NextStep,
};
use quiz_bot::fetcher::categories::{
    active_groups, category_group_for_category, category_group_for_id, category_group_label,
    category_groups, category_is_active, normalise, CategoryGroup,
};
use quiz_bot::fetcher::fallback::{
    accepts, alternatives, avoided_last, Fallback, FallbackStep,
};
use quiz_bot::fetcher::gather::{
    GatherStep, Gathering, LockedGathering, ROUND_PREFETCH_BUDGET_SECS,
};
use quiz_bot::fetcher::questions::{
    category_can_follow, decode, decode_question, decoded_or, fingerprint_of_hash,
    question_is_valid, remaining_wait, token_fingerprint, ApiQuestion, MIN_REQUEST_INTERVAL,
};
use quiz_bot::fetcher::rounds::{
    least_used, pick_round_categories, select_round_categories, try_pick_round_categories,
    CategoryChoice,
};
use quiz_bot::fetcher::single::{
    earlier, keep_older, Duplicate, FetchError, FetchOne, FetchStep, QUESTION_REUSE_COOLDOWN_DAYS,
};
use quiz_bot::fetcher::token::{
    accept_reset, accept_token, batch_amount, cached_token, clear_token_if_matches,
    network_attempt, question_url, token_request_url, token_reset_url, unreachable_message,
    TOKEN_URL,
};
use quiz_bot::names::NameMap;
use quiz_bot::retry::RetryStep;
use quiz_bot::state::{FetchedQuestion, State};

const SECOND: u64 = 1_000_000_000;

fn question(category: &str, text: &str) -> FetchedQuestion {
    FetchedQuestion {
        category: category.to_owned(),
        difficulty: "easy".to_owned(),
        question: text.to_owned(),
        correct_answer: "Yes".to_owned(),
        incorrect_answers: vec!["No".to_owned(), "Maybe".to_owned(), "Never".to_owned()],
    }
}

fn counts_of(pairs: &[(&str, i64)]) -> NameMap<i64> {
    let mut counts = NameMap::new();
    for (name, n) in pairs {
        counts.insert((*name).to_owned(), *n);
    }
    counts
}

fn group(name: &'static str, id: u32) -> CategoryGroup {
    CategoryGroup { name, ids: vec![id] }
}

fn at(second: i64) -> Option<Timestamp> {
    Some(Timestamp::from_parts(second, 0))
}

fn texts_of(cache: &VecDeque<FetchedQuestion>) -> Vec<String> {
    cache.iter().map(|q| q.question.clone()).collect()
}

// ── Throttle ─────────────────────────────────────────────────────────────────

#[test]
fn remaining_wait_is_zero_once_the_interval_has_elapsed() {
    let t0 = 7 * SECOND;
    let after_interval = t0 + MIN_REQUEST_INTERVAL;
    assert_eq!(remaining_wait(t0, after_interval, MIN_REQUEST_INTERVAL), 0);
    let well_after = t0 + MIN_REQUEST_INTERVAL + 60 * SECOND;
    assert_eq!(remaining_wait(t0, well_after, MIN_REQUEST_INTERVAL), 0);
}

#[test]
fn remaining_wait_covers_exactly_the_gap_to_the_interval() {
    let t0 = 7 * SECOND;
    let one_second_in = t0 + SECOND;
    assert_eq!(remaining_wait(t0, one_second_in, 5 * SECOND), 4 * SECOND);
}

#[test]
fn remaining_wait_at_the_same_instant_is_the_full_interval() {
    let now = 7 * SECOND;
    assert_eq!(remaining_wait(now, now, MIN_REQUEST_INTERVAL), MIN_REQUEST_INTERVAL);
}

#[test]
fn remaining_wait_takes_an_earlier_now_for_no_time_at_all() {
    assert_eq!(remaining_wait(9 * SECOND, 2 * SECOND, 5 * SECOND), 5 * SECOND);
    assert_eq!(MIN_REQUEST_INTERVAL, 5_500_000_000);
}

// ── Round categories ─────────────────────────────────────────────────────────

#[test]
fn underused_group_is_not_selected_three_rounds_in_a_row() {
    let groups = vec![group("Politics", 24), group("History", 23), group("Art", 25)];
    let mut counts = counts_of(&[("Politics", 0), ("History", 50), ("Art", 50)]);
    let mut recent: Vec<String> = Vec::new();
    let mut selected: Vec<String> = Vec::new();

    for _ in 0..3 {
        let choice = select_round_categories(&groups, &counts, &recent, 1).pop().unwrap();
        let n = *counts.get(&choice.group).unwrap_or(&0) + 1;
        counts.insert(choice.group.clone(), n);
        recent.insert(0, choice.group.clone());
        recent.truncate(2);
        selected.push(choice.group);
    }

    assert_eq!(selected[0], "Politics");
    assert_ne!(selected[1], "Politics");
    assert_ne!(selected[2], "Politics");
}

#[test]
fn a_round_uses_distinct_groups_when_enough_are_active() {
    let groups = vec![
        group("Politics", 24),
        group("History", 23),
        group("Art", 25),
        group("Animals", 27),
    ];
    let choices = select_round_categories(&groups, &NameMap::new(), &[], 4);
    let unique: HashSet<_> = choices.iter().map(|choice| &choice.group).collect();
    assert_eq!(unique.len(), 4);
}

#[test]
fn small_category_pools_relax_without_adjacent_repeats() {
    let groups = vec![group("Politics", 24), group("History", 23)];
    let recent = vec!["Politics".to_owned(), "History".to_owned()];
    let choices = select_round_categories(&groups, &NameMap::new(), &recent, 5);

    assert_eq!(choices.len(), 5);
    assert!(choices.windows(2).all(|pair| pair[0].group != pair[1].group));
}

#[test]
fn a_chosen_category_belongs_to_its_group() {
    let choices = pick_round_categories(&[], &NameMap::new(), &[], 24);
    assert_eq!(choices.len(), 24);
    for choice in &choices {
        assert_eq!(category_group_for_id(choice.category_id), Some(choice.group.as_str()));
    }
    let first: HashSet<_> = choices[..12].iter().map(|c| &c.group).collect();
    assert_eq!(first.len(), 12);
}

#[test]
fn recent_groups_are_drawn_only_when_nothing_else_is_left() {
    let recent = vec!["ART".to_owned(), "science and technology".to_owned()];
    let choices = pick_round_categories(&[], &NameMap::new(), &recent, 10);
    for choice in &choices {
        assert_ne!(choice.group, "Art");
        assert_ne!(choice.group, "Science & Technology");
    }
    let more = pick_round_categories(&[], &NameMap::new(), &recent, 12);
    assert!(more[10].group == "Art" || more[10].group == "Science & Technology");
}

#[test]
fn a_single_group_is_drawn_again_and_again() {
    let groups = vec![group("Politics", 24)];
    let choices = select_round_categories(&groups, &NameMap::new(), &[], 3);
    assert_eq!(choices.len(), 3);
    assert!(choices.iter().all(|c| c.group == "Politics" && c.category_id == 24));
    assert!(select_round_categories(&groups, &NameMap::new(), &[], 0).is_empty());
}

#[test]
fn counts_without_room_are_refused() {
    let counts = counts_of(&[("Art", i64::MAX - 2)]);
    assert!(try_pick_round_categories(&[], &counts, &[], 3).is_none());
    let choices = try_pick_round_categories(&[], &counts, &[], 2).unwrap();
    assert!(choices.iter().all(|c| c.group != "Art"));
    let excluded = vec!["art".to_owned()];
    assert_eq!(try_pick_round_categories(&excluded, &counts, &[], 3).unwrap().len(), 3);
}

#[test]
fn least_used_lists_every_group_with_the_lowest_count() {
    let groups = vec![group("Politics", 24), group("History", 23), group("Art", 25)];
    let counts = counts_of(&[("Politics", 2), ("History", 1), ("Art", 1)]);
    assert_eq!(least_used(&groups, &counts, &[], &[]), vec![1, 2]);
    let drawn = vec![CategoryChoice { group: "Art".to_owned(), category_id: 25 }];
    assert_eq!(least_used(&groups, &counts, &[], &drawn), vec![1]);
    let recent = vec!["History".to_owned()];
    assert_eq!(least_used(&groups, &counts, &recent, &drawn), vec![0]);
}

// ── Categories ───────────────────────────────────────────────────────────────

#[test]
fn rejects_empty_and_duplicate_answers() {
    let malformed = FetchedQuestion {
        category: "History".to_owned(),
        difficulty: "easy".to_owned(),
        question: "Question?".to_owned(),
        correct_answer: "Same".to_owned(),
        incorrect_answers: vec!["same".to_owned(), "Other".to_owned(), "Third".to_owned()],
    };
    assert!(!question_is_valid(&malformed));
}

#[test]
fn a_complete_question_is_valid_and_a_gap_makes_it_invalid() {
    assert!(question_is_valid(&question("History", "Q?")));
    assert!(!question_is_valid(&question(" ", "Q?")));
    assert!(!question_is_valid(&question("History", "\t")));
    let mut q = question("History", "Q?");
    q.difficulty = String::new();
    assert!(!question_is_valid(&q));
    let mut q = question("History", "Q?");
    q.correct_answer = "  ".to_owned();
    assert!(!question_is_valid(&q));
    let mut q = question("History", "Q?");
    q.incorrect_answers.pop();
    assert!(!question_is_valid(&q));
    let mut q = question("History", "Q?");
    q.incorrect_answers[1] = " ".to_owned();
    assert!(!question_is_valid(&q));
    let mut q = question("History", "Q?");
    q.incorrect_answers[2] = "no".to_owned();
    assert!(!question_is_valid(&q));
}

#[test]
fn category_aliases_are_normalized_consistently() {
    assert_eq!(normalise("  Science  &  Technology "), "science and technology");
    assert_eq!(category_group_for_category("Science & Nature"), Some("Science & Technology"));
}

#[test]
fn names_match_in_any_case_and_with_any_spelling_of_and() {
    assert_eq!(normalise("SCIENCE&TECHNOLOGY"), normalise("Science and Technology"));
    assert_eq!(normalise("rock & roll"), normalise("Rock  AND\tRoll"));
    let once = normalise("  A & b  C ");
    assert_eq!(once, "a and b c");
    assert_eq!(normalise(&once), once);
    // Beyond ASCII, the standard library's lower case decides.
    assert_eq!(normalise(" ÄRZTE & ΟΔΟΣ "), "ärzte and οδος");
}

#[test]
fn every_known_category_has_its_group() {
    let known = [
        ("General Knowledge", "General Knowledge"),
        ("Science: Computers", "Science & Technology"),
        ("Science: Mathematics", "Science & Technology"),
        ("Science: Gadgets", "Science & Technology"),
        ("Entertainment: Japanese Anime & Manga", "Entertainment"),
        ("entertainment:", "Entertainment"),
        ("Mythology", "Mythology"),
        ("Sports", "Sports"),
        ("Geography", "Geography"),
        ("History", "History"),
        ("Politics", "Politics"),
        ("Art", "Art"),
        ("Celebrities", "Celebrities"),
        ("Animals", "Animals"),
        ("Vehicles", "Vehicles"),
    ];
    for (category, group) in known {
        assert_eq!(category_group_for_category(category), Some(group));
        assert_eq!(category_group_label(category), group);
    }
    assert_eq!(category_group_for_category("Science & Technology"), None);
    assert_eq!(category_group_label("Cooking"), "Cooking");
    assert_eq!(category_group_for_id(31), Some("Entertainment"));
    assert_eq!(category_group_for_id(30), Some("Science & Technology"));
    assert_eq!(category_group_for_id(8), None);
    assert_eq!(category_groups().len(), 12);
}

#[test]
fn excluded_groups_are_left_out_unless_all_are_excluded() {
    let excluded = vec!["science AND technology".to_owned(), " art ".to_owned()];
    let active = active_groups(&excluded);
    assert_eq!(active.len(), 10);
    assert!(active.iter().all(|g| g.name != "Art" && g.name != "Science & Technology"));
    assert!(!category_is_active("Science & Nature", &excluded));
    assert!(category_is_active("History", &excluded));
    assert!(category_is_active("Cooking", &excluded));

    let everything: Vec<String> =
        category_groups().iter().map(|g| g.name.to_owned()).collect();
    assert_eq!(active_groups(&everything).len(), 12);
    assert!(category_is_active("Art", &everything));
}

#[test]
fn consecutive_normalized_categories_are_rejected_when_alternatives_exist() {
    assert!(!category_can_follow(Some("geography"), " Geography ", 10));
    assert!(category_can_follow(Some("geography"), "History", 10));
    assert!(category_can_follow(Some("geography"), "Geography", 1));
}

#[test]
fn the_first_question_may_be_of_any_category() {
    assert!(category_can_follow(None, "Geography", 10));
    assert!(accepts("Geography", "geography", None, 10));
    assert!(!accepts("History", "Geography", None, 10));
    assert!(!accepts("Geography", "Geography", Some("geography"), 2));
    assert!(!accepts("Cooking", "Cooking", None, 10));
}

// ── Decoding ─────────────────────────────────────────────────────────────────

#[test]
fn texts_are_decoded_from_base64_or_kept() {
    assert_eq!(decode("SGlzdG9yeQ=="), "History");
    assert_eq!(decode("w6R0dA=="), "ätt");
    assert_eq!(decode("not base64!"), "not base64!");
    // Well-formed base64 of bytes that are no text.
    assert_eq!(decode("//79"), "//79");
    assert_eq!(decode(""), "");
    assert_eq!(decoded_or("raw", None), "raw");
    assert_eq!(decoded_or("raw", Some(vec![0xff])), "raw");
    assert_eq!(decoded_or("raw", Some(b"text".to_vec())), "text");
}

#[test]
fn a_question_is_decoded_field_by_field() {
    let raw = ApiQuestion {
        category: "QXJ0".to_owned(),
        difficulty: "ZWFzeQ==".to_owned(),
        question: "V2hvPw==".to_owned(),
        correct_answer: "TWU=".to_owned(),
        incorrect_answers: vec!["WW91".to_owned(), "%".to_owned()],
    };
    let q = decode_question(&raw);
    assert_eq!(q.category, "Art");
    assert_eq!(q.difficulty, "easy");
    assert_eq!(q.question, "Who?");
    assert_eq!(q.correct_answer, "Me");
    assert_eq!(q.incorrect_answers, vec!["You".to_owned(), "%".to_owned()]);
}

#[test]
fn a_fingerprint_is_eight_hex_digits_and_not_the_token() {
    assert_eq!(fingerprint_of_hash(0x1234_5678_9abc_def0), "9abcdef0");
    assert_eq!(fingerprint_of_hash(0xf), "0000000f");
    let fp = token_fingerprint("tok-abc");
    assert_eq!(fp.len(), 8);
    assert!(fp.chars().all(|c| c.is_ascii_hexdigit()));
    assert_eq!(fp, token_fingerprint("tok-abc"));
    assert_ne!(fp, token_fingerprint("tok-abd"));
}

// ── Tokens ───────────────────────────────────────────────────────────────────

#[test]
fn ensure_token_requests_once_and_reuses_the_cached_value() {
    let mut state = State::default();
    assert_eq!(cached_token(&state), None);
    let first = accept_token(&mut state, 0, Some("tok-abc".to_owned())).unwrap();
    let second = cached_token(&state).unwrap();
    assert_eq!(first, "tok-abc");
    assert_eq!(second, "tok-abc");
}

#[test]
fn reset_keeps_the_same_token_cached_no_second_token_request() {
    let mut state = State::default();
    let token = accept_token(&mut state, 0, Some("tok-xyz".to_owned())).unwrap();
    assert_eq!(token, "tok-xyz");
    assert!(accept_reset(0).is_ok());
    assert_eq!(state.opentdb_token.as_deref(), Some("tok-xyz"));
}

#[test]
fn clear_token_if_matches_removes_a_stale_token() {
    let mut state = State::default();
    state.opentdb_token = Some("stale-token".to_owned());
    assert!(clear_token_if_matches(&mut state, "stale-token"));
    assert_eq!(state.opentdb_token, None);
}

#[test]
fn clear_token_if_matches_preserves_a_token_replaced_concurrently() {
    let mut state = State::default();
    state.opentdb_token = Some("new-token".to_owned());
    assert!(!clear_token_if_matches(&mut state, "old-token"));
    assert_eq!(state.opentdb_token.as_deref(), Some("new-token"));
}

#[test]
fn expired_token_is_re_requested_after_being_cleared() {
    let mut state = State::default();
    let first = accept_token(&mut state, 0, Some("tok-1".to_owned())).unwrap();
    assert_eq!(first, "tok-1");
    clear_token_if_matches(&mut state, &first);
    assert_eq!(cached_token(&state), None);
    let second = accept_token(&mut state, 0, Some("tok-2".to_owned())).unwrap();
    assert_eq!(second, "tok-2");
}

#[test]
fn ensure_token_surfaces_a_non_zero_response_code_as_an_error() {
    let mut state = State::default();
    let err = accept_token(&mut state, 2, None).unwrap_err();
    assert!(err.contains("code 2"), "error was: {err}");
    assert_eq!(err, "OpenTDB token request failed (code 2)");
    assert_eq!(state.opentdb_token, None);
    assert_eq!(accept_reset(4).unwrap_err(), "OpenTDB token reset failed (code 4)");
}

#[test]
fn a_missing_token_counts_as_an_empty_one() {
    let mut state = State::default();
    assert_eq!(accept_token(&mut state, 0, None).unwrap(), "");
    assert_eq!(state.opentdb_token.as_deref(), Some(""));
}

#[test]
fn requests_are_written_out() {
    assert_eq!(
        token_request_url(TOKEN_URL),
        "https://opentdb.com/api_token.php?command=request"
    );
    assert_eq!(
        token_reset_url(TOKEN_URL, "abc"),
        "https://opentdb.com/api_token.php?command=reset&token=abc"
    );
    assert_eq!(
        question_url(10, "abc", 23, None),
        "https://opentdb.com/api.php?amount=10&type=multiple&encode=base64&token=abc&category=23"
    );
    assert_eq!(
        question_url(1, "abc", 9, Some("hard")),
        "https://opentdb.com/api.php?amount=1&type=multiple&encode=base64&token=abc&category=9\
         &difficulty=hard"
    );
}

#[test]
fn a_batch_has_one_to_fifty_questions() {
    let amount = |n: u32| {
        let mut trivia = TriviaConfig::default();
        trivia.batch_size = n;
        batch_amount(&trivia)
    };
    assert_eq!(amount(0), 1);
    assert_eq!(amount(10), 10);
    assert_eq!(amount(51), 50);
}

#[test]
fn transport_errors_are_retried_with_doubling_waits() {
    let waits: Vec<Option<u64>> = (0..6)
        .map(|n| match network_attempt(n) {
            RetryStep::Try { wait_secs } => Some(wait_secs),
            RetryStep::GiveUp => None,
        })
        .collect();
    assert_eq!(waits, vec![Some(0), Some(1), Some(2), Some(4), Some(8), None]);
    assert_eq!(unreachable_message(), "OpenTDB unreachable after 5 attempts");
}

// ── Prefetching ──────────────────────────────────────────────────────────────

#[test]
fn a_configured_category_is_used_and_otherwise_one_is_drawn() {
    assert_eq!(pick_category(Some(11), &[]), 11);
    let excluded: Vec<String> = category_groups()
        .iter()
        .filter(|g| g.name != "Science & Technology")
        .map(|g| g.name.to_owned())
        .collect();
    for _ in 0..20 {
        let id = pick_category(None, &excluded);
        assert!([17, 18, 19, 30].contains(&id));
    }
}

#[test]
fn prefetching_stores_valid_questions_only() {
    let mut bad = question("History", "bad");
    bad.incorrect_answers.clear();
    let (mut prefetch, step) = Prefetch::start();
    assert!(matches!(step, PrefetchStep::Attempt { wait_secs: 0 }));
    let step = prefetch.on_answer(0, vec![question("History", "one"), bad, question("Art", "two")]);
    let PrefetchStep::Store { questions } = step else {
        panic!("should store");
    };
    let mut state = State::default();
    state.cached_questions.push_back(question("Sports", "zero"));
    store_questions(&mut state, questions);
    assert_eq!(texts_of(&state.cached_questions), vec!["zero", "one", "two"]);
    assert_eq!(keep_usable(vec![question(" ", "x")]).len(), 0);
}

#[test]
fn prefetching_refreshes_a_token_once_and_gives_up_in_the_end() {
    let (mut prefetch, _) = Prefetch::start();
    assert!(matches!(prefetch.on_answer(3, Vec::new()), PrefetchStep::ClearToken));
    assert!(matches!(prefetch.retry(), PrefetchStep::Attempt { wait_secs: 1 }));
    // Refreshed already: no second time, neither for code 3 nor for code 4.
    assert!(matches!(prefetch.on_answer(4, Vec::new()), PrefetchStep::Attempt { wait_secs: 2 }));
    assert!(matches!(prefetch.on_answer(5, Vec::new()), PrefetchStep::Attempt { wait_secs: 4 }));
    assert!(matches!(prefetch.on_answer(0, Vec::new()), PrefetchStep::Attempt { wait_secs: 8 }));
    assert!(matches!(prefetch.on_answer(9, Vec::new()), PrefetchStep::GiveUp));
    assert_eq!(prefetch_failed_message(), "OpenTDB prefetch failed after 5 attempts");

    let (mut prefetch, _) = Prefetch::start();
    assert!(matches!(prefetch.on_answer(4, Vec::new()), PrefetchStep::ResetToken));
}

// ── One question ─────────────────────────────────────────────────────────────

#[test]
fn a_question_never_asked_counts_as_oldest() {
    assert!(earlier(&None, &at(5)));
    assert!(!earlier(&None, &None));
    assert!(!earlier(&at(5), &None));
    assert!(earlier(&at(4), &at(5)));
    assert!(!earlier(&at(5), &at(5)));
    let old = Duplicate { question: question("Art", "old"), last_asked: at(1) };
    let new = Duplicate { question: question("Art", "new"), last_asked: at(2) };
    assert_eq!(keep_older(Some(new), old).question.question, "old");
    let old = Duplicate { question: question("Art", "old"), last_asked: at(1) };
    let equal = Duplicate { question: question("Art", "equal"), last_asked: at(1) };
    assert_eq!(keep_older(Some(old), equal).question.question, "old");
    assert_eq!(QUESTION_REUSE_COOLDOWN_DAYS, 60);
}

#[test]
fn a_fresh_question_is_found() {
    let (mut fetch, step) = FetchOne::start();
    assert!(matches!(step, FetchStep::Attempt { wait_secs: 0 }));
    let step = fetch.on_answer(0, Some(question("Art", "fresh")));
    assert!(matches!(step, FetchStep::CheckHistory));
    let FetchStep::Found { question } = fetch.on_history(false, None) else {
        panic!("should be found");
    };
    assert_eq!(question.question, "fresh");
}

#[test]
fn the_oldest_of_six_repeats_is_asked_again() {
    let (mut fetch, _) = FetchOne::start();
    let times = [40, 30, 10, 20, 50, 60];
    for (i, time) in times.iter().enumerate() {
        let step = fetch.on_answer(0, Some(question("Art", &format!("q{time}"))));
        assert!(matches!(step, FetchStep::CheckHistory));
        let step = fetch.on_history(true, at(*time));
        if i < 5 {
            assert!(matches!(step, FetchStep::Attempt { wait_secs: 0 }));
        } else {
            let FetchStep::Found { question } = step else {
                panic!("should be found");
            };
            assert_eq!(question.question, "q10");
        }
    }
}

#[test]
fn fetching_one_question_fails_for_six_reasons() {
    let fail = |step: FetchStep| match step {
        FetchStep::Fail { wait_secs, error } => (wait_secs, error.message(7, "why")),
        _ => panic!("should fail"),
    };
    let (mut fetch, _) = FetchOne::start();
    for _ in 0..5 {
        assert!(matches!(fetch.no_token(), FetchStep::Attempt { wait_secs: 2 }));
    }
    assert_eq!(fail(fetch.no_token()), (0, "ensure_token failed after all retries: why".to_owned()));

    let (mut fetch, _) = FetchOne::start();
    for _ in 0..5 {
        assert!(matches!(fetch.no_answer(), FetchStep::Attempt { wait_secs: 0 }));
    }
    assert_eq!(
        fail(fetch.no_answer()),
        (0, "fetch_one network error after all retries: why".to_owned())
    );

    let (mut fetch, _) = FetchOne::start();
    assert_eq!(
        fail(fetch.on_answer(0, None)),
        (0, "OpenTDB returned empty results for category 7".to_owned())
    );

    let (mut fetch, _) = FetchOne::start();
    assert!(matches!(fetch.on_answer(3, None), FetchStep::ClearToken));
    assert!(matches!(fetch.refreshed(), FetchStep::Attempt { wait_secs: 0 }));
    assert_eq!(
        fail(fetch.on_answer(3, None)),
        (0, "OpenTDB token not found even after refresh".to_owned())
    );

    let (mut fetch, _) = FetchOne::start();
    assert!(matches!(fetch.on_answer(4, None), FetchStep::ResetToken));
    assert!(matches!(fetch.refreshed(), FetchStep::Attempt { wait_secs: 0 }));
    assert_eq!(
        fail(fetch.on_answer(4, None)),
        (0, "OpenTDB token still exhausted after reset".to_owned())
    );

    let (mut fetch, _) = FetchOne::start();
    for _ in 0..5 {
        assert!(matches!(fetch.on_answer(5, None), FetchStep::Attempt { wait_secs: 6 }));
    }
    assert_eq!(
        fail(fetch.on_answer(5, None)),
        (6, "fetch_one failed after all retries for category 7".to_owned())
    );
    assert_eq!(
        FetchError::OutOfAttempts.message(3, ""),
        "fetch_one failed after all retries for category 3"
    );
}

#[test]
fn a_malformed_question_costs_an_attempt() {
    let (mut fetch, _) = FetchOne::start();
    for _ in 0..5 {
        let step = fetch.on_answer(0, Some(question("Art", " ")));
        assert!(matches!(step, FetchStep::Attempt { wait_secs: 0 }));
    }
    let step = fetch.on_answer(0, Some(question("Art", " ")));
    assert!(matches!(step, FetchStep::Fail { wait_secs: 0, error: FetchError::OutOfAttempts }));
}

// ── The cache ────────────────────────────────────────────────────────────────

#[test]
fn a_scan_finds_the_first_fitting_question_and_keeps_the_rest() {
    let mut state = State::default();
    state.cached_questions.push_back(question("History", "h1"));
    state.cached_questions.push_back(question("Art", " "));
    state.cached_questions.push_back(question("Sports", "s1"));
    state.cached_questions.push_back(question("Art", "a1"));
    let avoid = vec!["history".to_owned()];
    let excluded = vec!["Sports".to_owned()];
    let mut scan = CacheScan::start(&state);
    let found = scan.next(&mut state, &avoid, &excluded).unwrap();
    assert_eq!(found.question, "a1");
    // What was malformed is gone, what was skipped went to the end.
    assert_eq!(texts_of(&state.cached_questions), vec!["h1", "s1"]);
    assert!(scan.next(&mut state, &avoid, &excluded).is_none());
    assert_eq!(question_group(&question("Science & Nature", "x")), "science and technology");
}

#[test]
fn a_fruitless_scan_leaves_the_cache_in_order() {
    let mut state = State::default();
    for text in ["one", "two", "three"] {
        state.cached_questions.push_back(question("History", text));
    }
    let avoid = vec!["history".to_owned()];
    let mut scan = CacheScan::start(&state);
    assert!(scan.next(&mut state, &avoid, &[]).is_none());
    assert_eq!(texts_of(&state.cached_questions), vec!["one", "two", "three"]);
}

#[test]
fn the_next_question_comes_from_the_front_and_refills_a_low_cache() {
    let mut state = State::default();
    assert!(NextQuestion::needs_prefetch(&state));
    for text in ["one", "two", "three", "four"] {
        state.cached_questions.push_back(question("History", text));
    }
    assert!(!NextQuestion::needs_prefetch(&state));
    let mut next = NextQuestion::start();
    assert!(matches!(next.take(&mut state, false, &[]), NextStep::CheckHistory { refill: false }));
    assert!(matches!(next.on_history(true, at(1)), NextStep::Again));
    assert!(matches!(next.take(&mut state, false, &[]), NextStep::CheckHistory { refill: true }));
    let NextStep::Found { question } = next.on_history(false, None) else {
        panic!("should be found");
    };
    assert_eq!(question.question, "two");
}

#[test]
fn the_next_question_skips_excluded_groups_unless_a_category_is_set() {
    let excluded = vec!["History".to_owned()];
    let mut state = State::default();
    state.cached_questions.push_back(question("History", "one"));
    let mut next = NextQuestion::start();
    assert!(matches!(next.take(&mut state, false, &excluded), NextStep::Again));
    assert!(matches!(next.take(&mut state, false, &excluded), NextStep::NoQuestions));
    assert_eq!(no_questions_message(), "OpenTDB returned no questions");
    state.cached_questions.push_back(question("History", "one"));
    let mut next = NextQuestion::start();
    assert!(matches!(
        next.take(&mut state, true, &excluded),
        NextStep::CheckHistory { refill: true }
    ));
}

#[test]
fn after_thirty_skips_the_oldest_repeat_is_taken() {
    let mut state = State::default();
    let mut next = NextQuestion::start();
    for i in 0..31i64 {
        state.cached_questions.push_back(question("Art", &format!("q{i}")));
        assert!(matches!(next.take(&mut state, false, &[]), NextStep::CheckHistory { .. }));
        let time = if i == 17 { 1 } else { 100 + i };
        let step = next.on_history(true, at(time));
        if i < 30 {
            assert!(matches!(step, NextStep::Again));
        } else {
            let NextStep::Found { question } = step else {
                panic!("should be found");
            };
            assert_eq!(question.question, "q17");
        }
    }
}

#[test]
fn malformed_questions_can_use_up_all_attempts() {
    let mut state = State::default();
    let mut next = NextQuestion::start();
    for i in 0..31 {
        state.cached_questions.push_back(question(" ", "x"));
        let step = next.take(&mut state, false, &[]);
        if i < 30 {
            assert!(matches!(step, NextStep::Again));
        } else {
            assert!(matches!(step, NextStep::OutOfAttempts));
        }
    }
}

// ── Fallback ─────────────────────────────────────────────────────────────────

#[test]
fn alternatives_leave_out_the_previous_group_and_put_avoided_ones_last() {
    let avoid = vec!["art".to_owned(), "history".to_owned()];
    let groups = alternatives(&[], Some("sports"), &avoid);
    assert_eq!(groups.len(), 11);
    assert!(groups.iter().all(|g| g.name != "Sports"));
    let last: HashSet<_> = groups[9..].iter().map(|g| g.name).collect();
    assert_eq!(last, HashSet::from(["Art", "History"]));

    let sorted = avoided_last(
        &vec![group("Art", 25), group("Animals", 27), group("History", 23), group("Sports", 21)],
        &avoid,
    );
    let names: Vec<_> = sorted.iter().map(|g| g.name).collect();
    assert_eq!(names, vec!["Animals", "Sports", "Art", "History"]);
}

#[test]
fn a_fallback_looks_in_the_cache_twice_and_fetches_twice() {
    let avoid = vec!["art".to_owned()];
    let (mut fallback, step) = Fallback::start(true, &avoid, Some("history"));
    assert!(matches!(step, FallbackStep::Prefetch));
    let FallbackStep::Scan { avoid: first } = fallback.filled() else {
        panic!("should scan");
    };
    assert_eq!(first, vec!["art".to_owned()]);
    let FallbackStep::Scan { avoid: second } = fallback.scanned(None, &[]) else {
        panic!("should scan again");
    };
    assert_eq!(second, vec!["history".to_owned()]);
    let FallbackStep::Fetch { category_id } = fallback.scanned(None, &[]) else {
        panic!("should fetch");
    };
    assert_ne!(category_group_for_id(category_id), Some("History"));
    assert!(matches!(fallback.fetched(None), FallbackStep::Fetch { .. }));
    // Of the previous group, so it is refused.
    let step = fallback.fetched(Some(question("History", "again")));
    assert!(matches!(step, FallbackStep::Refuse));
}

#[test]
fn a_fallback_takes_what_the_cache_has() {
    let (mut fallback, step) = Fallback::start(false, &Vec::new(), None);
    assert!(matches!(step, FallbackStep::Scan { .. }));
    let step = fallback.scanned(Some(question("Art", "cached")), &[]);
    assert!(matches!(step, FallbackStep::Found { question } if question.question == "cached"));
}

#[test]
fn with_one_group_only_a_repeat_cannot_be_avoided() {
    let excluded: Vec<String> = category_groups()
        .iter()
        .filter(|g| g.name != "Art")
        .map(|g| g.name.to_owned())
        .collect();
    let (mut fallback, _) = Fallback::start(false, &Vec::new(), Some("art"));
    assert!(matches!(fallback.scanned(None, &excluded), FallbackStep::Scan { .. }));
    assert!(matches!(fallback.scanned(None, &excluded), FallbackStep::TakeNext));
}

// ── Gathering ────────────────────────────────────────────────────────────────

#[test]
fn a_round_is_gathered_slot_by_slot() {
    let choices = vec![
        CategoryChoice { group: "Art".to_owned(), category_id: 25 },
        CategoryChoice { group: "History".to_owned(), category_id: 23 },
        CategoryChoice { group: "Sports".to_owned(), category_id: 21 },
    ];
    let mut gathering = Gathering::start(choices, &["Animals".to_owned()], &[]);
    assert!(matches!(gathering.step(0), GatherStep::Fetch { category_id: 25 }));
    assert_eq!(gathering.previous_group(), None);
    assert!(gathering.fetched(Some(question("Art", "a"))));
    assert_eq!(gathering.previous_group().as_deref(), Some("art"));
    // The wrong category came: something else is looked for.
    assert!(matches!(gathering.step(60), GatherStep::Fetch { category_id: 23 }));
    assert!(!gathering.fetched(Some(question("Art", "b"))));
    gathering.filled(Some(question("Geography", "c")));
    assert!(matches!(gathering.step(179), GatherStep::Fetch { category_id: 21 }));
    assert!(!gathering.fetched(None));
    gathering.filled(None);
    assert!(matches!(gathering.step(179), GatherStep::Done));
    let texts: Vec<_> = gathering.questions.iter().map(|q| q.question.as_str()).collect();
    assert_eq!(texts, vec!["a", "c"]);
    let avoid: HashSet<_> = gathering.avoid.iter().map(|s| s.as_str()).collect();
    assert_eq!(avoid, HashSet::from(["animals", "art", "geography"]));
}

#[test]
fn a_locked_category_is_gathered_until_it_fails() {
    let mut gathering = LockedGathering::start(2);
    assert!(gathering.wants_more());
    gathering.took(Some(question("Art", "a")));
    assert!(gathering.wants_more());
    gathering.took(Some(question("Art", "b")));
    assert!(!gathering.wants_more());
    let texts: Vec<_> = gathering.questions.iter().map(|q| q.question.as_str()).collect();
    assert_eq!(texts, vec!["a", "b"]);

    let mut gathering = LockedGathering::start(3);
    gathering.took(Some(question("Art", "a")));
    gathering.took(None);
    assert!(!gathering.wants_more());
    assert_eq!(gathering.questions.len(), 1);
    assert!(!LockedGathering::start(0).wants_more());
}

#[test]
fn gathering_ends_when_its_time_is_up() {
    let choices = vec![CategoryChoice { group: "Art".to_owned(), category_id: 25 }];
    let gathering = Gathering::start(choices, &[], &[]);
    assert_eq!(ROUND_PREFETCH_BUDGET_SECS, 180);
    assert!(matches!(gathering.step(179), GatherStep::Fetch { .. }));
    assert!(matches!(gathering.step(180), GatherStep::Done));
}

#[test]
fn normalised_names_are_tidy_and_stay() {
    for name in ["", "  Science  &\tTechnology ", "&", "ÄÖ &Σ ", "a & b&c"] {
        let tidy = normalise(name);
        assert_eq!(normalise(&tidy), tidy);
        assert!(!tidy.contains('&'));
        assert_eq!(tidy.split_whitespace().collect::<Vec<&str>>().join(" "), tidy);
        assert_eq!(normalise(&name.replace('&', " and ")), tidy);
    }
}
