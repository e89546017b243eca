//! TriviaQA: reading the dataset, cleaning it up, judging and supplying
//! questions.

use std::io::Write;

use flate2::{write::GzEncoder, Compression};
use serde_json::Value;

use quiz_bot::config::QuestionSource;
use quiz_bot::fetcher::categories::{category_groups, category_group_for_id};
use quiz_bot::retry::RetryStep;
use quiz_bot::triviaqa::archive::may_overflow;
use quiz_bot::triviaqa::classify::{
    batch_items, canonicalize_category_group, canonicalize_difficulty, generation_system_prompt,
    group_description, json_span, judge_batch, parse_distractor_lines, tally_batch, validate_item,
    verdict_of, yes, BatchOutcome, ItemReply, TriviaQaRow, Verdict,
};
use quiz_bot::triviaqa::cleanup::{clean_question, display_answer};
use quiz_bot::triviaqa::dataset::{
    already_ingested, choose_entry, download_attempt, download_failed_message,
    extract_dataset_json, gunzip_if_needed, import_rows, ingest_kv_key, ingest_step,
    starts_as_json, DatasetError, Entry, IngestStep, TriviaQaImportRow,
};
use quiz_bot::triviaqa::supply::{
    allowed_category_groups, batch_had_questions, keeps_stock, needs_batch, offer_candidate,
    preview_of, should_offer, stock_wait, to_question, PoolStats, Supply, SupplyError, SupplyStep,
};

// ── The dataset ──────────────────────────────────────────────────────────────

const SAMPLE_JSON: &str = r#"{
    "Data": [
        {
            "Question": "Who painted the Mona Lisa?",
            "Answer": { "Value": "Leonardo da Vinci", "Aliases": ["da Vinci", "Leonardo"] }
        },
        {
            "Question": "  ",
            "Answer": { "Value": "should be filtered", "Aliases": [] }
        },
        {
            "Question": "What is the capital of France?",
            "Answer": { "Value": "Paris", "Aliases": [] }
        }
    ]
}"#;

fn entry_of(value: &Value) -> Option<Entry> {
    let answer = value.get("Answer")?;
    let aliases = match answer.get("Aliases") {
        None => Vec::new(),
        Some(list) => {
            list.as_array()?.iter().map(|a| a.as_str().map(str::to_owned)).collect::<Option<_>>()?
        }
    };
    Some(Entry {
        question: value.get("Question")?.as_str()?.to_owned(),
        answer: answer.get("Value")?.as_str()?.to_owned(),
        aliases,
    })
}

fn entries_of(bytes: &[u8]) -> Option<Vec<Entry>> {
    let value: Value = serde_json::from_slice(bytes).ok()?;
    value.get("Data")?.as_array()?.iter().map(entry_of).collect()
}

fn parse_dataset(bytes: &[u8], max_entries: usize) -> Result<Vec<TriviaQaImportRow>, String> {
    let json = extract_dataset_json(bytes).map_err(|e| e.message().to_owned())?;
    let entries = entries_of(&json)
        .ok_or_else(|| "TriviaQA JSON did not match the expected schema".to_owned())?;
    Ok(import_rows(&entries, max_entries))
}

fn error_of(result: Result<Vec<TriviaQaImportRow>, String>) -> String {
    match result {
        Ok(_) => panic!("should fail"),
        Err(e) => e,
    }
}

#[test]
fn parse_dataset_filters_blank_questions_and_respects_the_cap() {
    let rows = parse_dataset(SAMPLE_JSON.as_bytes(), 100).unwrap();
    assert_eq!(rows.len(), 2);
    assert_eq!(rows[0].question_text, "Who painted the Mona Lisa?");
    assert_eq!(rows[0].correct_answer, "Leonardo da Vinci");
    assert_eq!(rows[0].aliases, vec!["da Vinci", "Leonardo"]);

    let capped = parse_dataset(SAMPLE_JSON.as_bytes(), 1).unwrap();
    assert_eq!(capped.len(), 1);
}

#[test]
fn parse_dataset_transparently_decompresses_gzip() {
    let gz_bytes = gzip(SAMPLE_JSON.as_bytes());
    let rows = parse_dataset(&gz_bytes, 100).unwrap();
    assert_eq!(rows.len(), 2);
}

#[test]
fn parse_dataset_rejects_json_that_does_not_match_the_schema() {
    let err = error_of(parse_dataset(b"{\"nope\": true}", 100));
    assert!(err.contains("schema"));
}

fn build_tar(entries: &[(&str, &[u8])]) -> Vec<u8> {
    let mut builder = tar::Builder::new(Vec::new());
    for (path, data) in entries {
        let mut header = tar::Header::new_gnu();
        header.set_size(data.len() as u64);
        header.set_mode(0o644);
        header.set_cksum();
        builder.append_data(&mut header, path, *data).unwrap();
    }
    builder.finish().unwrap();
    builder.into_inner().unwrap()
}

fn gzip(bytes: &[u8]) -> Vec<u8> {
    let mut encoder = GzEncoder::new(Vec::new(), Compression::default());
    encoder.write_all(bytes).unwrap();
    encoder.finish().unwrap()
}

#[test]
fn parse_dataset_reads_a_plain_tar_archive() {
    let tar_bytes = build_tar(&[("triviaqa/unfiltered-web-dev.json", SAMPLE_JSON.as_bytes())]);
    let rows = parse_dataset(&tar_bytes, 100).unwrap();
    assert_eq!(rows.len(), 2);
}

#[test]
fn parse_dataset_reads_a_gzipped_tar_archive() {
    let tar_bytes = build_tar(&[("triviaqa/unfiltered-web-dev.json", SAMPLE_JSON.as_bytes())]);
    let rows = parse_dataset(&gzip(&tar_bytes), 100).unwrap();
    assert_eq!(rows.len(), 2);
}

#[test]
fn parse_dataset_prefers_the_dev_split_over_other_archive_entries() {
    let other_split = br#"{"Data": [{"Question": "wrong split", "Answer": {"Value": "x"}}]}"#;
    let tar_bytes = build_tar(&[
        ("triviaqa/unfiltered-web-train.json", other_split.as_slice()),
        ("triviaqa/README", b"not json".as_slice()),
        ("triviaqa/unfiltered-web-dev.json", SAMPLE_JSON.as_bytes()),
    ]);
    let rows = parse_dataset(&tar_bytes, 100).unwrap();
    assert_eq!(rows.len(), 2);
    assert_eq!(rows[0].question_text, "Who painted the Mona Lisa?");
}

#[test]
fn parse_dataset_falls_back_to_any_json_entry_that_is_not_without_answers() {
    let without_answers = br#"{"Data": [{"Question": "no answer here", "Answer": {"Value": ""}}]}"#;
    let tar_bytes = build_tar(&[
        ("triviaqa/unfiltered-web-test-without-answers.json", without_answers.as_slice()),
        ("triviaqa/custom-dataset.json", SAMPLE_JSON.as_bytes()),
    ]);
    let rows = parse_dataset(&tar_bytes, 100).unwrap();
    assert_eq!(rows.len(), 2);
}

#[test]
fn parse_dataset_errors_when_archive_has_no_usable_json_entry() {
    let without_answers = br#"{"Data": []}"#;
    let tar_bytes = build_tar(&[(
        "triviaqa/unfiltered-web-test-without-answers.json",
        without_answers.as_slice(),
    )]);
    let err = error_of(parse_dataset(&tar_bytes, 100));
    assert!(err.contains("no usable"));
}

#[test]
fn broken_payloads_are_told_apart() {
    let mut broken = gzip(SAMPLE_JSON.as_bytes());
    broken.truncate(20);
    assert_eq!(extract_dataset_json(&broken).unwrap_err(), DatasetError::Gzip);
    assert_eq!(gunzip_if_needed(&[0x1f, 0x8b]).unwrap_err(), DatasetError::Gzip);
    assert_eq!(gunzip_if_needed(b"as is").unwrap(), b"as is".to_vec());
    assert_eq!(gunzip_if_needed(&gzip(b"packed")).unwrap(), b"packed".to_vec());
    assert_eq!(extract_dataset_json(&[7u8; 600]).unwrap_err(), DatasetError::Listing);
    assert_eq!(extract_dataset_json(b"").unwrap_err(), DatasetError::NoUsableFile);
    let mut cut = build_tar(&[("a.json", &[b'x'; 2000])]);
    cut.truncate(1000);
    assert_eq!(extract_dataset_json(&cut).unwrap_err(), DatasetError::Listing);
    assert!(starts_as_json(&b" \n\t{".to_vec()));
    assert!(!starts_as_json(&b"[{".to_vec()));
    assert!(!starts_as_json(&Vec::new()));
}

#[test]
fn an_entry_is_chosen_by_preference_and_then_by_order() {
    let choose = |paths: &[&str]| {
        choose_entry(&paths.iter().map(|p| (*p).to_owned()).collect::<Vec<String>>())
    };
    assert_eq!(choose(&["x/wikipedia-train.json", "x/wikipedia-dev.json"]), Some(1));
    // A file is chosen by its name, not by any ending of its path.
    assert_eq!(choose(&["x/verified-wikipedia-dev.json", "x/wikipedia-dev.json"]), Some(1));
    assert_eq!(choose(&["verified-wikipedia-dev.json", "wikipedia-dev.json"]), Some(1));
    assert_eq!(choose(&["x/verified-wikipedia-dev.json", "x/a.json"]), Some(0));
    assert_eq!(choose(&["b-without-answers.json", "b.json", "a.json"]), Some(1));
    assert_eq!(choose(&["b-without-answers.json"]), None);
    assert_eq!(choose(&[]), None);
}

#[test]
fn the_preferred_file_is_read_wherever_it_stands() {
    let bytes =
        build_tar(&[("qa/verified-wikipedia-dev.json", b"{}"), ("qa/wikipedia-dev.json", b"{ }")]);
    assert_eq!(extract_dataset_json(&bytes).unwrap(), b"{ }".to_vec());
}

/// The GNU header of a sparse file that goes on in the next block, which is
/// empty.
fn continued_sparse(size: u64) -> Vec<u8> {
    let mut bytes = vec![0u8; 1024];
    bytes[..6].copy_from_slice(b"a.json");
    bytes[124] = 0x80;
    bytes[128..136].copy_from_slice(&size.to_be_bytes());
    bytes[156] = b'S';
    bytes[257..265].copy_from_slice(b"ustar  \0");
    bytes[482] = 1;
    bytes[483..494].copy_from_slice(b"00000000000");
    seal(&mut bytes);
    bytes
}

fn seal(header: &mut [u8]) {
    header[148..156].fill(b' ');
    let sum: u32 = header[..512].iter().map(|b| u32::from(*b)).sum();
    header[148..155].copy_from_slice(format!("{sum:06o}\0").as_bytes());
}

#[test]
fn archives_that_cannot_be_counted_are_refused() {
    let huge = continued_sparse(u64::MAX - 1023);
    assert!(may_overflow(&huge));
    assert_eq!(extract_dataset_json(&huge).unwrap_err(), DatasetError::Listing);
    assert!(may_overflow(&continued_sparse(1 << 63)));

    // An ordinary one goes through: it is an empty file.
    let small = continued_sparse(0);
    assert!(!may_overflow(&small));
    assert_eq!(extract_dataset_json(&small).unwrap(), Vec::<u8>::new());

    // The size may also stand in a pax record before the header.
    let record = b"29 size=18446744073709550592";
    let mut pax = vec![0u8; 1024];
    pax[..1].copy_from_slice(b"x");
    pax[124..136].copy_from_slice(b"00000000035\0");
    pax[156] = b'x';
    pax[257..265].copy_from_slice(b"ustar\x0000");
    seal(&mut pax);
    pax[512..540].copy_from_slice(record);
    pax[540] = b'\n';
    let mut both = pax.clone();
    both.extend_from_slice(&continued_sparse(0));
    assert!(may_overflow(&both));
    assert_eq!(extract_dataset_json(&both).unwrap_err(), DatasetError::Listing);
    assert!(!may_overflow(&pax));
    assert!(!may_overflow(&Vec::new()));
}

#[test]
fn only_headers_that_are_reached_count() {
    // The same bytes as the content of a file are no header.
    let huge = continued_sparse(u64::MAX - 1023);
    let held = build_tar(&[("a.json", huge.as_slice())]);
    assert!(!may_overflow(&held));
    assert_eq!(extract_dataset_json(&held).unwrap(), huge);

    // A record in the content of a file is none either.
    let record: &[u8] = b"29 size=18446744073709550592\n";
    let noted = build_tar(&[("x.txt", record), ("a.json", b"{}")]);
    assert!(!may_overflow(&noted));
    assert_eq!(extract_dataset_json(&noted).unwrap(), b"{}".to_vec());

    // A header behind the first file, or behind a sparse one, is reached.
    let mut second = build_tar(&[("a.json", b"{}")]);
    second.truncate(1024);
    second.extend_from_slice(&huge);
    assert!(may_overflow(&second));
    assert_eq!(extract_dataset_json(&second).unwrap_err(), DatasetError::Listing);
    let mut behind = continued_sparse(0);
    behind.extend_from_slice(&huge);
    assert!(may_overflow(&behind));
    assert_eq!(extract_dataset_json(&behind).unwrap_err(), DatasetError::Listing);

    // Nothing is reached behind an empty block.
    let mut ended = build_tar(&[("a.json", b"{}")]);
    ended.extend_from_slice(&huge);
    assert!(!may_overflow(&ended));
    assert_eq!(extract_dataset_json(&ended).unwrap(), b"{}".to_vec());
}

#[test]
fn long_names_are_read_in_archives() {
    let path = format!("{}/wikipedia-dev.json", "d".repeat(150));
    let bytes = build_tar(&[("b.json", b"{}"), (path.as_str(), b"{ }")]);
    assert!(!may_overflow(&bytes));
    assert_eq!(extract_dataset_json(&bytes).unwrap(), b"{ }".to_vec());
}

#[test]
fn imported_rows_are_trimmed_and_capped() {
    let entry = |q: &str, a: &str, aliases: &[&str]| Entry {
        question: q.to_owned(),
        answer: a.to_owned(),
        aliases: aliases.iter().map(|s| (*s).to_owned()).collect(),
    };
    let entries = vec![
        entry(" Q1 ", " A1\n", &[" x ", "  ", "y"]),
        entry("Q2", " ", &[]),
        entry("Q3", "A3", &[]),
        entry("Q4", "A4", &[]),
    ];
    let rows = import_rows(&entries, 2);
    assert_eq!(rows.len(), 2);
    assert_eq!(rows[0].question_text, "Q1");
    assert_eq!(rows[0].correct_answer, "A1");
    assert_eq!(rows[0].aliases, vec!["x", "y"]);
    assert_eq!(rows[1].question_text, "Q3");
    assert!(import_rows(&entries, 0).is_empty());
}

// ── Wrong answers ────────────────────────────────────────────────────────────

fn lines(raw: &str) -> Vec<String> {
    raw.lines().map(str::to_owned).collect()
}

#[test]
fn parse_distractor_lines_accepts_three_clean_lines() {
    let d = parse_distractor_lines(
        &lines("Michelangelo\nRaphael\nDonatello"),
        "Leonardo da Vinci",
        &Vec::new(),
    );
    assert_eq!(d, vec!["Michelangelo", "Raphael", "Donatello"]);
}

#[test]
fn parse_distractor_lines_strips_numbering_and_quotes() {
    let d = parse_distractor_lines(
        &lines("1. Michelangelo\n2) \"Raphael\"\n- Donatello"),
        "Leonardo da Vinci",
        &Vec::new(),
    );
    assert_eq!(d, vec!["Michelangelo", "Raphael", "Donatello"]);
}

#[test]
fn parse_distractor_lines_never_lets_the_correct_answer_through() {
    let raw = "Leonardo da Vinci\nda Vinci\nMichelangelo\nRaphael\nDonatello";
    let d = parse_distractor_lines(&lines(raw), "Leonardo da Vinci", &vec!["da Vinci".to_owned()]);
    assert_eq!(d, vec!["Michelangelo", "Raphael", "Donatello"]);
}

#[test]
fn parse_distractor_lines_deduplicates_case_insensitively() {
    let raw = "Michelangelo\nMICHELANGELO\nRaphael\nDonatello";
    let d = parse_distractor_lines(&lines(raw), "Leonardo da Vinci", &Vec::new());
    assert_eq!(d, vec!["Michelangelo", "Raphael", "Donatello"]);
}

#[test]
fn parse_distractor_lines_stops_short_when_too_few_survive_filtering() {
    let raw = "Leonardo da Vinci\nMichelangelo\nRaphael";
    let d = parse_distractor_lines(&lines(raw), "Leonardo da Vinci", &Vec::new());
    assert_eq!(d.len(), 2);
}

#[test]
fn parse_distractor_lines_ignores_absurdly_long_lines() {
    let long = "x".repeat(500);
    let raw = format!("{long}\nMichelangelo\nRaphael\nDonatello");
    let d = parse_distractor_lines(&lines(&raw), "Leonardo da Vinci", &Vec::new());
    assert_eq!(d, vec!["Michelangelo", "Raphael", "Donatello"]);
}

#[test]
fn a_wrong_answer_may_have_two_hundred_bytes() {
    let fits = "é".repeat(100);
    let long = "é".repeat(101);
    let raw = vec![long, fits.clone()];
    assert_eq!(parse_distractor_lines(&raw, "x", &Vec::new()), vec![fits]);
}

// ── Names ────────────────────────────────────────────────────────────────────

#[test]
fn canonicalize_category_group_matches_known_groups_case_and_amp_insensitively() {
    assert_eq!(canonicalize_category_group("History"), Some("History"));
    assert_eq!(
        canonicalize_category_group("science and technology"),
        Some("Science & Technology")
    );
    assert_eq!(canonicalize_category_group("Not A Real Category"), None);
}

#[test]
fn canonicalize_difficulty_only_accepts_the_three_known_values() {
    assert_eq!(canonicalize_difficulty(" Easy \n"), Some("easy"));
    assert_eq!(canonicalize_difficulty("HARD"), Some("hard"));
    assert_eq!(canonicalize_difficulty("impossible"), None);
}

#[test]
fn every_category_group_is_described_in_the_prompt() {
    let prompt = generation_system_prompt();
    for group in category_groups() {
        let name = group.name;
        assert!(!group_description(name).is_empty(), "{name} has no description");
        assert!(prompt.contains(&format!("\"{name}\": ")), "{name} missing from prompt");
    }
}

#[test]
fn the_prompt_lists_the_groups_in_order() {
    let prompt = generation_system_prompt();
    assert!(prompt.starts_with("You prepare trivia questions for a multiple-choice quiz"));
    assert!(prompt.contains(
        "\n- \"Animals\": animals, pets, breeds, zoology\n- \"Vehicles\": cars, trains, ships, \
         aircraft, their makers, models and logos\n3. difficulty"
    ));
    assert!(prompt.ends_with("\"wrong_answers\": [\"…\", \"…\", \"…\"]}]}"));
    assert_eq!(group_description("Cooking"), "");
}

// ── Batch replies ────────────────────────────────────────────────────────────

fn row(id: i64, question: &str, answer: &str) -> TriviaQaRow {
    TriviaQaRow {
        id,
        question_text: question.to_owned(),
        correct_answer: answer.to_owned(),
        aliases: vec!["Leonardo".to_owned()],
        category_group: None,
        difficulty: None,
        distractors: None,
    }
}

fn text_field(value: &Value, name: &str) -> Option<String> {
    match value.get(name) {
        None => Some(String::new()),
        Some(v) => v.as_str().map(str::to_owned),
    }
}

fn item_of(value: &Value) -> Option<ItemReply> {
    let wrong_answers = match value.get("wrong_answers") {
        None => Vec::new(),
        Some(list) => {
            list.as_array()?.iter().map(|a| a.as_str().map(str::to_owned)).collect::<Option<_>>()?
        }
    };
    Some(ItemReply {
        id: value.get("id")?.as_i64()?,
        suitable: match value.get("suitable") {
            None => yes(),
            Some(v) => v.as_bool()?,
        },
        reason: text_field(value, "reason")?,
        category: text_field(value, "category")?,
        difficulty: text_field(value, "difficulty")?,
        wrong_answers,
    })
}

fn items_of(json: &str) -> Option<Vec<ItemReply>> {
    let value: Value = serde_json::from_str(json).ok()?;
    value.get("items")?.as_array()?.iter().map(item_of).collect()
}

fn parse_batch(raw: &str, rows: &Vec<TriviaQaRow>) -> Vec<(i64, Verdict)> {
    match json_span(raw).and_then(|json| items_of(&json)) {
        Some(items) => judge_batch(&items, rows),
        None => Vec::new(),
    }
}

const BATCH_REPLY: &str = r#"Sure! ```json
{"items": [
  {"id": 1, "suitable": true, "category": "art", "difficulty": "Easy",
   "wrong_answers": ["Michelangelo", "Leonardo", "Raphael", "Titian"]},
  {"id": 2, "suitable": false, "reason": "time-bound"},
  {"id": 3, "suitable": true, "category": "Cooking", "difficulty": "easy",
   "wrong_answers": ["Lyon", "Nice", "Lille"]},
  {"id": 99, "suitable": true, "category": "Art", "difficulty": "easy",
   "wrong_answers": ["a", "b", "c"]}
]}
```"#;

fn batch_rows() -> Vec<TriviaQaRow> {
    vec![
        row(1, "Who painted the Mona Lisa?", "Leonardo da Vinci"),
        row(2, "Which rugby team will play at Langtree Park in 2012?", "St Helens"),
        row(3, "What is the capital of France?", "Paris"),
        row(4, "Who wrote Hamlet?", "Shakespeare"),
    ]
}

#[test]
fn a_batch_reply_is_validated_item_by_item() {
    let rows = batch_rows();
    let verdicts = parse_batch(BATCH_REPLY, &rows);
    assert_eq!(verdicts.len(), 3, "unknown ids are ignored, missing ones absent");
    assert_eq!(verdicts[0].0, 1);
    match &verdicts[0].1 {
        Verdict::Ready { category_group, difficulty, distractors } => {
            assert_eq!(*category_group, "Art");
            assert_eq!(*difficulty, "easy");
            assert_eq!(*distractors, vec!["Michelangelo", "Raphael", "Titian"]);
        }
        other => panic!("unexpected verdict {other:?}"),
    }
    assert_eq!(verdicts[1].0, 2);
    assert!(matches!(&verdicts[1].1, Verdict::Unsuitable(reason) if reason == "time-bound"));
    assert_eq!(verdicts[2].0, 3);
    assert!(matches!(&verdicts[2].1, Verdict::Invalid), "unknown category");
    assert!(parse_batch("no json here", &rows).is_empty());
}

#[test]
fn too_few_distinct_wrong_answers_are_invalid() {
    let rows = vec![row(1, "Capital of France?", "PARIS")];
    let raw = r#"{"items": [{"id": 1, "suitable": true, "category": "Geography",
        "difficulty": "easy", "wrong_answers": ["Paris", "Lyon", "lyon"]}]}"#;
    let verdicts = parse_batch(raw, &rows);
    assert_eq!(verdicts.len(), 1);
    assert_eq!(verdicts[0].0, 1);
    assert!(matches!(&verdicts[0].1, Verdict::Invalid));
}

#[test]
fn every_row_of_a_batch_is_counted_once() {
    let rows = batch_rows();
    let verdicts = parse_batch(BATCH_REPLY, &rows);
    assert_eq!(
        tally_batch(&rows, &verdicts),
        BatchOutcome { ready: 1, rejected: 1, failed: 2 }
    );
    assert!(verdict_of(&verdicts, 4).is_none());
    assert!(matches!(verdict_of(&verdicts, 2), Some(Verdict::Unsuitable(_))));
    assert_eq!(BatchOutcome::default(), BatchOutcome { ready: 0, rejected: 0, failed: 0 });
}

fn reply(suitable: bool, reason: &str, category: &str, difficulty: &str) -> ItemReply {
    ItemReply {
        id: 1,
        suitable,
        reason: reason.to_owned(),
        category: category.to_owned(),
        difficulty: difficulty.to_owned(),
        wrong_answers: vec!["a".to_owned(), "b".to_owned(), "c".to_owned()],
    }
}

#[test]
fn an_unsuitable_question_has_a_short_reason() {
    let r = row(1, "Q", "A");
    let reason = |text: &str| match validate_item(&reply(false, text, "", ""), &r) {
        Verdict::Unsuitable(reason) => reason,
        other => panic!("unexpected verdict {other:?}"),
    };
    assert_eq!(reason("  "), "unsuitable");
    assert_eq!(reason(" too vague "), "too vague");
    assert_eq!(reason(&"ü".repeat(300)), "ü".repeat(200));
    assert!(matches!(validate_item(&reply(true, "", "Art", "odd"), &r), Verdict::Invalid));
    assert!(matches!(validate_item(&reply(true, "", "Odd", "easy"), &r), Verdict::Invalid));
    // The right answer is compared as it is shown.
    assert!(matches!(validate_item(&reply(true, "", "Art", "easy"), &row(1, "Q", "B")), Verdict::Invalid));
    assert!(matches!(validate_item(&reply(true, "", "Art", "easy"), &r), Verdict::Invalid));
    let other = row(1, "Q", "D");
    assert!(matches!(validate_item(&reply(true, "", "Art", "easy"), &other), Verdict::Ready { .. }));
}

#[test]
fn json_is_cut_out_of_prose() {
    assert_eq!(json_span("a {b} c } d").as_deref(), Some("{b} c }"));
    assert_eq!(json_span("} {"), None);
    assert_eq!(json_span("{"), None);
    assert_eq!(json_span(""), None);
}

#[test]
fn a_batch_shows_cleaned_texts() {
    let items = batch_items(&vec![row(7, "Who is it", "SCOTTISH TERRIER")]);
    assert_eq!(items.len(), 1);
    assert_eq!(items[0].id, 7);
    assert_eq!(items[0].question, "Who is it?");
    assert_eq!(items[0].correct_answer, "Scottish Terrier");
}

// ── Text cleanup ─────────────────────────────────────────────────────────────

#[test]
fn questions_lose_csv_quotes_and_gain_a_question_mark() {
    assert_eq!(
        clean_question(r#""In what city did James Joyce's ""Ulysses"" take place?""#),
        r#"In what city did James Joyce's "Ulysses" take place?"#
    );
    assert_eq!(
        clean_question("What was Ian Fleming’s first Bond book"),
        "What was Ian Fleming’s first Bond book?"
    );
    assert_eq!(clean_question("Name the largest ocean"), "Name the largest ocean");
    assert_eq!(clean_question("Who is it?"), "Who is it?");
}

#[test]
fn odd_quotes_and_other_words_stay() {
    assert_eq!(clean_question("\"\"\"\""), "\"\"");
    assert_eq!(clean_question("\"x\""), "x");
    assert_eq!(clean_question("\"\""), "\"");
    assert_eq!(clean_question("Complete the saying"), "Complete the saying");
    assert_eq!(clean_question("HOW many"), "HOW many?");
    assert_eq!(clean_question("Where is Málaga é"), "Where is Málaga é?");
    assert_eq!(clean_question(""), "");
}

#[test]
fn all_caps_answers_are_title_cased_but_acronyms_kept() {
    assert_eq!(display_answer("SCOTTISH TERRIER"), "Scottish Terrier");
    assert_eq!(display_answer("CHILE"), "Chile");
    assert_eq!(display_answer("BAY OF BISCAY"), "Bay of Biscay");
    assert_eq!(display_answer("USA"), "USA");
    assert_eq!(display_answer("NATO"), "NATO");
    assert_eq!(display_answer("Leonardo da Vinci"), "Leonardo da Vinci");
    assert_eq!(display_answer("1066"), "1066");
}

#[test]
fn small_words_are_lower_case_except_at_the_start() {
    assert_eq!(display_answer(" THE LORD OF THE RINGS "), "The Lord of the Rings");
    assert_eq!(display_answer("ÉCOLE  DE PARIS"), "École  de Paris");
    assert_eq!(display_answer("AC/DC"), "AC/DC");
    assert_eq!(display_answer("ΑΘΗΝΑΣ"), "Αθηνας");
}

// ── Ingesting ────────────────────────────────────────────────────────────────

#[test]
fn ingest_key_changes_when_url_or_cap_changes() {
    let a = ingest_kv_key("https://example.org/a.json", 100);
    let b = ingest_kv_key("https://example.org/b.json", 100);
    let c = ingest_kv_key("https://example.org/a.json", 200);
    assert_ne!(a, b);
    assert_ne!(a, c);
}

#[test]
fn ingesting_needs_a_source_and_an_address() {
    assert_eq!(ingest_kv_key("u", 5), "triviaqa_ingested:5:u");
    assert!(matches!(
        ingest_step(QuestionSource::Opentdb, Some("u"), 5),
        IngestStep::Disabled
    ));
    assert!(matches!(ingest_step(QuestionSource::Mixed, None, 5), IngestStep::NoUrl));
    assert!(matches!(
        ingest_step(QuestionSource::Triviaqa, Some("u"), 5),
        IngestStep::Ingest { key } if key == "triviaqa_ingested:5:u"
    ));
    assert!(already_ingested(true, 1));
    assert!(!already_ingested(true, 0));
    assert!(!already_ingested(false, 1));
}

#[test]
fn a_download_is_tried_three_times() {
    assert!(matches!(download_attempt(0), RetryStep::Try { wait_secs: 0 }));
    assert!(matches!(download_attempt(1), RetryStep::Try { wait_secs: 5 }));
    assert!(matches!(download_attempt(2), RetryStep::Try { wait_secs: 25 }));
    assert!(matches!(download_attempt(3), RetryStep::GiveUp));
    assert_eq!(download_failed_message(), "TriviaQA dataset download failed after 3 attempts");
}

// ── Supplying ────────────────────────────────────────────────────────────────

fn ready_row() -> TriviaQaRow {
    TriviaQaRow {
        id: 5,
        question_text: "Who is it".to_owned(),
        correct_answer: "SCOTTISH TERRIER".to_owned(),
        aliases: Vec::new(),
        category_group: Some("Animals".to_owned()),
        difficulty: Some("easy".to_owned()),
        distractors: Some(vec!["Pug".to_owned(), "Collie".to_owned(), "Poodle".to_owned()]),
    }
}

#[test]
fn a_ready_row_becomes_a_question() {
    let q = to_question(&ready_row()).unwrap();
    assert_eq!(q.category, "Animals");
    assert_eq!(q.difficulty, "easy");
    assert_eq!(q.question, "Who is it?");
    assert_eq!(q.correct_answer, "Scottish Terrier");
    assert_eq!(q.incorrect_answers, vec!["Pug", "Collie", "Poodle"]);
    let mut r = ready_row();
    r.category_group = None;
    assert!(to_question(&r).is_none());
    let mut r = ready_row();
    r.difficulty = None;
    assert!(to_question(&r).is_none());
    let mut r = ready_row();
    r.distractors = None;
    assert!(to_question(&r).is_none());
    let mut r = ready_row();
    r.distractors.as_mut().unwrap().pop();
    assert!(to_question(&r).is_none());
    assert!(offer_candidate(&ready_row(), true, false).is_none());
    assert!(offer_candidate(&ready_row(), false, true).is_none());
    assert!(offer_candidate(&ready_row(), false, false).is_some());
    assert_eq!(preview_of(&vec![ready_row()]).unwrap().0, 5);
    assert!(preview_of(&Vec::new()).is_none());
}

#[test]
fn the_source_decides_what_is_offered() {
    assert!(!should_offer(false, QuestionSource::Triviaqa, true));
    assert!(should_offer(true, QuestionSource::Triviaqa, false));
    assert!(!should_offer(true, QuestionSource::Opentdb, true));
    assert!(should_offer(true, QuestionSource::Mixed, true));
    assert!(!should_offer(true, QuestionSource::Mixed, false));
}

#[test]
fn groups_are_allowed_as_configured() {
    assert_eq!(allowed_category_groups(Some(31), &[]), Some(vec!["Entertainment"]));
    assert_eq!(allowed_category_groups(Some(1), &[]), None);
    let excluded = vec!["art".to_owned()];
    let allowed = allowed_category_groups(None, &excluded).unwrap();
    assert_eq!(allowed.len(), 11);
    assert!(!allowed.contains(&"Art"));
    assert_eq!(category_group_for_id(25), Some("Art"));
}

#[test]
fn a_supply_waits_for_one_batch_at_most() {
    let (mut supply, step) = Supply::start(None, &[], None);
    assert!(matches!(step, SupplyStep::Look));
    assert_eq!(supply.groups.len(), 12);
    assert!(matches!(supply.nothing_found(), SupplyStep::Prepare));
    let outcome = BatchOutcome { ready: 1, rejected: 0, failed: 0 };
    assert!(matches!(supply.batch_done(Some(outcome)), SupplyStep::Look));
    assert!(matches!(
        supply.nothing_found(),
        SupplyStep::Fail { error: SupplyError::OutOfStock }
    ));
    let (mut supply, _) = Supply::start(None, &[], None);
    assert!(matches!(
        supply.batch_done(None),
        SupplyStep::Fail { error: SupplyError::OutOfStock }
    ));
}

#[test]
fn a_wanted_group_is_kept_to() {
    let (supply, step) = Supply::start(None, &[], Some(" ART "));
    assert!(matches!(step, SupplyStep::Look));
    assert_eq!(supply.groups, vec!["Art"]);
    assert!(matches!(
        supply.nothing_found(),
        SupplyStep::Fail { error: SupplyError::OutOfStock }
    ));
    let (_, step) = Supply::start(None, &["art".to_owned()], Some("Art"));
    assert!(matches!(step, SupplyStep::Fail { error: SupplyError::NotActive }));
    let (_, step) = Supply::start(Some(1), &[], None);
    assert!(matches!(step, SupplyStep::Fail { error: SupplyError::NoGroup }));
}

#[test]
fn the_stock_is_filled_up_to_its_target() {
    assert!(keeps_stock(QuestionSource::Mixed, true));
    assert!(!keeps_stock(QuestionSource::Mixed, false));
    assert!(!keeps_stock(QuestionSource::Opentdb, true));
    assert!(needs_batch(PoolStats { total: 1000, ready: 299 }));
    assert!(!needs_batch(PoolStats { total: 1000, ready: 300 }));
    assert!(!needs_batch(PoolStats { total: 0, ready: 0 }));
    assert!(batch_had_questions(BatchOutcome { ready: 0, rejected: 0, failed: 1 }));
    assert!(!batch_had_questions(BatchOutcome::default()));
    assert_eq!(stock_wait(Some(true)), 30);
    assert_eq!(stock_wait(Some(false)), 600);
    assert_eq!(stock_wait(None), 600);
}

#[test]
fn showing_an_answer_changes_case_only_and_once() {
    for raw in [
        " SCOTTISH TERRIER ",
        "THE LORD OF THE RINGS",
        "A B C D E",
        "1066 AND  ALL-THAT",
        "NATO",
        "Paris",
        "",
    ] {
        let shown = display_answer(raw);
        assert!(shown.eq_ignore_ascii_case(raw.trim()));
        assert_eq!(display_answer(&shown), shown);
    }
    assert_eq!(display_answer("THE LORD OF THE RINGS"), "The Lord of the Rings");
}
