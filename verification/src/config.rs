//! What the bot is configured with.

use vstd::prelude::*;

use crate::calendar::{is_zone, zone_known};
use crate::numbers::{
    all_digits, decimal, is_digit, law_zero_padded_reads_back, lemma_digits_value, parse_u32,
    parsed_u32, zero_padded,
};
use crate::text::{
    chars_of, copy_range, find_char, is_white, lemma_find_char, lemma_find_char_at,
    lemma_trimmed_of, position_of, text_of, trim, trim_end_of, trim_start_of, trimmed, CharClass,
};

verus! {

/// When and how quiz rounds run.
pub struct ScheduleConfig {
    /// The room that the quiz runs in.
    pub room_id: String,
    /// One or more "HH:MM" times, in the configured time zone.
    pub quiz_times: Vec<String>,
    /// Seconds to collect answers before the solution is revealed.
    pub answer_timeout_secs: u64,
    /// Number of questions per round.
    pub questions_per_round: u32,
    /// Pause in seconds between questions.
    pub inter_question_secs: u64,
    /// Seconds before the quiz at which a reminder is posted; 0 for none.
    pub reminder_before_secs: u64,
    /// IANA time zone of `quiz_times`.
    pub timezone: String,
}

/// Hour and minute that `s` writes as `HH:MM`: two numbers with a colon
/// between them and white space around them, the first under 24, the second
/// under 60.
pub open spec fn quiz_time(s: Seq<char>) -> Option<(u32, u32)> {
    let n: nat = find_char(s, ':');
    if n < s.len() {
        let hour: Option<u32> = parsed_u32(trimmed(s.take(n as int)));
        let minute: Option<u32> = parsed_u32(trimmed(s.skip(n as int + 1)));
        if hour is Some && minute is Some && hour->0 < 24 && minute->0 < 60 {
            Some((hour->0, minute->0))
        } else {
            None
        }
    } else {
        None
    }
}

/// `hour` and `minute` as `HH:MM`.
pub open spec fn clock_text(hour: nat, minute: nat) -> Seq<char> {
    zero_padded(hour, 2).push(':') + zero_padded(minute, 2)
}

impl ScheduleConfig {
    /// Parses `"HH:MM"` into hour and minute. `None` for anything else.
    pub fn parse_quiz_time(s: &str) -> (r: Option<(u32, u32)>)
        ensures
            r == quiz_time(s@),
    {
        let v = chars_of(s);
        let n: usize = position_of(&v, ':');
        if n == v.len() {
            return None;
        }
        let h = text_of(&trim(&copy_range(&v, 0, n)));
        let m = text_of(&trim(&copy_range(&v, n + 1, v.len())));
        assert(v@.subrange(0, n as int) == s@.take(n as int));
        assert(v@.subrange(n + 1, v.len() as int) == s@.skip(n + 1));
        match (parse_u32(h.as_str()), parse_u32(m.as_str())) {
            (Some(hour), Some(minute)) => if hour < 24 && minute < 60 {
                Some((hour, minute))
            } else {
                None
            },
            _ => None,
        }
    }

    /// The reminders that a scheduled round posts, in seconds before its
    /// start.
    pub fn reminders(&self) -> (r: Vec<u64>)
        ensures
            r@ == (if self.reminder_before_secs > 0 {
                seq![self.reminder_before_secs]
            } else {
                Seq::<u64>::empty()
            }),
    {
        let mut out: Vec<u64> = Vec::new();
        if self.reminder_before_secs > 0 {
            out.push(self.reminder_before_secs);
        }
        out
    }

    /// Whether the configured time zone exists.
    pub fn timezone_is_known(&self) -> (r: bool)
        ensures
            r == zone_known(self.timezone@),
    {
        is_zone(self.timezone.as_str())
    }
}

/// Digits have nothing to trim.
proof fn lemma_trim_digits(s: Seq<char>)
    requires
        all_digits(s),
    ensures
        trimmed(s) == s,
{
    assert(is_digit(s[0]));
    assert(is_digit(s[s.len() - 1]));
    assert(trim_start_of(s, CharClass::White) == s);
    assert(trim_end_of(s, CharClass::White) == s);
}

/// A zero-padded number is digits only.
pub proof fn lemma_zero_padded_digits(n: nat, width: nat)
    ensures
        all_digits(zero_padded(n, width)),
{
    lemma_digits_value(n);
    let d: Seq<char> = decimal(n);
    let t: Seq<char> = zero_padded(n, width);
    assert forall|i: int| 0 <= i < t.len() implies is_digit(#[trigger] t[i]) by {
        if d.len() < width {
            if i >= width - d.len() {
                assert(is_digit(d[i - (width - d.len())]));
            }
        } else {
            assert(is_digit(d[i]));
        }
    }
}

/// The text of a time of day reads back as that time of day.
pub proof fn law_quiz_time_reads_back(hour: u32, minute: u32)
    requires
        hour < 24,
        minute < 60,
    ensures
        quiz_time(clock_text(hour as nat, minute as nat)) == Some((hour, minute)),
{
    let h: Seq<char> = zero_padded(hour as nat, 2);
    let m: Seq<char> = zero_padded(minute as nat, 2);
    let s: Seq<char> = clock_text(hour as nat, minute as nat);
    lemma_zero_padded_digits(hour as nat, 2);
    lemma_zero_padded_digits(minute as nat, 2);
    law_zero_padded_reads_back(hour, 2);
    law_zero_padded_reads_back(minute, 2);
    assert forall|i: int| 0 <= i < h.len() implies s[i] != ':' by {
        assert(is_digit(h[i]));
    }
    lemma_find_char_at(s, ':', h.len() as int);
    assert(s.take(h.len() as int) == h);
    assert(s.skip(h.len() as int + 1) == m);
    lemma_trim_digits(h);
    lemma_trim_digits(m);
}

/// The default of `ScheduleConfig::answer_timeout_secs`.
pub fn default_answer_timeout() -> (r: u64)
    ensures
        r == 60,
{
    60
}

/// The default of `ScheduleConfig::questions_per_round`.
pub fn default_questions_per_round() -> (r: u32)
    ensures
        r == 5,
{
    5
}

/// The default of `ScheduleConfig::inter_question_secs`.
pub fn default_inter_question_secs() -> (r: u64)
    ensures
        r == 10,
{
    10
}

/// The default of `ScheduleConfig::reminder_before_secs`: five minutes.
pub fn default_reminder_before_secs() -> (r: u64)
    ensures
        r == 300,
{
    300
}

/// The default of `ScheduleConfig::timezone`.
pub fn default_timezone() -> (r: String)
    ensures
        r@ == "UTC"@,
{
    "UTC".to_owned()
}

/// Which questions are asked.
pub struct TriviaConfig {
    /// OpenTDB category ID; a random category where there is none.
    pub category: Option<u32>,
    /// "easy", "medium" or "hard"; any difficulty where there is none.
    pub difficulty: Option<String>,
    /// How many questions to fetch per API call.
    pub batch_size: u32,
    /// Category groups to skip. Matching ignores case, and takes "&" and
    /// "and" for the same.
    pub excluded_categories: Vec<String>,
}

impl Default for TriviaConfig {
    fn default() -> (r: TriviaConfig)
        ensures
            r.category is None,
            r.difficulty is None,
            r.batch_size == 10,
            r.excluded_categories@.len() == 0,
    {
        TriviaConfig {
            category: None,
            difficulty: None,
            batch_size: default_batch_size(),
            excluded_categories: Vec::new(),
        }
    }
}

/// The default of `TriviaConfig::batch_size`.
pub fn default_batch_size() -> (r: u32)
    ensures
        r == 10,
{
    10
}

/// The language model that explains answers.
pub struct ExplainerConfig {
    /// Groq API key; no explanations without one.
    pub api_key: Option<String>,
    /// Groq model.
    pub model: String,
}

impl Default for ExplainerConfig {
    fn default() -> (r: ExplainerConfig)
        ensures
            r.api_key is None,
            r.model@ == "llama-3.3-70b-versatile"@,
    {
        ExplainerConfig { api_key: None, model: default_explainer_model() }
    }
}

/// The default of `ExplainerConfig::model`.
pub fn default_explainer_model() -> (r: String)
    ensures
        r@ == "llama-3.3-70b-versatile"@,
{
    "llama-3.3-70b-versatile".to_owned()
}

/// Where questions come from.
#[derive(Clone, Copy, Debug, PartialEq, Eq, Structural)]
pub enum QuestionSource {
    /// Both sources, by chance.
    Mixed,
    /// OpenTDB only.
    Opentdb,
    /// TriviaQA, with OpenTDB for what it cannot fill.
    Triviaqa,
}

/// The TriviaQA dataset.
pub struct TriviaQaConfig {
    /// Where to download it.
    pub dataset_url: Option<String>,
    /// How many entries to keep at most.
    pub max_pool_size: usize,
}

/// A time of the day is two numbers with a colon between them: with or without
/// leading zeros and white space, and only where the hour is one of 24 and the
/// minute one of 60.
pub proof fn law_times_are_read(
    before: Seq<char>,
    hour: u32,
    hour_width: nat,
    minute: u32,
    minute_width: nat,
    after: Seq<char>,
)
    requires
        forall|i: int| 0 <= i < before.len() ==> is_white(#[trigger] before[i]),
        forall|i: int| 0 <= i < after.len() ==> is_white(#[trigger] after[i]),
    ensures
        ({
            let s: Seq<char> = before + zero_padded(hour as nat, hour_width) + seq![':']
                + zero_padded(minute as nat, minute_width) + after;
            &&& hour < 24 && minute < 60 ==> quiz_time(s) == Some((hour, minute))
            &&& hour >= 24 || minute >= 60 ==> quiz_time(s) is None
        }),
{
    let h: Seq<char> = zero_padded(hour as nat, hour_width);
    let m: Seq<char> = zero_padded(minute as nat, minute_width);
    let s: Seq<char> = before + h + seq![':'] + m + after;
    lemma_zero_padded_digits(hour as nat, hour_width);
    lemma_zero_padded_digits(minute as nat, minute_width);
    let n: int = (before.len() + h.len()) as int;
    assert forall|i: int| 0 <= i < n implies s[i] != ':' by {
        if i < before.len() {
            assert(s[i] == before[i]);
        } else {
            assert(s[i] == h[i - before.len()]);
            assert(is_digit(h[i - before.len()]));
        }
    }
    assert(s[n] == ':');
    lemma_find_char_at(s, ':', n);
    let none: Seq<char> = Seq::empty();
    assert(is_digit(h[0]) && is_digit(h[h.len() - 1]));
    assert(is_digit(m[0]) && is_digit(m[m.len() - 1]));
    lemma_trimmed_of(before, h, none);
    lemma_trimmed_of(none, m, after);
    assert(s.take(n) =~= before + h + none);
    assert(s.skip(n + 1) =~= none + m + after);
    law_zero_padded_reads_back(hour, hour_width);
    law_zero_padded_reads_back(minute, minute_width);
}

/// A text without a colon is no time of the day.
pub proof fn law_times_have_a_colon(s: Seq<char>)
    requires
        !s.contains(':'),
    ensures
        quiz_time(s) is None,
{
    lemma_find_char(s, ':');
}

} // verus!
