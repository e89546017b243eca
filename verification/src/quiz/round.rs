//! How a round runs: reminders, questions, countdowns and the end.

use vstd::prelude::*;

use crate::chance::shuffled;
use crate::config::{ScheduleConfig, TriviaConfig};
use crate::db::{QuestionParams, RoundParams};
use crate::fetcher::categories::{category_group_label, group_label};
use crate::names::NameMap;
use crate::numbers::{decimal, push_nat};
use crate::order::{lemma_mapped_multiset, sort_ranked, Ranked};
use crate::quiz::answers::AnswerRecord;
use crate::quiz::display::{lemma_bar_fits, opening_text, question_lines, question_text};
use crate::quiz::scores::{
    add_scores, can_score, choices_of, finish_scores, finished, lists_choices, result_of,
    result_text, scored, user_choices, UserChoice,
};
use crate::retry::{retry_decision, retry_step, RetryStep};
use crate::state::{FetchedQuestion, QuestionView};
use crate::text::{clone_texts, join, opt_str, opt_text, same, texts};

verus! {

// ── Choices ──────────────────────────────────────────────────────────────────

/// All answers of a question, the right one last.
pub open spec fn all_choices(q: QuestionView) -> Seq<Seq<char>> {
    q.incorrect_answers.push(q.correct_answer)
}

/// Where `text` first stands among `choices`, or 0 where it does not.
pub open spec fn first_position(choices: Seq<Seq<char>>, text: Seq<char>) -> int {
    if choices.contains(text) {
        choices.index_of_first(text)->0
    } else {
        0
    }
}

/// Where `text` first stands among `choices`, counted up to 255 and then from
/// 0 again.
pub fn correct_position(choices: &Vec<String>, text: &str) -> (r: u8)
    ensures
        r == first_position(texts(choices@), text@) % 256,
{
    let ghost all: Seq<Seq<char>> = texts(choices@);
    let mut i: usize = 0;
    while i < choices.len()
        invariant
            i <= choices.len(),
            all == texts(choices@),
            forall|j: int| 0 <= j < i ==> all[j] != text@,
        decreases choices.len() - i,
    {
        if same(choices[i].as_str(), text) {
            let wide: u64 = i as u64;
            proof {
                assert(all[i as int] == text@);
                assert(all.contains(text@));
                all.index_of_first_ensures(text@);
                assert(first_position(all, text@) == i);
                assert((wide as u8) == wide % 256) by (bit_vector);
            }
            return #[verifier::truncate]
            (wide as u8);
        }
        i = i + 1;
    }
    assert(!all.contains(text@));
    0
}

/// Whether `choices` are the answers of a question in some order.
pub open spec fn is_mix_of(choices: Seq<Seq<char>>, q: QuestionView) -> bool {
    choices.to_multiset() == all_choices(q).to_multiset()
}

/// The answers of a question in random order, and where the right one stands.
pub fn shuffle_choices(q: &FetchedQuestion) -> (r: (Vec<String>, u8))
    ensures
        is_mix_of(texts(r.0@), q@),
        r.0.len() == q.incorrect_answers.len() + 1,
        texts(r.0@).contains(q@.correct_answer),
        r.1 == first_position(texts(r.0@), q@.correct_answer) % 256,
        q.incorrect_answers.len() < 256 ==> r.1 < r.0.len() && r.0@[r.1 as int]@
            == q@.correct_answer,
{
    let mut choices = clone_texts(&q.incorrect_answers);
    choices.push(q.correct_answer.clone());
    let ghost plain: Seq<String> = choices@;
    assert(texts(plain) =~= all_choices(q@));
    let mixed = shuffled(choices);
    let index: u8 = correct_position(&mixed, q.correct_answer.as_str());
    proof {
        let a: Seq<Seq<char>> = texts(plain);
        let b: Seq<Seq<char>> = texts(mixed@);
        lemma_mapped_multiset(mixed@, plain, |s: String| s@);
        a.to_multiset_ensures();
        b.to_multiset_ensures();
        assert(a[a.len() - 1] == q@.correct_answer);
        assert(a.to_multiset().count(q@.correct_answer) > 0);
        assert(b.contains(q@.correct_answer));
        assert(a.len() == b.len());
        b.index_of_first_ensures(q@.correct_answer);
        if q.incorrect_answers.len() < 256 {
            let p: int = first_position(b, q@.correct_answer);
            assert(0 <= p < b.len() <= 256);
            assert(p % 256 == p);
            assert(b[p] == mixed@[p]@);
        }
    }
    (mixed, index)
}

/// How many questions a round has, given how many were gathered: no more than
/// configured. With none there is no round.
pub fn resolve_round_length(gathered: usize, configured: u32) -> (r: Option<u32>)
    ensures
        ({
            let len: int = if gathered < configured {
                gathered as int
            } else {
                configured as int
            };
            &&& len > 0 ==> r is Some && r->0 == len
            &&& len == 0 ==> r is None
        }),
{
    let len: u32 = if (gathered as u64) < configured as u64 {
        gathered as u32
    } else {
        configured
    };
    if len > 0 {
        Some(len)
    } else {
        None
    }
}

// ── Reminders ────────────────────────────────────────────────────────────────

impl Ranked for u64 {
    open spec fn goes_before(self, other: u64) -> bool {
        self > other
    }

    proof fn before_asymmetric(a: u64, b: u64) {
    }

    proof fn before_splits(a: u64, b: u64, c: u64) {
    }

    fn before(&self, other: &u64) -> (r: bool) {
        *self > *other
    }
}

/// A reminder: how many seconds before the quiz, and how long to wait after
/// it.
pub struct Reminder {
    pub before_secs: u64,
    pub wait_secs: u64,
}

/// Whether `r` is the plan for reminders so many seconds before a quiz: each
/// time once, the longest first, with the wait until the next or the quiz.
pub open spec fn is_reminder_plan(r: Seq<Reminder>, times: Seq<u64>) -> bool {
    &&& forall|i: int, j: int|
        0 <= i < j < r.len() ==> (#[trigger] r[i]).before_secs > (#[trigger] r[j]).before_secs
    &&& forall|t: u64| #[trigger]
        times.contains(t) <==> exists|i: int| 0 <= i < r.len() && (#[trigger] r[i]).before_secs == t
    &&& forall|i: int|
        0 <= i < r.len() ==> (#[trigger] r[i]).wait_secs == r[i].before_secs - (if i + 1
            < r.len() {
            r[i + 1].before_secs as int
        } else {
            0
        })
}

/// Plans the reminders before a quiz.
pub fn reminder_plan(times: &Vec<u64>) -> (r: Vec<Reminder>)
    ensures
        is_reminder_plan(r@, times@),
{
    let mut copy: Vec<u64> = Vec::new();
    let mut i: usize = 0;
    while i < times.len()
        invariant
            i <= times.len(),
            copy@ == times@.take(i as int),
        decreases times.len() - i,
    {
        copy.push(times[i]);
        i = i + 1;
    }
    assert(copy@ =~= times@);
    let sorted = sort_ranked(copy);
    proof {
        sorted@.to_multiset_ensures();
        times@.to_multiset_ensures();
        assert forall|t: u64| #[trigger] times@.contains(t) <==> sorted@.contains(t) by {
            assert(times@.to_multiset().count(t) == sorted@.to_multiset().count(t));
        }
    }
    let mut distinct: Vec<u64> = Vec::new();
    let mut k: usize = 0;
    while k < sorted.len()
        invariant
            k <= sorted.len(),
            crate::order::is_ranked(sorted@),
            forall|t: u64| #[trigger]
                distinct@.contains(t) <==> sorted@.take(k as int).contains(t),
            forall|a: int, b: int|
                0 <= a < b < distinct.len() ==> #[trigger] distinct@[a] > #[trigger] distinct@[b],
            distinct.len() > 0 <==> k > 0,
            k > 0 ==> distinct@.last() == sorted@[k - 1],
        decreases sorted.len() - k,
    {
        let t: u64 = sorted[k];
        let ghost was: Seq<u64> = distinct@;
        proof {
            assert(sorted@.take(k + 1) =~= sorted@.take(k as int).push(t));
            if k > 0 {
                assert(!sorted@[k as int].goes_before(sorted@[k - 1]));
            }
        }
        if distinct.len() == 0 || distinct[distinct.len() - 1] != t {
            distinct.push(t);
        }
        proof {
            assert forall|x: u64| #[trigger] distinct@.contains(x) <==> sorted@.take(
                k + 1,
            ).contains(x) by {
                let head: Seq<u64> = sorted@.take(k as int);
                let all: Seq<u64> = sorted@.take(k + 1);
                assert(all[k as int] == t);
                if head.contains(x) {
                    let j: int = head.index_of(x);
                    assert(all[j] == x);
                }
                if all.contains(x) {
                    let j: int = all.index_of(x);
                    if j < k {
                        assert(head[j] == x);
                    }
                }
                if was.contains(x) {
                    let j: int = was.index_of(x);
                    assert(distinct@[j] == x);
                }
                if distinct.len() > was.len() {
                    assert(distinct@[was.len() as int] == t);
                    if distinct@.contains(x) {
                        let j: int = distinct@.index_of(x);
                        if j < was.len() {
                            assert(was[j] == x);
                        }
                    }
                } else {
                    assert(was.last() == t);
                    assert(was[was.len() - 1] == t);
                }
            }
        }
        k = k + 1;
    }
    assert(sorted@.take(sorted.len() as int) =~= sorted@);
    let mut plan: Vec<Reminder> = Vec::new();
    let mut m: usize = 0;
    while m < distinct.len()
        invariant
            m <= distinct.len(),
            plan.len() == m,
            forall|a: int, b: int|
                0 <= a < b < distinct.len() ==> #[trigger] distinct@[a] > #[trigger] distinct@[b],
            forall|j: int|
                0 <= j < m ==> (#[trigger] plan@[j]).before_secs == distinct@[j]
                    && plan@[j].wait_secs == distinct@[j] - (if j + 1 < distinct.len() {
                    distinct@[j + 1] as int
                } else {
                    0
                }),
        decreases distinct.len() - m,
    {
        let next: u64 = if m + 1 < distinct.len() {
            assert(distinct@[m as int] > distinct@[m + 1]);
            distinct[m + 1]
        } else {
            0
        };
        plan.push(Reminder { before_secs: distinct[m], wait_secs: distinct[m] - next });
        m = m + 1;
    }
    proof {
        assert forall|t: u64| #[trigger] times@.contains(t) <==> exists|i: int|
            0 <= i < plan.len() && (#[trigger] plan@[i]).before_secs == t by {
            assert(times@.contains(t) <==> sorted@.contains(t));
            assert(distinct@.contains(t) <==> sorted@.take(sorted.len() as int).contains(t));
            if distinct@.contains(t) {
                let j: int = distinct@.index_of(t);
                assert(plan@[j].before_secs == t);
            }
            if exists|i: int| 0 <= i < plan.len() && (#[trigger] plan@[i]).before_secs == t {
                let i: int = choose|i: int|
                    0 <= i < plan.len() && (#[trigger] plan@[i]).before_secs == t;
                assert(distinct@[i] == t);
            }
        }
    }
    plan
}

/// How long a plan waits from the reminder at `i` on.
pub open spec fn total_wait(r: Seq<Reminder>, i: int) -> int
    decreases r.len() - i,
{
    if i >= r.len() {
        0
    } else {
        r[i].wait_secs + total_wait(r, i + 1)
    }
}

/// From each reminder on, the waits add up to the time that it announces: the
/// quiz starts when all reminders said.
pub proof fn law_reminders_are_on_time(r: Seq<Reminder>, times: Seq<u64>, i: int)
    requires
        is_reminder_plan(r, times),
        0 <= i < r.len(),
    ensures
        total_wait(r, i) == r[i].before_secs,
    decreases r.len() - i,
{
    assert(r[i].wait_secs == r[i].before_secs - (if i + 1 < r.len() {
        r[i + 1].before_secs as int
    } else {
        0
    }));
    if i + 1 < r.len() {
        law_reminders_are_on_time(r, times, i + 1);
    } else {
        assert(total_wait(r, i + 1) == 0);
    }
}

// ── Countdown ────────────────────────────────────────────────────────────────

/// Seconds between two updates of the time bar.
pub const EDIT_INTERVAL: u64 = 15;

/// What to do while a question is open.
pub enum CountdownStep {
    /// Wait, then show the time that remains.
    Edit { wait_secs: u64, remaining: u64 },
    /// Wait, then close the question.
    Close { wait_secs: u64 },
}

/// What to do with `remaining` seconds left.
pub open spec fn countdown_of(remaining: u64) -> CountdownStep {
    if remaining > EDIT_INTERVAL {
        CountdownStep::Edit {
            wait_secs: EDIT_INTERVAL,
            remaining: (remaining - EDIT_INTERVAL) as u64,
        }
    } else {
        CountdownStep::Close { wait_secs: remaining }
    }
}

/// What to do with `remaining` seconds left.
pub fn countdown_step(remaining: u64) -> (r: CountdownStep)
    ensures
        r == countdown_of(remaining),
{
    if remaining > EDIT_INTERVAL {
        CountdownStep::Edit { wait_secs: EDIT_INTERVAL, remaining: remaining - EDIT_INTERVAL }
    } else {
        CountdownStep::Close { wait_secs: remaining }
    }
}

/// How long a question stays open from `remaining` seconds on.
pub open spec fn countdown_total(remaining: u64) -> nat
    decreases remaining,
{
    match countdown_of(remaining) {
        CountdownStep::Edit { wait_secs, remaining: left } => if left < remaining {
            wait_secs as nat + countdown_total(left)
        } else {
            0
        },
        CountdownStep::Close { wait_secs } => wait_secs as nat,
    }
}

/// A question stays open for exactly its time.
pub proof fn law_countdown_takes_its_time(timeout: u64)
    ensures
        countdown_total(timeout) == timeout,
    decreases timeout,
{
    if timeout > EDIT_INTERVAL {
        law_countdown_takes_its_time((timeout - EDIT_INTERVAL) as u64);
    }
}

// ── Posting ──────────────────────────────────────────────────────────────────

/// How often posting a question is tried.
pub const MAX_POST_ATTEMPTS: u32 = 5;

/// How often a page of reactions is asked for.
pub const MAX_PAGE_ATTEMPTS: u32 = 4;

/// Decides whether posting a question is tried once more.
pub fn post_attempt(attempt: u32) -> (r: RetryStep)
    ensures
        r == retry_decision(attempt as nat, MAX_POST_ATTEMPTS as nat),
        r is GiveUp <==> attempt >= 5,
{
    retry_step(attempt, MAX_POST_ATTEMPTS)
}

/// Decides whether a page of reactions is asked for once more.
pub fn page_attempt(attempt: u32) -> (r: RetryStep)
    ensures
        r == retry_decision(attempt as nat, MAX_PAGE_ATTEMPTS as nat),
        r is GiveUp <==> attempt >= 4,
{
    retry_step(attempt, MAX_PAGE_ATTEMPTS)
}

/// The message of a question that could not be posted.
pub fn post_failed_message() -> (r: String)
    ensures
        r@ == "failed to post question after "@ + decimal(MAX_POST_ATTEMPTS as nat) + " attempts"@,
{
    let mut out = String::new();
    out.append("failed to post question after ");
    push_nat(&mut out, MAX_POST_ATTEMPTS as u64);
    out.append(" attempts");
    out
}

/// How many questions a round is to have: as configured, but at least one.
pub fn planned_questions(schedule: &ScheduleConfig) -> (r: u32)
    ensures
        r == (if schedule.questions_per_round < 1 {
            1
        } else {
            schedule.questions_per_round as int
        }),
{
    if schedule.questions_per_round < 1 {
        1
    } else {
        schedule.questions_per_round
    }
}

// ── Records ──────────────────────────────────────────────────────────────────

/// What is stored of a round of `round_len` questions. Numbers are stored in 32
/// bits.
pub fn round_record<'a>(
    room_id: &'a str,
    round_len: u32,
    triggered_by: &'a str,
    schedule: &'a ScheduleConfig,
    trivia: &'a TriviaConfig,
) -> (r: RoundParams<'a>)
    ensures
        r.room_id@ == room_id@,
        r.n_questions_planned == round_len as i32,
        r.triggered_by@ == triggered_by@,
        r.config_answer_timeout == schedule.answer_timeout_secs as i32,
        r.config_questions_per_round == (if schedule.questions_per_round < 1 {
            1i32
        } else {
            schedule.questions_per_round as i32
        }),
        r.config_timezone@ == schedule.timezone@,
        r.config_category_id == (match trivia.category {
            Some(id) => Some(id as i32),
            None => None,
        }),
        opt_str(r.config_difficulty) == opt_text(trivia.difficulty),
{
    let planned: u32 = planned_questions(schedule);
    RoundParams {
        room_id,
        n_questions_planned: #[verifier::truncate]
        (round_len as i32),
        triggered_by,
        config_answer_timeout: #[verifier::truncate]
        (schedule.answer_timeout_secs as i32),
        config_questions_per_round: #[verifier::truncate]
        (planned as i32),
        config_timezone: schedule.timezone.as_str(),
        config_category_id: match trivia.category {
            Some(id) => Some(
                #[verifier::truncate]
                (id as i32),
            ),
            None => None,
        },
        config_difficulty: match &trivia.difficulty {
            Some(d) => Some(d.as_str()),
            None => None,
        },
    }
}

/// What is stored of a question that was posted as `event_id`.
pub fn question_record<'a>(
    round_id: i64,
    event_id: &'a str,
    question: &'a FetchedQuestion,
    prepared: &'a Prepared,
    timeout: u64,
) -> (r: QuestionParams<'a>)
    ensures
        r.round_id == round_id,
        r.question_num == prepared.q_num as i32,
        opt_str(r.matrix_event_id) == Some(event_id@),
        r.category@ == question@.category,
        r.category_group@ == prepared.category_group@,
        r.difficulty@ == question@.difficulty,
        r.question_text@ == question@.question,
        r.choices@ == prepared.choices@,
        r.correct_index == prepared.correct_index,
        r.correct_answer_text@ == question@.correct_answer,
        r.answer_timeout_secs == timeout as i32,
{
    QuestionParams {
        round_id,
        question_num: #[verifier::truncate]
        (prepared.q_num as i32),
        matrix_event_id: Some(event_id),
        category: question.category.as_str(),
        category_group: prepared.category_group.as_str(),
        difficulty: question.difficulty.as_str(),
        question_text: question.question.as_str(),
        choices: prepared.choices.as_slice(),
        correct_index: prepared.correct_index as i16,
        correct_answer_text: question.correct_answer.as_str(),
        answer_timeout_secs: #[verifier::truncate]
        (timeout as i32),
    }
}

// ── The round ────────────────────────────────────────────────────────────────

/// A round.
pub struct Round {
    /// The questions, in the order in which they are asked.
    pub questions: Vec<FetchedQuestion>,
    /// How many of them are asked.
    pub round_len: u32,
    /// How many were asked and answered.
    pub asked: u32,
    /// Right answers and questions by user.
    pub scores: NameMap<(u32, u32)>,
}

/// A question that is about to be asked.
pub struct Prepared {
    /// The number of the question in the round, from 1.
    pub q_num: u32,
    pub category_group: String,
    pub choices: Vec<String>,
    pub correct_index: u8,
    /// The message that asks it.
    pub text: String,
    /// Whether the message calls the room.
    pub call_room: bool,
}

/// How a question went.
pub struct Closed {
    pub right: Vec<UserChoice>,
    pub wrong: Vec<UserChoice>,
    /// The message that tells it.
    pub text: String,
    /// Seconds until the next question, if there is one.
    pub pause: Option<u64>,
}

impl Round {
    /// As many questions are there as are asked, each with at most four
    /// answers, and nobody has more right answers than questions.
    pub open spec fn valid(self) -> bool {
        &&& 0 < self.round_len <= self.questions.len()
        &&& self.asked <= self.round_len
        &&& forall|i: int|
            0 <= i < self.questions.len() ==> (
            #[trigger] self.questions@[i]).incorrect_answers.len() <= 3
        &&& forall|k: Seq<char>| #[trigger]
            self.scores@.dom().contains(k) ==> self.scores@[k].0 <= self.scores@[k].1
                <= self.asked
    }

    /// A round of the questions that were gathered, or none where there are
    /// none.
    pub fn start(questions: Vec<FetchedQuestion>, configured: u32) -> (r: Option<Round>)
        requires
            forall|i: int|
                0 <= i < questions.len() ==> (#[trigger] questions@[i]).incorrect_answers.len()
                    <= 3,
        ensures
            r is Some <==> questions.len() > 0 && configured > 0,
            r is Some ==> {
                &&& r->0.valid()
                &&& r->0.questions == questions
                &&& r->0.asked == 0
                &&& r->0.scores@ == Map::<Seq<char>, (u32, u32)>::empty()
                &&& r->0.round_len == (if questions.len() < configured {
                    questions.len() as int
                } else {
                    configured as int
                })
            },
    {
        match resolve_round_length(questions.len(), configured) {
            None => None,
            Some(round_len) => Some(
                Round { questions, round_len, asked: 0, scores: NameMap::new() },
            ),
        }
    }

    /// Whether another question is to be asked.
    pub fn goes_on(&self) -> (r: bool)
        ensures
            r == (self.asked < self.round_len),
    {
        self.asked < self.round_len
    }

    /// Prepares the next question: mixes its answers and writes its message.
    pub fn prepare(&self, timeout: u64) -> (r: Prepared)
        requires
            self.valid(),
            self.asked < self.round_len,
            timeout * 10 <= u64::MAX,
        ensures
            ({
                let q: QuestionView = self.questions@[self.asked as int]@;
                let text: Seq<char> = join(
                    question_lines(
                        r.q_num as nat,
                        self.round_len as nat,
                        q,
                        texts(r.choices@),
                        timeout as nat,
                        timeout as nat,
                    ),
                    "\n"@,
                );
                &&& r.q_num == self.asked + 1
                &&& r.category_group@ == group_label(q.category)
                &&& is_mix_of(texts(r.choices@), q)
                &&& r.choices.len() == q.incorrect_answers.len() + 1
                &&& r.correct_index < r.choices.len()
                &&& r.correct_index < 4
                &&& r.choices@[r.correct_index as int]@ == q.correct_answer
                &&& r.call_room == (r.q_num == 1)
                &&& r.text@ == (if r.q_num == 1 {
                    "@room\n"@ + text
                } else {
                    text
                })
            }),
    {
        let q: &FetchedQuestion = &self.questions[self.asked as usize];
        proof {
            lemma_bar_fits(timeout as nat, timeout as nat);
            assert(q@.incorrect_answers.len() == q.incorrect_answers.len());
        }
        let (choices, correct_index) = shuffle_choices(q);
        let q_num: u32 = self.asked + 1;
        let text = question_text(q_num, self.round_len, q, &choices, timeout, timeout);
        Prepared {
            q_num,
            category_group: category_group_label(q.category.as_str()),
            correct_index,
            text: opening_text(q_num, text.as_str()),
            choices,
            call_room: q_num == 1,
        }
    }

    /// Closes the question that was prepared: counts its answers and writes
    /// the message that tells how it went.
    pub fn close(
        &mut self,
        question: &Prepared,
        answers: &NameMap<AnswerRecord>,
        pause_secs: u64,
    ) -> (r: Closed)
        requires
            old(self).valid(),
            old(self).asked < old(self).round_len,
            question.correct_index < question.choices.len(),
            question.correct_index < 4,
        ensures
            final(self).valid(),
            final(self).questions == old(self).questions,
            final(self).round_len == old(self).round_len,
            final(self).asked == old(self).asked + 1,
            final(self).scores@ == scored(
                old(self).scores@,
                answers.answers(),
                question.correct_index,
            ),
            lists_choices(
                user_choices(r.right@),
                answers.answers(),
                question.correct_index,
                true,
            ),
            lists_choices(
                user_choices(r.wrong@),
                answers.answers(),
                question.correct_index,
                false,
            ),
            r.pause == (if final(self).asked < final(self).round_len {
                Some(pause_secs)
            } else {
                None
            }),
            r.text@ == join(
                result_of(
                    question.correct_index,
                    question.choices@[question.correct_index as int]@,
                    user_choices(r.right@),
                    user_choices(r.wrong@),
                    r.pause,
                ),
                "\n"@,
            ),
    {
        let ghost before: Map<Seq<char>, (u32, u32)> = self.scores@;
        let right = choices_of(answers, question.correct_index, true);
        let wrong = choices_of(answers, question.correct_index, false);
        assert(can_score(before));
        add_scores(&mut self.scores, answers, question.correct_index);
        self.asked = self.asked + 1;
        let pause: Option<u64> = if self.asked < self.round_len {
            Some(pause_secs)
        } else {
            None
        };
        let text = result_text(
            question.correct_index,
            question.choices[question.correct_index as usize].as_str(),
            &right,
            &wrong,
            pause,
        );
        proof {
            assert forall|k: Seq<char>| #[trigger] self.scores@.dom().contains(k) implies
                self.scores@[k].0 <= self.scores@[k].1 <= self.asked by {
                if before.dom().contains(k) {
                    assert(before[k].0 <= before[k].1 <= old(self).asked);
                }
            }
        }
        Closed { right, wrong, text, pause }
    }

    /// Ends the round, early or not: everyone who answered is given the number
    /// of questions that were asked.
    pub fn finish(self) -> (r: (u32, NameMap<(u32, u32)>))
        requires
            self.valid(),
        ensures
            r.0 == self.asked,
            r.1@ == finished(self.scores@, self.asked),
            forall|k: Seq<char>| #[trigger]
                r.1@.dom().contains(k) ==> r.1@[k].0 <= r.1@[k].1 == self.asked,
    {
        let mut scores = self.scores;
        finish_scores(&mut scores, self.asked);
        assert forall|k: Seq<char>| #[trigger] scores@.dom().contains(k) implies scores@[k].0
            <= scores@[k].1 == self.asked by {
            assert(self.scores@.dom().contains(k));
        }
        (self.asked, scores)
    }
}

// ── Laws ─────────────────────────────────────────────────────────────────────

/// Mixed choices are all answers of the question and nothing else, and the place
/// of the right one is where it stands.
pub proof fn law_mixed_choices_are_the_answers(
    choices: Seq<Seq<char>>,
    q: QuestionView,
    text: Seq<char>,
)
    requires
        is_mix_of(choices, q),
    ensures
        choices.len() == q.incorrect_answers.len() + 1,
        choices.contains(text) <==> text == q.correct_answer || q.incorrect_answers.contains(text),
        0 <= first_position(choices, q.correct_answer) < choices.len(),
        choices[first_position(choices, q.correct_answer)] == q.correct_answer,
{
    let all: Seq<Seq<char>> = all_choices(q);
    choices.to_multiset_ensures();
    all.to_multiset_ensures();
    assert(choices.contains(text) == all.contains(text)) by {
        assert(choices.to_multiset().count(text) == all.to_multiset().count(text));
    }
    assert(all[all.len() - 1] == q.correct_answer);
    assert(all.contains(q.correct_answer));
    assert(choices.contains(q.correct_answer)) by {
        assert(choices.to_multiset().count(q.correct_answer) == all.to_multiset().count(
            q.correct_answer,
        ));
    }
    if all.contains(text) && text != q.correct_answer {
        let i: int = all.index_of(text);
        assert(q.incorrect_answers[i] == text);
    }
    if q.incorrect_answers.contains(text) {
        let i: int = q.incorrect_answers.index_of(text);
        assert(all[i] == text);
    }
    choices.index_of_first_ensures(q.correct_answer);
}

/// The bar is brought up to date every fifteen seconds: what is shown as left is
/// what is left after the wait, and no wait is longer than that.
pub proof fn law_countdown_shows_what_is_left(remaining: u64)
    ensures
        match countdown_of(remaining) {
            CountdownStep::Edit { wait_secs, remaining: left } => 0 < left && wait_secs == 15
                && wait_secs + left == remaining,
            CountdownStep::Close { wait_secs } => wait_secs == remaining && remaining <= 15,
        },
{
}

/// Every reminder that was asked for is given once, the earliest first, and no
/// other is.
pub proof fn law_every_reminder_is_given(r: Seq<Reminder>, times: Seq<u64>, t: u64)
    requires
        is_reminder_plan(r, times),
    ensures
        times.contains(t) <==> exists|i: int| 0 <= i < r.len() && (#[trigger] r[i]).before_secs == t,
        forall|i: int, j: int|
            0 <= i < j < r.len() ==> (#[trigger] r[i]).before_secs > (#[trigger] r[j]).before_secs,
        times.len() == 0 ==> r.len() == 0,
{
    if times.len() == 0 && r.len() > 0 {
        assert(times.contains(r[0].before_secs));
    }
}

} // verus!
