//! What the bot keeps across restarts, apart from its database.

use std::collections::VecDeque;

use vstd::prelude::*;

use crate::calendar::{Date, Timestamp};
use crate::names::NameMap;
use crate::text::{clone_texts, texts};

verus! {

/// A one-time quiz.
pub struct ScheduledOnce {
    /// Start of the quiz as "HH:MM" in the configured time zone.
    pub quiz_time: String,
    /// The day on which the quiz fires.
    pub date: Date,
}

/// What a `ScheduledOnce` stands for.
pub struct OnceView {
    pub quiz_time: Seq<char>,
    pub date: Date,
}

impl View for ScheduledOnce {
    type V = OnceView;

    open spec fn view(&self) -> OnceView {
        OnceView { quiz_time: self.quiz_time@, date: self.date }
    }
}

impl ScheduledOnce {
    /// A copy.
    pub fn copy(&self) -> (r: ScheduledOnce)
        ensures
            r == *self,
    {
        ScheduledOnce { quiz_time: self.quiz_time.clone(), date: self.date }
    }
}

/// What a list of one-time quizzes stands for.
pub open spec fn once_views(v: Seq<ScheduledOnce>) -> Seq<OnceView> {
    v.map_values(|e: ScheduledOnce| e@)
}

/// Operational state of the bot.
pub struct State {
    /// Questions that were fetched and wait to be asked.
    pub cached_questions: VecDeque<FetchedQuestion>,
    /// OpenTDB session token.
    pub opentdb_token: Option<String>,
    /// Set on the first start.
    pub created_at: Option<Timestamp>,
    /// The day on which each slot last fired, by its "HH:MM".
    pub last_quiz_dates: NameMap<Date>,
    /// One-time quizzes that have not fired yet.
    pub scheduled_once: Vec<ScheduledOnce>,
}

impl Default for State {
    fn default() -> (r: State)
        ensures
            r.cached_questions@.len() == 0,
            r.opentdb_token is None,
            r.created_at is None,
            r.last_quiz_dates@ == Map::<Seq<char>, Date>::empty(),
            r.scheduled_once@.len() == 0,
    {
        State {
            cached_questions: VecDeque::new(),
            opentdb_token: None,
            created_at: None,
            last_quiz_dates: NameMap::new(),
            scheduled_once: Vec::new(),
        }
    }
}

impl State {
    /// Notes the time of the first start. Returns whether this was it: a time
    /// that was noted before stays.
    pub fn note_start(&mut self, now: Timestamp) -> (r: bool)
        ensures
            r == (old(self).created_at is None),
            final(self).created_at == (if old(self).created_at is None {
                Some(now)
            } else {
                old(self).created_at
            }),
            final(self).cached_questions == old(self).cached_questions,
            final(self).opentdb_token == old(self).opentdb_token,
            final(self).last_quiz_dates == old(self).last_quiz_dates,
            final(self).scheduled_once == old(self).scheduled_once,
    {
        if self.created_at.is_none() {
            self.created_at = Some(now);
            true
        } else {
            false
        }
    }
}

/// A question with its right and wrong answers.
pub struct FetchedQuestion {
    pub category: String,
    pub difficulty: String,
    pub question: String,
    pub correct_answer: String,
    pub incorrect_answers: Vec<String>,
}

/// The texts of a question.
#[verifier::ext_equal]
pub struct QuestionView {
    pub category: Seq<char>,
    pub difficulty: Seq<char>,
    pub question: Seq<char>,
    pub correct_answer: Seq<char>,
    pub incorrect_answers: Seq<Seq<char>>,
}

impl View for FetchedQuestion {
    type V = QuestionView;

    open spec fn view(&self) -> QuestionView {
        QuestionView {
            category: self.category@,
            difficulty: self.difficulty@,
            question: self.question@,
            correct_answer: self.correct_answer@,
            incorrect_answers: texts(self.incorrect_answers@),
        }
    }
}

impl FetchedQuestion {
    /// A copy.
    pub fn copy(&self) -> (r: FetchedQuestion)
        ensures
            r@ == self@,
    {
        FetchedQuestion {
            category: self.category.clone(),
            difficulty: self.difficulty.clone(),
            question: self.question.clone(),
            correct_answer: self.correct_answer.clone(),
            incorrect_answers: clone_texts(&self.incorrect_answers),
        }
    }
}

/// The texts of a list of questions.
pub open spec fn question_views(v: Seq<FetchedQuestion>) -> Seq<QuestionView> {
    v.map_values(|q: FetchedQuestion| q@)
}

} // verus!
