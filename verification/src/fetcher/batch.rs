//! Fetching a batch of questions into the cache.

use vstd::prelude::*;

use crate::chance::random_item;
use crate::fetcher::categories::{
    active_groups, active_table, group_views, lemma_active_ids, CategoryGroup,
};
use crate::fetcher::questions::{question_is_valid, valid_question};
use crate::numbers::{decimal, push_nat};
use crate::retry::{backoff, backoff_secs};
use crate::state::{question_views, FetchedQuestion, QuestionView, State};
use crate::text::texts;

verus! {

/// How often a batch is asked for.
pub const MAX_ATTEMPTS: u32 = 5;

/// Whether `id` is a category of an active group.
pub open spec fn is_active_id(excluded: Seq<Seq<char>>, id: u32) -> bool {
    exists|i: int|
        0 <= i < active_table(excluded).len() && (#[trigger] active_table(excluded)[i]).1.contains(
            id,
        )
}

/// The category that a batch is drawn from: the configured one, or a random
/// category of a random active group.
pub fn pick_category(configured: Option<u32>, excluded: &[String]) -> (r: u32)
    ensures
        configured is Some ==> r == configured->0,
        configured is None ==> is_active_id(texts(excluded@), r),
{
    match configured {
        Some(id) => id,
        None => {
            let groups = active_groups(excluded);
            let group: &CategoryGroup = random_item(groups.as_slice());
            proof {
                let table: Seq<(Seq<char>, Seq<u32>)> = active_table(texts(excluded@));
                let i: int = choose|i: int| 0 <= i < groups.len() && groups@[i] == *group;
                lemma_active_ids(texts(excluded@), i);
                assert(table[i] == group_views(groups@)[i]);
            }
            *random_item(group.ids.as_slice())
        },
    }
}

/// The questions of a list that can be asked.
pub open spec fn usable(questions: Seq<QuestionView>) -> Seq<QuestionView> {
    questions.filter(|q: QuestionView| valid_question(q))
}

/// Keeps the questions that can be asked.
pub fn keep_usable(questions: Vec<FetchedQuestion>) -> (r: Vec<FetchedQuestion>)
    ensures
        question_views(r@) == usable(question_views(questions@)),
{
    let ghost all: Seq<QuestionView> = question_views(questions@);
    let ghost keep = |q: QuestionView| valid_question(q);
    let mut kept: Vec<FetchedQuestion> = Vec::new();
    let mut i: usize = 0;
    assert(all.take(0).filter(keep) == Seq::<QuestionView>::empty()) by {
        reveal(Seq::filter);
    }
    while i < questions.len()
        invariant
            i <= questions.len(),
            all == question_views(questions@),
            keep == (|q: QuestionView| valid_question(q)),
            question_views(kept@) == all.take(i as int).filter(keep),
        decreases questions.len() - i,
    {
        proof {
            assert(all.take(i + 1).drop_last() =~= all.take(i as int));
            assert(all.take(i + 1).last() == questions@[i as int]@);
            reveal(Seq::filter);
        }
        if question_is_valid(&questions[i]) {
            let ghost before: Seq<FetchedQuestion> = kept@;
            kept.push(questions[i].copy());
            assert(question_views(kept@) =~= question_views(before).push(questions@[i as int]@));
        }
        i = i + 1;
    }
    assert(all.take(questions.len() as int) =~= all);
    kept
}

/// How far fetching a batch has come.
pub struct Prefetch {
    /// Attempts that were made before the current one.
    pub attempt: u32,
    /// Whether the token was cleared or reset.
    pub token_refreshed: bool,
}

/// What fetching a batch does next.
pub enum PrefetchStep {
    /// Wait, then make the next attempt.
    Attempt { wait_secs: u64 },
    /// Clear the token, then go on with `retry`.
    ClearToken,
    /// Reset the token, then go on with `retry`.
    ResetToken,
    /// Put the questions into the cache: the batch is complete.
    Store { questions: Vec<FetchedQuestion> },
    /// Give up.
    GiveUp,
}

/// What a `PrefetchStep` stands for.
pub enum PrefetchStepView {
    Attempt { wait_secs: nat },
    ClearToken,
    ResetToken,
    Store { questions: Seq<QuestionView> },
    GiveUp,
}

impl View for PrefetchStep {
    type V = PrefetchStepView;

    open spec fn view(&self) -> PrefetchStepView {
        match self {
            PrefetchStep::Attempt { wait_secs } => PrefetchStepView::Attempt {
                wait_secs: *wait_secs as nat,
            },
            PrefetchStep::ClearToken => PrefetchStepView::ClearToken,
            PrefetchStep::ResetToken => PrefetchStepView::ResetToken,
            PrefetchStep::Store { questions } => PrefetchStepView::Store {
                questions: question_views(questions@),
            },
            PrefetchStep::GiveUp => PrefetchStepView::GiveUp,
        }
    }
}

/// What can come back while a batch is fetched.
pub enum PrefetchEvent {
    /// The attempt failed, or the token was cleared or reset.
    Again,
    /// OpenTDB answered.
    Answer { code: u8, questions: Seq<QuestionView> },
}

/// The next attempt, or the end where all were made.
pub open spec fn prefetch_again(p: Prefetch) -> (Prefetch, PrefetchStepView) {
    let next: Prefetch = Prefetch { attempt: (p.attempt + 1) as u32, ..p };
    if p.attempt + 1 < MAX_ATTEMPTS {
        (next, PrefetchStepView::Attempt { wait_secs: backoff(next.attempt as nat) })
    } else {
        (next, PrefetchStepView::GiveUp)
    }
}

/// How fetching a batch goes on. A lost token is cleared and an exhausted one
/// reset, one of the two and once only.
pub open spec fn prefetch_step(p: Prefetch, event: PrefetchEvent) -> (Prefetch, PrefetchStepView) {
    match event {
        PrefetchEvent::Again => prefetch_again(p),
        PrefetchEvent::Answer { code, questions } => {
            if code == 0 && usable(questions).len() > 0 {
                (p, PrefetchStepView::Store { questions: usable(questions) })
            } else if code == 3 && !p.token_refreshed {
                (Prefetch { token_refreshed: true, ..p }, PrefetchStepView::ClearToken)
            } else if code == 4 && !p.token_refreshed {
                (Prefetch { token_refreshed: true, ..p }, PrefetchStepView::ResetToken)
            } else {
                prefetch_again(p)
            }
        },
    }
}

impl Prefetch {
    /// The first attempt.
    pub fn start() -> (r: (Prefetch, PrefetchStep))
        ensures
            r.0 == (Prefetch { attempt: 0, token_refreshed: false }),
            r.1@ == (PrefetchStepView::Attempt { wait_secs: 0 }),
    {
        (
            Prefetch { attempt: 0, token_refreshed: false },
            PrefetchStep::Attempt { wait_secs: 0 },
        )
    }

    /// Goes on after the attempt failed (no token, no answer), or after the
    /// token was cleared or reset.
    pub fn retry(&mut self) -> (r: PrefetchStep)
        requires
            old(self).attempt < MAX_ATTEMPTS,
        ensures
            (*final(self), r@) == prefetch_step(*old(self), PrefetchEvent::Again),
    {
        self.attempt = self.attempt + 1;
        if self.attempt < MAX_ATTEMPTS {
            PrefetchStep::Attempt { wait_secs: backoff_secs(self.attempt) }
        } else {
            PrefetchStep::GiveUp
        }
    }

    /// Goes on after OpenTDB answered with `code` and `questions`.
    pub fn on_answer(&mut self, code: u8, questions: Vec<FetchedQuestion>) -> (r: PrefetchStep)
        requires
            old(self).attempt < MAX_ATTEMPTS,
        ensures
            (*final(self), r@) == prefetch_step(
                *old(self),
                (PrefetchEvent::Answer { code, questions: question_views(questions@) }),
            ),
    {
        if code == 0 {
            let kept = keep_usable(questions);
            if kept.len() > 0 {
                assert(question_views(kept@).len() > 0);
                return PrefetchStep::Store { questions: kept };
            }
            assert(question_views(kept@).len() == 0);
        } else if code == 3 && !self.token_refreshed {
            self.token_refreshed = true;
            return PrefetchStep::ClearToken;
        } else if code == 4 && !self.token_refreshed {
            self.token_refreshed = true;
            return PrefetchStep::ResetToken;
        }
        self.retry()
    }
}

/// Puts questions behind those in the cache.
pub fn store_questions(state: &mut State, questions: Vec<FetchedQuestion>)
    ensures
        question_views(final(state).cached_questions@) == question_views(
            old(state).cached_questions@,
        ) + question_views(questions@),
        final(state).opentdb_token == old(state).opentdb_token,
        final(state).created_at == old(state).created_at,
        final(state).last_quiz_dates == old(state).last_quiz_dates,
        final(state).scheduled_once == old(state).scheduled_once,
{
    let ghost before: Seq<QuestionView> = question_views(state.cached_questions@);
    let ghost all: Seq<QuestionView> = question_views(questions@);
    let mut i: usize = 0;
    while i < questions.len()
        invariant
            i <= questions.len(),
            all == question_views(questions@),
            question_views(state.cached_questions@) == before + all.take(i as int),
            state.opentdb_token == old(state).opentdb_token,
            state.created_at == old(state).created_at,
            state.last_quiz_dates == old(state).last_quiz_dates,
            state.scheduled_once == old(state).scheduled_once,
        decreases questions.len() - i,
    {
        let ghost cache: Seq<FetchedQuestion> = state.cached_questions@;
        state.cached_questions.push_back(questions[i].copy());
        proof {
            assert(question_views(state.cached_questions@) =~= question_views(cache).push(all[i as int]));
            assert(all.take(i + 1) =~= all.take(i as int).push(all[i as int]));
        }
        i = i + 1;
    }
    assert(all.take(questions.len() as int) =~= all);
}

/// The message of a batch that was given up on.
pub fn prefetch_failed_message() -> (r: String)
    ensures
        r@ == "OpenTDB prefetch failed after "@ + decimal(MAX_ATTEMPTS as nat) + " attempts"@,
{
    let mut out = String::new();
    out.append("OpenTDB prefetch failed after ");
    push_nat(&mut out, MAX_ATTEMPTS as u64);
    out.append(" attempts");
    out
}

// ── Laws ─────────────────────────────────────────────────────────────────────

/// The steps that a run of events leads to.
pub open spec fn prefetch_run(p: Prefetch, events: Seq<PrefetchEvent>) -> Seq<PrefetchStepView>
    decreases events.len(),
{
    if events.len() == 0 {
        Seq::empty()
    } else {
        let (next, step) = prefetch_step(p, events[0]);
        if step is Store || step is GiveUp {
            seq![step]
        } else {
            seq![step] + prefetch_run(next, events.skip(1))
        }
    }
}

/// How many steps clear or reset the token.
pub open spec fn refreshes(steps: Seq<PrefetchStepView>) -> nat
    decreases steps.len(),
{
    if steps.len() == 0 {
        0
    } else {
        refreshes(steps.skip(1)) + (if steps[0] is ClearToken || steps[0] is ResetToken {
            1nat
        } else {
            0
        })
    }
}

/// How many steps make an attempt.
pub open spec fn attempts(steps: Seq<PrefetchStepView>) -> nat
    decreases steps.len(),
{
    if steps.len() == 0 {
        0
    } else {
        attempts(steps.skip(1)) + (if steps[0] is Attempt {
            1nat
        } else {
            0
        })
    }
}

/// Whatever comes back, a batch clears or resets the token at most once, makes
/// at most `MAX_ATTEMPTS` attempts, and what it stores can be asked.
pub proof fn law_prefetch_is_bounded(p: Prefetch, events: Seq<PrefetchEvent>)
    requires
        p.attempt < MAX_ATTEMPTS,
    ensures
        refreshes(prefetch_run(p, events)) <= (if p.token_refreshed {
            0nat
        } else {
            1
        }),
        p.attempt + 1 + attempts(prefetch_run(p, events)) <= MAX_ATTEMPTS,
        forall|i: int, j: int|
            #![trigger prefetch_run(p, events)[i]->questions[j]]
            0 <= i < prefetch_run(p, events).len() && prefetch_run(p, events)[i] is Store && 0 <= j
                < prefetch_run(p, events)[i]->questions.len() ==> valid_question(
                prefetch_run(p, events)[i]->questions[j],
            ),
    decreases events.len(),
{
    if events.len() > 0 {
        let (next, step) = prefetch_step(p, events[0]);
        let run: Seq<PrefetchStepView> = prefetch_run(p, events);
        if step is Store || step is GiveUp {
            assert(run.skip(1) =~= Seq::<PrefetchStepView>::empty());
            assert(refreshes(run.skip(1)) == 0 && attempts(run.skip(1)) == 0);
            assert(run[0] == step);
            if step is Store {
                let q: Seq<QuestionView> = events[0]->questions;
                assert forall|j: int| 0 <= j < usable(q).len() implies valid_question(
                    #[trigger] usable(q)[j],
                ) by {
                    q.lemma_filter_pred(|x: QuestionView| valid_question(x), j);
                }
            }
        } else {
            law_prefetch_is_bounded(next, events.skip(1));
            assert(run.skip(1) =~= prefetch_run(next, events.skip(1)));
            assert(run[0] == step);
            assert forall|i: int, j: int|
                #![trigger run[i]->questions[j]]
                0 <= i < run.len() && run[i] is Store && 0 <= j
                    < run[i]->questions.len() implies valid_question(run[i]->questions[j]) by {
                assert(run[i] == run.skip(1)[i - 1]);
            }
        }
    }
}

/// What OpenTDB answers is acted on: of a batch all questions that can be asked
/// are stored, in their order, where there is one; a lost token is cleared and an
/// exhausted one reset, where none was before; anything else is tried again, with
/// longer and longer waits, until five attempts were made.
pub proof fn law_answers_are_acted_on(p: Prefetch, code: u8, questions: Seq<QuestionView>)
    requires
        p.attempt < 5,
    ensures
        ({
            let good: Seq<QuestionView> = questions.filter(|q: QuestionView| valid_question(q));
            let (next, step) = prefetch_step(p, PrefetchEvent::Answer { code, questions });
            &&& code == 0 && good.len() > 0 ==> step == (PrefetchStepView::Store {
                questions: good,
            })
            &&& code == 3 && !p.token_refreshed ==> step is ClearToken && next.token_refreshed
                && next.attempt == p.attempt
            &&& code == 4 && !p.token_refreshed ==> step is ResetToken && next.token_refreshed
                && next.attempt == p.attempt
            &&& code == 0 && good.len() == 0 || (code == 3 || code == 4) && p.token_refreshed
                || code != 0 && code != 3 && code != 4 ==> (next, step) == prefetch_step(
                p,
                PrefetchEvent::Again,
            )
        }),
        ({
            let (next, step) = prefetch_step(p, PrefetchEvent::Again);
            &&& p.attempt < 4 ==> next.attempt == p.attempt + 1 && step == (
            PrefetchStepView::Attempt { wait_secs: backoff((p.attempt + 1) as nat) })
            &&& p.attempt == 4 ==> step is GiveUp
            &&& next.token_refreshed == p.token_refreshed
        }),
{
}

} // verus!
