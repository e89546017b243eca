//! Fetching one question of one category.

use vstd::prelude::*;

use crate::calendar::Timestamp;
use crate::fetcher::questions::{question_is_valid, valid_question};
use crate::numbers::{decimal, push_nat};
use crate::state::{FetchedQuestion, QuestionView};

verus! {

/// How long a question that was asked is avoided, in days.
pub const QUESTION_REUSE_COOLDOWN_DAYS: i64 = 60;

// ── Duplicates ───────────────────────────────────────────────────────────────

/// Whether `a` lies before `b`. No time at all lies before every time.
pub open spec fn is_earlier(a: Option<Timestamp>, b: Option<Timestamp>) -> bool {
    match (a, b) {
        (None, Some(_)) => true,
        (Some(x), Some(y)) => x.nanos < y.nanos,
        _ => false,
    }
}

/// Whether `a` lies before `b`, see `is_earlier`.
pub fn earlier(a: &Option<Timestamp>, b: &Option<Timestamp>) -> (r: bool)
    ensures
        r == is_earlier(*a, *b),
{
    match (a, b) {
        (None, Some(_)) => true,
        (Some(x), Some(y)) => x.nanos < y.nanos,
        _ => false,
    }
}

/// A question that was asked not long ago, and when.
pub struct Duplicate {
    pub question: FetchedQuestion,
    pub last_asked: Option<Timestamp>,
}

/// What a `Duplicate` stands for.
#[verifier::ext_equal]
pub struct DuplicateView {
    pub question: QuestionView,
    pub last_asked: Option<Timestamp>,
}

impl View for Duplicate {
    type V = DuplicateView;

    open spec fn view(&self) -> DuplicateView {
        DuplicateView { question: self.question@, last_asked: self.last_asked }
    }
}

/// What an optional duplicate stands for.
pub open spec fn opt_duplicate(d: Option<Duplicate>) -> Option<DuplicateView> {
    match d {
        Some(x) => Some(x@),
        None => None,
    }
}

/// The duplicate that was asked longer ago: `best`, unless `next` was asked
/// before it.
pub open spec fn older_of(best: Option<DuplicateView>, next: DuplicateView) -> DuplicateView {
    match best {
        Some(b) => if is_earlier(next.last_asked, b.last_asked) {
            next
        } else {
            b
        },
        None => next,
    }
}

/// The duplicate that was asked longer ago, see `older_of`.
pub fn keep_older(best: Option<Duplicate>, next: Duplicate) -> (r: Duplicate)
    ensures
        r@ == older_of(opt_duplicate(best), next@),
{
    match best {
        Some(b) => if earlier(&next.last_asked, &b.last_asked) {
            next
        } else {
            b
        },
        None => next,
    }
}

/// The duplicate that is kept of those seen so far.
pub open spec fn oldest(seen: Seq<DuplicateView>) -> Option<DuplicateView>
    decreases seen.len(),
{
    if seen.len() == 0 {
        None
    } else {
        Some(older_of(oldest(seen.drop_last()), seen.last()))
    }
}

/// The duplicate that is kept is one of those seen, and none of them was asked
/// longer ago.
pub proof fn law_oldest_duplicate_is_kept(seen: Seq<DuplicateView>)
    requires
        seen.len() > 0,
    ensures
        oldest(seen) is Some,
        seen.contains(oldest(seen)->0),
        forall|i: int|
            0 <= i < seen.len() ==> !is_earlier(
                (#[trigger] seen[i]).last_asked,
                oldest(seen)->0.last_asked,
            ),
    decreases seen.len(),
{
    if seen.len() > 1 {
        let head: Seq<DuplicateView> = seen.drop_last();
        law_oldest_duplicate_is_kept(head);
        let k: int = choose|k: int| 0 <= k < head.len() && head[k] == oldest(head)->0;
        assert(seen[k] == oldest(head)->0);
        assert forall|i: int| 0 <= i < seen.len() implies !is_earlier(
            (#[trigger] seen[i]).last_asked,
            oldest(seen)->0.last_asked,
        ) by {
            if i < head.len() {
                assert(head[i] == seen[i]);
            }
        }
    } else {
        assert(oldest(seen.drop_last()) is None);
    }
    assert(seen[seen.len() - 1] == seen.last());
}

// ── One question ─────────────────────────────────────────────────────────────

/// How many further attempts are made after the first.
pub const MAX_SKIP: u32 = 5;

/// Why no question was fetched.
pub enum FetchError {
    /// There was no token to ask with.
    NoToken,
    /// OpenTDB did not answer.
    NoAnswer,
    /// OpenTDB has no question of the category.
    Empty,
    /// The token is unknown although it was just requested.
    TokenLost,
    /// The token is exhausted although it was just reset.
    TokenExhausted,
    /// Every attempt was made.
    OutOfAttempts,
}

impl FetchError {
    /// The text of the error, where `cause` is the error of the last request.
    pub open spec fn text(self, category: nat, cause: Seq<char>) -> Seq<char> {
        match self {
            FetchError::NoToken => "ensure_token failed after all retries: "@ + cause,
            FetchError::NoAnswer => "fetch_one network error after all retries: "@ + cause,
            FetchError::Empty => "OpenTDB returned empty results for category "@ + decimal(
                category,
            ),
            FetchError::TokenLost => "OpenTDB token not found even after refresh"@,
            FetchError::TokenExhausted => "OpenTDB token still exhausted after reset"@,
            FetchError::OutOfAttempts => "fetch_one failed after all retries for category "@
                + decimal(category),
        }
    }

    /// The text of the error, where `cause` is the error of the last request.
    pub fn message(&self, category: u32, cause: &str) -> (r: String)
        ensures
            r@ == self.text(category as nat, cause@),
    {
        let mut out = String::new();
        match self {
            FetchError::NoToken => {
                out.append("ensure_token failed after all retries: ");
                out.append(cause);
            },
            FetchError::NoAnswer => {
                out.append("fetch_one network error after all retries: ");
                out.append(cause);
            },
            FetchError::Empty => {
                out.append("OpenTDB returned empty results for category ");
                push_nat(&mut out, category as u64);
            },
            FetchError::TokenLost => {
                out.append("OpenTDB token not found even after refresh");
            },
            FetchError::TokenExhausted => {
                out.append("OpenTDB token still exhausted after reset");
            },
            FetchError::OutOfAttempts => {
                out.append("fetch_one failed after all retries for category ");
                push_nat(&mut out, category as u64);
            },
        }
        out
    }
}

/// How far fetching one question has come.
pub struct FetchOne {
    /// Attempts that were made before the current one.
    pub attempt: u32,
    /// Whether the token was cleared or reset.
    pub token_refreshed: bool,
    /// The duplicate to fall back on.
    pub best: Option<Duplicate>,
    /// The question whose history is being looked up.
    pub pending: Option<FetchedQuestion>,
}

/// What a `FetchOne` stands for.
#[verifier::ext_equal]
pub struct FetchOneView {
    pub attempt: nat,
    pub token_refreshed: bool,
    pub best: Option<DuplicateView>,
    pub pending: Option<QuestionView>,
}

/// The texts of an optional question.
pub open spec fn opt_question(q: Option<FetchedQuestion>) -> Option<QuestionView> {
    match q {
        Some(x) => Some(x@),
        None => None,
    }
}

impl View for FetchOne {
    type V = FetchOneView;

    open spec fn view(&self) -> FetchOneView {
        FetchOneView {
            attempt: self.attempt as nat,
            token_refreshed: self.token_refreshed,
            best: opt_duplicate(self.best),
            pending: opt_question(self.pending),
        }
    }
}

impl FetchOneView {
    /// Attempts are left, and what is kept can be asked.
    pub open spec fn valid(self) -> bool {
        &&& self.attempt <= MAX_SKIP
        &&& self.best is Some ==> valid_question(self.best->0.question)
        &&& self.pending is Some ==> valid_question(self.pending->0)
    }
}

/// What fetching one question does next.
pub enum FetchStep {
    /// Wait, then make the next attempt.
    Attempt { wait_secs: u64 },
    /// Clear the token, then go on with `refreshed`.
    ClearToken,
    /// Reset the token, then go on with `refreshed`.
    ResetToken,
    /// Look up when the pending question was asked, then go on with
    /// `on_history`.
    CheckHistory,
    /// The question is there.
    Found { question: FetchedQuestion },
    /// Wait, then report the error.
    Fail { wait_secs: u64, error: FetchError },
}

/// What a `FetchStep` stands for.
pub enum FetchStepView {
    Attempt { wait_secs: nat },
    ClearToken,
    ResetToken,
    CheckHistory,
    Found { question: QuestionView },
    Fail { wait_secs: nat, error: FetchError },
}

impl View for FetchStep {
    type V = FetchStepView;

    open spec fn view(&self) -> FetchStepView {
        match self {
            FetchStep::Attempt { wait_secs } => FetchStepView::Attempt {
                wait_secs: *wait_secs as nat,
            },
            FetchStep::ClearToken => FetchStepView::ClearToken,
            FetchStep::ResetToken => FetchStepView::ResetToken,
            FetchStep::CheckHistory => FetchStepView::CheckHistory,
            FetchStep::Found { question } => FetchStepView::Found { question: question@ },
            FetchStep::Fail { wait_secs, error } => FetchStepView::Fail {
                wait_secs: *wait_secs as nat,
                error: *error,
            },
        }
    }
}

/// What can come back while one question is fetched.
pub enum FetchEvent {
    NoToken,
    NoAnswer,
    Refreshed,
    Answer { code: u8, first: Option<QuestionView> },
    History { recently_asked: bool, last_asked: Option<Timestamp> },
}

/// The next attempt after `wait_secs` seconds, or the end where all were made.
pub open spec fn fetch_again(s: FetchOneView, wait_secs: nat, error: FetchError) -> (
    FetchOneView,
    FetchStepView,
) {
    if s.attempt < MAX_SKIP {
        (
            FetchOneView { attempt: s.attempt + 1, pending: None, ..s },
            FetchStepView::Attempt { wait_secs },
        )
    } else {
        (FetchOneView { pending: None, ..s }, FetchStepView::Fail { wait_secs, error })
    }
}

/// How fetching one question goes on. A question that was asked recently is
/// skipped; when every attempt was made, the one that was asked longest ago is
/// taken after all. The token is cleared or reset at most once.
pub open spec fn fetch_step(s: FetchOneView, event: FetchEvent) -> (FetchOneView, FetchStepView) {
    match event {
        FetchEvent::NoToken => fetch_again(
            s,
            if s.attempt < MAX_SKIP {
                2
            } else {
                0
            },
            FetchError::NoToken,
        ),
        FetchEvent::NoAnswer => fetch_again(s, 0, FetchError::NoAnswer),
        FetchEvent::Refreshed => fetch_again(s, 0, FetchError::OutOfAttempts),
        FetchEvent::Answer { code, first } => {
            if code == 0 {
                match first {
                    None => (s, FetchStepView::Fail { wait_secs: 0, error: FetchError::Empty }),
                    Some(q) => if valid_question(q) {
                        (FetchOneView { pending: Some(q), ..s }, FetchStepView::CheckHistory)
                    } else {
                        fetch_again(s, 0, FetchError::OutOfAttempts)
                    },
                }
            } else if code == 3 {
                if s.token_refreshed {
                    (s, FetchStepView::Fail { wait_secs: 0, error: FetchError::TokenLost })
                } else {
                    (FetchOneView { token_refreshed: true, ..s }, FetchStepView::ClearToken)
                }
            } else if code == 4 {
                if s.token_refreshed {
                    (s, FetchStepView::Fail { wait_secs: 0, error: FetchError::TokenExhausted })
                } else {
                    (FetchOneView { token_refreshed: true, ..s }, FetchStepView::ResetToken)
                }
            } else if code == 5 {
                fetch_again(s, 6, FetchError::OutOfAttempts)
            } else {
                fetch_again(s, 0, FetchError::OutOfAttempts)
            }
        },
        FetchEvent::History { recently_asked, last_asked } => {
            let q: QuestionView = s.pending->0;
            if !recently_asked {
                (FetchOneView { pending: None, ..s }, FetchStepView::Found { question: q })
            } else {
                let best: DuplicateView = older_of(
                    s.best,
                    DuplicateView { question: q, last_asked },
                );
                if s.attempt < MAX_SKIP {
                    fetch_again(
                        FetchOneView { best: Some(best), ..s },
                        0,
                        FetchError::OutOfAttempts,
                    )
                } else {
                    (
                        FetchOneView { best: None, pending: None, ..s },
                        FetchStepView::Found { question: best.question },
                    )
                }
            }
        },
    }
}

impl FetchOne {
    /// The first attempt.
    pub fn start() -> (r: (FetchOne, FetchStep))
        ensures
            r.0@ == (FetchOneView {
                attempt: 0,
                token_refreshed: false,
                best: None,
                pending: None,
            }),
            r.0@.valid(),
            r.1@ == (FetchStepView::Attempt { wait_secs: 0 }),
    {
        (
            FetchOne { attempt: 0, token_refreshed: false, best: None, pending: None },
            FetchStep::Attempt { wait_secs: 0 },
        )
    }

    fn again(&mut self, wait_secs: u64, error: FetchError) -> (r: FetchStep)
        requires
            old(self)@.valid(),
        ensures
            (final(self)@, r@) == fetch_again(old(self)@, wait_secs as nat, error),
            final(self)@.valid(),
    {
        self.pending = None;
        if self.attempt < MAX_SKIP {
            self.attempt = self.attempt + 1;
            FetchStep::Attempt { wait_secs }
        } else {
            FetchStep::Fail { wait_secs, error }
        }
    }

    /// Goes on where no token could be had.
    pub fn no_token(&mut self) -> (r: FetchStep)
        requires
            old(self)@.valid(),
        ensures
            (final(self)@, r@) == fetch_step(old(self)@, FetchEvent::NoToken),
            final(self)@.valid(),
    {
        let wait_secs: u64 = if self.attempt < MAX_SKIP {
            2
        } else {
            0
        };
        self.again(wait_secs, FetchError::NoToken)
    }

    /// Goes on where OpenTDB did not answer.
    pub fn no_answer(&mut self) -> (r: FetchStep)
        requires
            old(self)@.valid(),
        ensures
            (final(self)@, r@) == fetch_step(old(self)@, FetchEvent::NoAnswer),
            final(self)@.valid(),
    {
        self.again(0, FetchError::NoAnswer)
    }

    /// Goes on after the token was cleared or reset.
    pub fn refreshed(&mut self) -> (r: FetchStep)
        requires
            old(self)@.valid(),
        ensures
            (final(self)@, r@) == fetch_step(old(self)@, FetchEvent::Refreshed),
            final(self)@.valid(),
    {
        self.again(0, FetchError::OutOfAttempts)
    }

    /// Goes on after OpenTDB answered with `code`, and `first` as the first of
    /// its questions.
    pub fn on_answer(&mut self, code: u8, first: Option<FetchedQuestion>) -> (r: FetchStep)
        requires
            old(self)@.valid(),
        ensures
            (final(self)@, r@) == fetch_step(
                old(self)@,
                (FetchEvent::Answer { code, first: opt_question(first) }),
            ),
            final(self)@.valid(),
    {
        if code == 0 {
            match first {
                None => FetchStep::Fail { wait_secs: 0, error: FetchError::Empty },
                Some(q) => {
                    if question_is_valid(&q) {
                        self.pending = Some(q);
                        FetchStep::CheckHistory
                    } else {
                        self.again(0, FetchError::OutOfAttempts)
                    }
                },
            }
        } else if code == 3 {
            if self.token_refreshed {
                return FetchStep::Fail { wait_secs: 0, error: FetchError::TokenLost };
            }
            self.token_refreshed = true;
            FetchStep::ClearToken
        } else if code == 4 {
            if self.token_refreshed {
                return FetchStep::Fail { wait_secs: 0, error: FetchError::TokenExhausted };
            }
            self.token_refreshed = true;
            FetchStep::ResetToken
        } else if code == 5 {
            self.again(6, FetchError::OutOfAttempts)
        } else {
            self.again(0, FetchError::OutOfAttempts)
        }
    }

    /// Goes on after the history of the pending question was looked up.
    pub fn on_history(&mut self, recently_asked: bool, last_asked: Option<Timestamp>) -> (r:
        FetchStep)
        requires
            old(self)@.valid(),
            old(self).pending is Some,
        ensures
            (final(self)@, r@) == fetch_step(
                old(self)@,
                (FetchEvent::History { recently_asked, last_asked }),
            ),
            final(self)@.valid(),
    {
        let question = match self.pending.take() {
            Some(q) => q,
            None => {
                return FetchStep::Fail { wait_secs: 0, error: FetchError::OutOfAttempts };
            },
        };
        if !recently_asked {
            return FetchStep::Found { question };
        }
        let best = keep_older(self.best.take(), Duplicate { question, last_asked });
        if self.attempt < MAX_SKIP {
            self.best = Some(best);
            self.again(0, FetchError::OutOfAttempts)
        } else {
            FetchStep::Found { question: best.question }
        }
    }
}

// ── Laws ─────────────────────────────────────────────────────────────────────

/// Whether a step ends the run.
pub open spec fn fetch_ends(step: FetchStepView) -> bool {
    step is Found || step is Fail
}

/// The steps that a run of events leads to.
pub open spec fn fetch_run(s: FetchOneView, events: Seq<FetchEvent>) -> Seq<FetchStepView>
    decreases events.len(),
{
    if events.len() == 0 {
        Seq::empty()
    } else {
        let (next, step) = fetch_step(s, events[0]);
        if fetch_ends(step) {
            seq![step]
        } else {
            seq![step] + fetch_run(next, events.skip(1))
        }
    }
}

/// How many steps clear or reset the token.
pub open spec fn fetch_refreshes(steps: Seq<FetchStepView>) -> nat
    decreases steps.len(),
{
    if steps.len() == 0 {
        0
    } else {
        fetch_refreshes(steps.skip(1)) + (if steps[0] is ClearToken || steps[0] is ResetToken {
            1nat
        } else {
            0
        })
    }
}

/// How many steps make an attempt.
pub open spec fn fetch_attempts(steps: Seq<FetchStepView>) -> nat
    decreases steps.len(),
{
    if steps.len() == 0 {
        0
    } else {
        fetch_attempts(steps.skip(1)) + (if steps[0] is Attempt {
            1nat
        } else {
            0
        })
    }
}

/// Whatever comes back, fetching one question clears or resets the token at
/// most once and makes at most `MAX_SKIP` attempts after the first.
pub proof fn law_fetch_one_is_bounded(s: FetchOneView, events: Seq<FetchEvent>)
    requires
        s.attempt <= MAX_SKIP,
    ensures
        fetch_refreshes(fetch_run(s, events)) <= (if s.token_refreshed {
            0nat
        } else {
            1
        }),
        s.attempt + fetch_attempts(fetch_run(s, events)) <= MAX_SKIP,
    decreases events.len(),
{
    if events.len() > 0 {
        let (next, step) = fetch_step(s, events[0]);
        let run: Seq<FetchStepView> = fetch_run(s, events);
        assert(run[0] == step);
        if fetch_ends(step) {
            assert(run.skip(1) =~= Seq::<FetchStepView>::empty());
            assert(fetch_refreshes(run.skip(1)) == 0 && fetch_attempts(run.skip(1)) == 0);
        } else {
            law_fetch_one_is_bounded(next, events.skip(1));
            assert(run.skip(1) =~= fetch_run(next, events.skip(1)));
        }
    }
}

/// A question that is found can be asked.
pub proof fn law_fetched_question_is_valid(s: FetchOneView, event: FetchEvent)
    requires
        s.valid(),
        event is History ==> s.pending is Some,
        fetch_step(s, event).1 is Found,
    ensures
        valid_question(fetch_step(s, event).1->question),
{
}

// ── Laws of a whole search ───────────────────────────────────────────────────

/// A question that was drawn, and what its history says.
#[verifier::ext_equal]
pub struct Drawn {
    pub question: QuestionView,
    pub recently_asked: bool,
    pub last_asked: Option<Timestamp>,
}

/// When the questions drawn were asked.
pub open spec fn duplicates(drawn: Seq<Drawn>) -> Seq<DuplicateView> {
    drawn.map_values(
        |d: Drawn| DuplicateView { question: d.question, last_asked: d.last_asked },
    )
}

/// Whether all questions drawn were asked recently.
pub open spec fn all_recent(drawn: Seq<Drawn>) -> bool {
    forall|i: int| 0 <= i < drawn.len() ==> (#[trigger] drawn[i]).recently_asked
}

/// Whether the draw at an index is the right one of all: its question was not
/// asked recently, or all were, and none of them was asked longer ago.
pub open spec fn is_right_draw(drawn: Seq<Drawn>, k: int) -> bool {
    ||| !drawn[k].recently_asked
    ||| all_recent(drawn) && forall|i: int|
        0 <= i < drawn.len() ==> !is_earlier(
            (#[trigger] drawn[i]).last_asked,
            drawn[k].last_asked,
        )
}

/// Whether `q` is a question to take of those drawn, see `is_right_draw`.
pub open spec fn is_right_choice(drawn: Seq<Drawn>, q: QuestionView) -> bool {
    exists|k: int|
        0 <= k < drawn.len() && (#[trigger] drawn[k]).question == q && is_right_draw(drawn, k)
}

/// The duplicate that is kept of questions drawn is a right choice where all
/// were asked recently.
pub proof fn lemma_oldest_is_right(drawn: Seq<Drawn>)
    requires
        drawn.len() > 0,
        all_recent(drawn),
    ensures
        oldest(duplicates(drawn)) is Some,
        is_right_choice(drawn, oldest(duplicates(drawn))->0.question),
{
    let seen: Seq<DuplicateView> = duplicates(drawn);
    law_oldest_duplicate_is_kept(seen);
    let best: DuplicateView = oldest(seen)->0;
    let k: int = choose|k: int| 0 <= k < seen.len() && seen[k] == best;
    assert(drawn[k].question == best.question);
    assert forall|i: int| 0 <= i < drawn.len() implies !is_earlier(
        (#[trigger] drawn[i]).last_asked,
        drawn[k].last_asked,
    ) by {
        assert(seen[i].last_asked == drawn[i].last_asked);
    }
}

/// One more draw makes the duplicate that is kept the older of two.
pub proof fn lemma_draw_updates_oldest(before: Seq<Drawn>, d: Drawn)
    ensures
        oldest(duplicates(before.push(d))) == Some(
            older_of(
                oldest(duplicates(before)),
                DuplicateView { question: d.question, last_asked: d.last_asked },
            ),
        ),
{
    assert(duplicates(before.push(d)).drop_last() =~= duplicates(before));
}

/// The questions that a run of events draws: those whose history is looked up.
pub open spec fn fetch_draws(s: FetchOneView, events: Seq<FetchEvent>) -> Seq<Drawn>
    decreases events.len(),
{
    if events.len() == 0 {
        Seq::empty()
    } else {
        let (next, step) = fetch_step(s, events[0]);
        let now: Seq<Drawn> = match events[0] {
            FetchEvent::History { recently_asked, last_asked } => seq![
                Drawn { question: s.pending->0, recently_asked, last_asked },
            ],
            _ => Seq::empty(),
        };
        if fetch_ends(step) {
            now
        } else {
            now + fetch_draws(next, events.skip(1))
        }
    }
}

proof fn lemma_fetch_finds_the_right_question(
    s: FetchOneView,
    before: Seq<Drawn>,
    events: Seq<FetchEvent>,
)
    requires
        s.best == oldest(duplicates(before)),
        all_recent(before),
        fetch_run(s, events).len() > 0,
        fetch_run(s, events).last() is Found,
    ensures
        is_right_choice(
            before + fetch_draws(s, events),
            fetch_run(s, events).last()->question,
        ),
    decreases events.len(),
{
    let (next, step) = fetch_step(s, events[0]);
    let rest: Seq<FetchEvent> = events.skip(1);
    match events[0] {
        FetchEvent::History { recently_asked, last_asked } => {
            let d: Drawn = Drawn { question: s.pending->0, recently_asked, last_asked };
            let drawn: Seq<Drawn> = before.push(d);
            lemma_draw_updates_oldest(before, d);
            if fetch_ends(step) {
                assert(before + fetch_draws(s, events) =~= drawn);
                if recently_asked {
                    lemma_oldest_is_right(drawn);
                } else {
                    assert(drawn[before.len() as int] == d);
                    assert(is_right_draw(drawn, before.len() as int));
                }
            } else {
                assert(fetch_run(s, events).last() == fetch_run(next, rest).last());
                lemma_fetch_finds_the_right_question(next, drawn, rest);
                assert(before + fetch_draws(s, events) =~= drawn + fetch_draws(next, rest));
            }
        },
        _ => {
            assert(step !is Found);
            if !fetch_ends(step) {
                assert(fetch_run(s, events).last() == fetch_run(next, rest).last());
                lemma_fetch_finds_the_right_question(next, before, rest);
                assert(before + fetch_draws(s, events) =~= before + fetch_draws(next, rest));
            }
        },
    }
}

/// Whatever comes back, the question that is found in the end was not asked
/// recently; or every question drawn since the start was, and none of them was
/// asked longer ago.
pub proof fn law_fetch_one_finds_the_right_question(
    s: FetchOneView,
    events: Seq<FetchEvent>,
)
    requires
        s.best is None,
        fetch_run(s, events).len() > 0,
        fetch_run(s, events).last() is Found,
    ensures
        is_right_choice(fetch_draws(s, events), fetch_run(s, events).last()->question),
{
    let none: Seq<Drawn> = Seq::empty();
    assert(duplicates(none) =~= Seq::<DuplicateView>::empty());
    lemma_fetch_finds_the_right_question(s, none, events);
    assert(none + fetch_draws(s, events) =~= fetch_draws(s, events));
}

/// A well-formed question that was not asked recently is found with the first
/// answer.
pub proof fn law_a_fresh_question_is_found(
    s: FetchOneView,
    q: QuestionView,
    last_asked: Option<Timestamp>,
)
    requires
        valid_question(q),
    ensures
        ({
            let (looked, step) = fetch_step(s, FetchEvent::Answer { code: 0, first: Some(q) });
            &&& step is CheckHistory
            &&& fetch_step(
                looked,
                FetchEvent::History { recently_asked: false, last_asked },
            ).1 == (FetchStepView::Found { question: q })
        }),
{
}

/// What OpenTDB answers is acted on: a category without questions fails; a lost
/// token is cleared and an exhausted one reset, once for both; with too many
/// requests six seconds are waited; everything else is tried again at once, and
/// fails once five more attempts were made.
pub proof fn law_fetch_answers_are_acted_on(
    s: FetchOneView,
    code: u8,
    first: Option<QuestionView>,
)
    ensures
        ({
            let (next, step) = fetch_step(s, FetchEvent::Answer { code, first });
            let again: bool = code == 0 && first is Some && !valid_question(first->0) || code != 0
                && code != 3 && code != 4;
            &&& code == 0 && first is None ==> step == (FetchStepView::Fail {
                wait_secs: 0,
                error: FetchError::Empty,
            })
            &&& code == 3 && !s.token_refreshed ==> step is ClearToken && next.token_refreshed
            &&& code == 4 && !s.token_refreshed ==> step is ResetToken && next.token_refreshed
            &&& code == 3 && s.token_refreshed ==> step == (FetchStepView::Fail {
                wait_secs: 0,
                error: FetchError::TokenLost,
            })
            &&& code == 4 && s.token_refreshed ==> step == (FetchStepView::Fail {
                wait_secs: 0,
                error: FetchError::TokenExhausted,
            })
            &&& again && s.attempt < 5 ==> next.attempt == s.attempt + 1 && step == (
            FetchStepView::Attempt {
                wait_secs: if code == 5 {
                    6
                } else {
                    0
                },
            })
            &&& again && s.attempt >= 5 ==> step is Fail && step->error
                == FetchError::OutOfAttempts
            &&& next.best == s.best
        }),
{
}

/// Without a token or an answer another attempt is made, after two seconds where
/// there was no token; the error tells which was missing in the end.
pub proof fn law_lost_attempts_are_made_again(s: FetchOneView)
    ensures
        s.attempt < 5 ==> fetch_step(s, FetchEvent::NoToken).1 == (FetchStepView::Attempt {
            wait_secs: 2,
        }) && fetch_step(s, FetchEvent::NoAnswer).1 == (FetchStepView::Attempt { wait_secs: 0 })
            && fetch_step(s, FetchEvent::Refreshed).1 == (FetchStepView::Attempt { wait_secs: 0 }),
        s.attempt >= 5 ==> fetch_step(s, FetchEvent::NoToken).1 == (FetchStepView::Fail {
            wait_secs: 0,
            error: FetchError::NoToken,
        }) && fetch_step(s, FetchEvent::NoAnswer).1 == (FetchStepView::Fail {
            wait_secs: 0,
            error: FetchError::NoAnswer,
        }),
{
}

} // verus!
