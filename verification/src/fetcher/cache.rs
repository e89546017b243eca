//! Taking questions out of the cache.

use vstd::prelude::*;

use crate::calendar::Timestamp;
use crate::fetcher::categories::{
    category_group_label, category_is_active, group_label, is_active, normalise, normalised,
};
use crate::fetcher::questions::{question_is_valid, valid_question};
use crate::fetcher::single::{
    all_recent, duplicates, is_right_choice, is_right_draw, keep_older, lemma_draw_updates_oldest,
    lemma_oldest_is_right, older_of, oldest, opt_duplicate, opt_question, Drawn, Duplicate,
    DuplicateView,
};
use crate::state::{question_views, FetchedQuestion, QuestionView, State};
use crate::text::{contains_text, texts};

verus! {

/// The group of a question as it is matched.
pub open spec fn group_key(q: QuestionView) -> Seq<char> {
    normalised(group_label(q.category))
}

/// The group of a question as it is matched.
pub fn question_group(q: &FetchedQuestion) -> (r: String)
    ensures
        r@ == group_key(q@),
{
    normalise(category_group_label(q.category.as_str()).as_str())
}

/// Takes the first question out of the cache.
fn pop_question(state: &mut State) -> (r: Option<FetchedQuestion>)
    ensures
        r is Some <==> old(state).cached_questions@.len() > 0,
        r is Some ==> {
            &&& r->0@ == question_views(old(state).cached_questions@)[0]
            &&& question_views(final(state).cached_questions@) == question_views(
                old(state).cached_questions@,
            ).skip(1)
        },
        r is None ==> final(state).cached_questions@ == old(state).cached_questions@,
        same_but_cache(*old(state), *final(state)),
{
    let ghost before: Seq<FetchedQuestion> = state.cached_questions@;
    let r = state.cached_questions.pop_front();
    proof {
        if before.len() > 0 {
            assert(question_views(state.cached_questions@) =~= question_views(before).skip(1));
        }
    }
    r
}

/// Whether two states agree in all but the cache.
pub open spec fn same_but_cache(a: State, b: State) -> bool {
    &&& a.opentdb_token == b.opentdb_token
    &&& a.created_at == b.created_at
    &&& a.last_quiz_dates == b.last_quiz_dates
    &&& a.scheduled_once == b.scheduled_once
}

// ── Looking through the cache once ───────────────────────────────────────────

/// Whether a question is left in the cache for later: its group is avoided or
/// not active.
pub open spec fn passed_over(
    q: QuestionView,
    avoid: Seq<Seq<char>>,
    excluded: Seq<Seq<char>>,
) -> bool {
    avoid.contains(group_key(q)) || !is_active(q.category, excluded)
}

/// Looks at up to `left` questions of the cache. Malformed ones are dropped,
/// those passed over go to the end, and the first that remains is taken out.
/// The result is the cache, how many are left to look at, and the question.
pub open spec fn scan(
    cache: Seq<QuestionView>,
    left: nat,
    avoid: Seq<Seq<char>>,
    excluded: Seq<Seq<char>>,
) -> (Seq<QuestionView>, nat, Option<QuestionView>)
    decreases left,
{
    if left == 0 || cache.len() == 0 {
        (cache, 0, None)
    } else {
        let q: QuestionView = cache[0];
        let rest: Seq<QuestionView> = cache.skip(1);
        let n: nat = (left - 1) as nat;
        if !valid_question(q) {
            scan(rest, n, avoid, excluded)
        } else if passed_over(q, avoid, excluded) {
            scan(rest.push(q), n, avoid, excluded)
        } else {
            (rest, n, Some(q))
        }
    }
}

/// A pass through the cache.
pub struct CacheScan {
    /// How many questions are left to look at.
    pub left: usize,
}

impl CacheScan {
    /// A pass through the whole cache.
    pub fn start(state: &State) -> (r: CacheScan)
        ensures
            r.left == state.cached_questions@.len(),
    {
        CacheScan { left: state.cached_questions.len() }
    }

    /// The next question that is neither malformed nor passed over, taken out
    /// of the cache, see `scan`. One that was asked recently is not put back:
    /// the pass goes on with another call.
    pub fn next(
        &mut self,
        state: &mut State,
        avoid: &Vec<String>,
        excluded: &[String],
    ) -> (r: Option<FetchedQuestion>)
        ensures
            (
                question_views(final(state).cached_questions@),
                final(self).left as nat,
                opt_question(r),
            ) == scan(
                question_views(old(state).cached_questions@),
                old(self).left as nat,
                texts(avoid@),
                texts(excluded@),
            ),
            same_but_cache(*old(state), *final(state)),
    {
        let ghost start: (Seq<QuestionView>, nat, Option<QuestionView>) = scan(
            question_views(state.cached_questions@),
            self.left as nat,
            texts(avoid@),
            texts(excluded@),
        );
        while self.left > 0
            invariant
                start == scan(
                    question_views(state.cached_questions@),
                    self.left as nat,
                    texts(avoid@),
                    texts(excluded@),
                ),
                start == scan(
                    question_views(old(state).cached_questions@),
                    old(self).left as nat,
                    texts(avoid@),
                    texts(excluded@),
                ),
                same_but_cache(*old(state), *state),
            decreases self.left,
        {
            let ghost cache: Seq<QuestionView> = question_views(state.cached_questions@);
            match pop_question(state) {
                None => {
                    self.left = 0;
                    return None;
                },
                Some(q) => {
                    self.left = self.left - 1;
                    if question_is_valid(&q) {
                        let group = question_group(&q);
                        if contains_text(avoid, group.as_str()) || !category_is_active(
                            q.category.as_str(),
                            excluded,
                        ) {
                            let ghost rest: Seq<FetchedQuestion> = state.cached_questions@;
                            let ghost view: QuestionView = q@;
                            state.cached_questions.push_back(q);
                            assert(question_views(state.cached_questions@) =~= question_views(
                                rest,
                            ).push(view));
                        } else {
                            return Some(q);
                        }
                    }
                },
            }
        }
        None
    }
}

/// What a pass keeps in the cache: the well-formed questions that it passes
/// over.
pub open spec fn kept_by_scan(
    cache: Seq<QuestionView>,
    avoid: Seq<Seq<char>>,
    excluded: Seq<Seq<char>>,
) -> Seq<QuestionView> {
    cache.filter(|q: QuestionView| valid_question(q) && passed_over(q, avoid, excluded))
}

proof fn lemma_scan(
    ahead: Seq<QuestionView>,
    behind: Seq<QuestionView>,
    avoid: Seq<Seq<char>>,
    excluded: Seq<Seq<char>>,
)
    ensures
        ({
            let r = scan(ahead + behind, ahead.len(), avoid, excluded);
            &&& r.2 is None ==> r.0 == behind + kept_by_scan(ahead, avoid, excluded)
            &&& r.2 is Some ==> ahead.contains(r.2->0) && valid_question(r.2->0) && !passed_over(
                r.2->0,
                avoid,
                excluded,
            )
        }),
    decreases ahead.len(),
{
    let keep = |q: QuestionView| valid_question(q) && passed_over(q, avoid, excluded);
    if ahead.len() == 0 {
        assert(kept_by_scan(ahead, avoid, excluded).len() == 0) by {
            ahead.lemma_filter_len(keep);
        }
        assert(ahead + behind =~= behind + kept_by_scan(ahead, avoid, excluded));
    } else {
        let q: QuestionView = ahead[0];
        let rest: Seq<QuestionView> = ahead.skip(1);
        let cache: Seq<QuestionView> = ahead + behind;
        assert(cache[0] == q);
        assert(seq![q] + rest =~= ahead);
        Seq::filter_distributes_over_add(seq![q], rest, keep);
        assert(seq![q].filter(keep) == (if keep(q) {
            seq![q]
        } else {
            Seq::empty()
        })) by {
            reveal(Seq::filter);
            assert(seq![q].drop_last() =~= Seq::<QuestionView>::empty());
            assert(seq![q].drop_last().filter(keep) =~= Seq::<QuestionView>::empty());
        }
        if !valid_question(q) {
            lemma_scan(rest, behind, avoid, excluded);
            assert(cache.skip(1) =~= rest + behind);
            assert(kept_by_scan(ahead, avoid, excluded) =~= kept_by_scan(rest, avoid, excluded));
        } else if passed_over(q, avoid, excluded) {
            lemma_scan(rest, behind.push(q), avoid, excluded);
            assert(cache.skip(1).push(q) =~= rest + behind.push(q));
            assert(behind.push(q) + kept_by_scan(rest, avoid, excluded) =~= behind + kept_by_scan(
                ahead,
                avoid,
                excluded,
            ));
        }
        let r = scan(cache, ahead.len(), avoid, excluded);
        if r.2 is Some && rest.contains(r.2->0) {
            let i: int = rest.index_of(r.2->0);
            assert(ahead[i + 1] == r.2->0);
        }
    }
}

/// A pass that finds nothing keeps the well-formed questions in their order.
pub proof fn law_a_fruitless_scan_keeps_the_order(
    cache: Seq<QuestionView>,
    avoid: Seq<Seq<char>>,
    excluded: Seq<Seq<char>>,
)
    requires
        scan(cache, cache.len(), avoid, excluded).2 is None,
    ensures
        scan(cache, cache.len(), avoid, excluded).0 == cache.filter(
            |q: QuestionView| valid_question(q),
        ),
{
    lemma_scan(cache, Seq::empty(), avoid, excluded);
    assert(cache + Seq::<QuestionView>::empty() =~= cache);
    let all = |q: QuestionView| valid_question(q);
    let keep = |q: QuestionView| valid_question(q) && passed_over(q, avoid, excluded);
    assert forall|i: int| 0 <= i < cache.len() && valid_question(#[trigger] cache[i]) implies keep(
        cache[i],
    ) by {
        lemma_fruitless(cache, Seq::empty(), avoid, excluded, i);
    }
    lemma_same_filter(cache, all, keep);
}

proof fn lemma_fruitless(
    ahead: Seq<QuestionView>,
    behind: Seq<QuestionView>,
    avoid: Seq<Seq<char>>,
    excluded: Seq<Seq<char>>,
    i: int,
)
    requires
        scan(ahead + behind, ahead.len(), avoid, excluded).2 is None,
        0 <= i < ahead.len(),
        valid_question(ahead[i]),
    ensures
        passed_over(ahead[i], avoid, excluded),
    decreases ahead.len(),
{
    let q: QuestionView = ahead[0];
    let rest: Seq<QuestionView> = ahead.skip(1);
    let cache: Seq<QuestionView> = ahead + behind;
    assert(cache[0] == q);
    if i > 0 {
        assert(rest[i - 1] == ahead[i]);
        if !valid_question(q) {
            assert(cache.skip(1) =~= rest + behind);
            lemma_fruitless(rest, behind, avoid, excluded, i - 1);
        } else {
            assert(cache.skip(1).push(q) =~= rest + behind.push(q));
            lemma_fruitless(rest, behind.push(q), avoid, excluded, i - 1);
        }
    }
}

proof fn lemma_same_filter(
    s: Seq<QuestionView>,
    p: spec_fn(QuestionView) -> bool,
    q: spec_fn(QuestionView) -> bool,
)
    requires
        forall|i: int| 0 <= i < s.len() ==> p(#[trigger] s[i]) == q(s[i]),
    ensures
        s.filter(p) == s.filter(q),
    decreases s.len(),
{
    reveal(Seq::filter);
    if s.len() > 0 {
        assert forall|i: int| 0 <= i < s.drop_last().len() implies p(#[trigger] s.drop_last()[i])
            == q(s.drop_last()[i]) by {
            assert(s.drop_last()[i] == s[i]);
        }
        lemma_same_filter(s.drop_last(), p, q);
        assert(p(s[s.len() - 1]) == q(s[s.len() - 1]));
    }
}

/// What a pass finds is a well-formed question of the cache, of an active
/// group that is not avoided.
pub proof fn law_scan_finds_what_fits(
    cache: Seq<QuestionView>,
    avoid: Seq<Seq<char>>,
    excluded: Seq<Seq<char>>,
)
    requires
        scan(cache, cache.len(), avoid, excluded).2 is Some,
    ensures
        ({
            let q: QuestionView = scan(cache, cache.len(), avoid, excluded).2->0;
            &&& cache.contains(q)
            &&& valid_question(q)
            &&& is_active(q.category, excluded)
            &&& !avoid.contains(group_key(q))
        }),
{
    lemma_scan(cache, Seq::empty(), avoid, excluded);
    assert(cache + Seq::<QuestionView>::empty() =~= cache);
}

// ── The next question ────────────────────────────────────────────────────────

/// How many questions of the cache are skipped at most.
pub const MAX_CACHE_SKIP: u32 = 30;

/// With fewer questions than this in the cache, more are fetched.
pub const LOW_CACHE: usize = 3;

/// How far taking the next question has come.
pub struct NextQuestion {
    /// Questions that were skipped.
    pub attempt: u32,
    /// The duplicate to fall back on.
    pub best: Option<Duplicate>,
    /// The question whose history is being looked up.
    pub pending: Option<FetchedQuestion>,
}

/// What a `NextQuestion` stands for.
#[verifier::ext_equal]
pub struct NextQuestionView {
    pub attempt: nat,
    pub best: Option<DuplicateView>,
    pub pending: Option<QuestionView>,
}

impl View for NextQuestion {
    type V = NextQuestionView;

    open spec fn view(&self) -> NextQuestionView {
        NextQuestionView {
            attempt: self.attempt as nat,
            best: opt_duplicate(self.best),
            pending: opt_question(self.pending),
        }
    }
}

impl NextQuestionView {
    /// Attempts are left, and what is kept can be asked.
    pub open spec fn valid(self) -> bool {
        &&& self.attempt <= MAX_CACHE_SKIP
        &&& self.best is Some ==> valid_question(self.best->0.question)
        &&& self.pending is Some ==> valid_question(self.pending->0)
    }
}

/// What taking the next question does next.
pub enum NextStep {
    /// Fill the cache if it is empty, then take a question.
    Again,
    /// Look up when the pending question was asked; with `refill`, fetch more
    /// questions in the background.
    CheckHistory { refill: bool },
    /// The question is there.
    Found { question: FetchedQuestion },
    /// The cache is empty although it was just filled.
    NoQuestions,
    /// As many questions as allowed were skipped, and the last one cannot be
    /// asked at all.
    OutOfAttempts,
}

/// What a `NextStep` stands for.
pub enum NextStepView {
    Again,
    CheckHistory { refill: bool },
    Found { question: QuestionView },
    NoQuestions,
    OutOfAttempts,
}

impl View for NextStep {
    type V = NextStepView;

    open spec fn view(&self) -> NextStepView {
        match self {
            NextStep::Again => NextStepView::Again,
            NextStep::CheckHistory { refill } => NextStepView::CheckHistory { refill: *refill },
            NextStep::Found { question } => NextStepView::Found { question: question@ },
            NextStep::NoQuestions => NextStepView::NoQuestions,
            NextStep::OutOfAttempts => NextStepView::OutOfAttempts,
        }
    }
}

/// Skips a question.
pub open spec fn skip_question(s: NextQuestionView) -> (NextQuestionView, NextStepView) {
    if s.attempt < MAX_CACHE_SKIP {
        (NextQuestionView { attempt: s.attempt + 1, ..s }, NextStepView::Again)
    } else {
        (s, NextStepView::OutOfAttempts)
    }
}

/// Whether a question of the cache may be asked at all. Where the category is
/// configured, exclusions do not count.
pub open spec fn may_ask(q: QuestionView, category_locked: bool, excluded: Seq<Seq<char>>) -> bool {
    valid_question(q) && (category_locked || is_active(q.category, excluded))
}

/// How taking a question out of `cache` goes.
pub open spec fn take_step(
    s: NextQuestionView,
    cache: Seq<QuestionView>,
    category_locked: bool,
    excluded: Seq<Seq<char>>,
) -> (NextQuestionView, NextStepView) {
    if cache.len() == 0 {
        (s, NextStepView::NoQuestions)
    } else if may_ask(cache[0], category_locked, excluded) {
        (
            NextQuestionView { pending: Some(cache[0]), ..s },
            NextStepView::CheckHistory { refill: cache.len() - 1 < LOW_CACHE },
        )
    } else {
        skip_question(s)
    }
}

/// How it goes on when the history of the pending question is known: one that
/// was not asked recently is taken; when all attempts were made, the one asked
/// longest ago.
pub open spec fn history_step(
    s: NextQuestionView,
    recently_asked: bool,
    last_asked: Option<Timestamp>,
) -> (NextQuestionView, NextStepView) {
    let q: QuestionView = s.pending->0;
    let cleared: NextQuestionView = NextQuestionView { pending: None, ..s };
    if !recently_asked {
        (cleared, NextStepView::Found { question: q })
    } else {
        let best: DuplicateView = older_of(s.best, DuplicateView { question: q, last_asked });
        if s.attempt < MAX_CACHE_SKIP {
            (
                NextQuestionView { attempt: s.attempt + 1, best: Some(best), ..cleared },
                NextStepView::Again,
            )
        } else {
            (
                NextQuestionView { best: None, ..cleared },
                NextStepView::Found { question: best.question },
            )
        }
    }
}

impl NextQuestion {
    /// Nothing skipped yet.
    pub fn start() -> (r: NextQuestion)
        ensures
            r@ == (NextQuestionView { attempt: 0, best: None, pending: None }),
            r@.valid(),
    {
        NextQuestion { attempt: 0, best: None, pending: None }
    }

    /// Whether the cache has to be filled before a question is taken.
    pub fn needs_prefetch(state: &State) -> (r: bool)
        ensures
            r == (state.cached_questions@.len() == 0),
    {
        state.cached_questions.len() == 0
    }

    /// Takes the first question out of the cache.
    pub fn take(&mut self, state: &mut State, category_locked: bool, excluded: &[String]) -> (r:
        NextStep)
        requires
            old(self)@.valid(),
        ensures
            (final(self)@, r@) == take_step(
                old(self)@,
                question_views(old(state).cached_questions@),
                category_locked,
                texts(excluded@),
            ),
            question_views(final(state).cached_questions@) == (if old(
                state,
            ).cached_questions@.len() > 0 {
                question_views(old(state).cached_questions@).skip(1)
            } else {
                question_views(old(state).cached_questions@)
            }),
            same_but_cache(*old(state), *final(state)),
            final(self)@.valid(),
    {
        match pop_question(state) {
            None => NextStep::NoQuestions,
            Some(q) => {
                if question_is_valid(&q) && (category_locked || category_is_active(
                    q.category.as_str(),
                    excluded,
                )) {
                    self.pending = Some(q);
                    assert(state.cached_questions@.len() == question_views(
                        state.cached_questions@,
                    ).len());
                    NextStep::CheckHistory { refill: state.cached_questions.len() < LOW_CACHE }
                } else if self.attempt < MAX_CACHE_SKIP {
                    self.attempt = self.attempt + 1;
                    NextStep::Again
                } else {
                    NextStep::OutOfAttempts
                }
            },
        }
    }

    /// Goes on after the history of the pending question was looked up.
    pub fn on_history(&mut self, recently_asked: bool, last_asked: Option<Timestamp>) -> (r:
        NextStep)
        requires
            old(self)@.valid(),
            old(self).pending is Some,
        ensures
            (final(self)@, r@) == history_step(old(self)@, recently_asked, last_asked),
            final(self)@.valid(),
            r is Found ==> valid_question(r->question@),
    {
        let question = match self.pending.take() {
            Some(q) => q,
            None => {
                return NextStep::NoQuestions;
            },
        };
        if !recently_asked {
            return NextStep::Found { question };
        }
        let best = keep_older(self.best.take(), Duplicate { question, last_asked });
        if self.attempt < MAX_CACHE_SKIP {
            self.attempt = self.attempt + 1;
            self.best = Some(best);
            NextStep::Again
        } else {
            NextStep::Found { question: best.question }
        }
    }
}

/// Every question that is skipped counts, and no more than `MAX_CACHE_SKIP` are.
/// What is found in the end can be asked.
pub proof fn law_skips_are_bounded(
    s: NextQuestionView,
    cache: Seq<QuestionView>,
    category_locked: bool,
    excluded: Seq<Seq<char>>,
    recently_asked: bool,
    last_asked: Option<Timestamp>,
)
    requires
        s.valid(),
    ensures
        ({
            let (taken, step) = take_step(s, cache, category_locked, excluded);
            step is Again ==> taken.attempt == s.attempt + 1 <= MAX_CACHE_SKIP
        }),
        s.pending is Some ==> {
            let (after, step) = history_step(s, recently_asked, last_asked);
            &&& step is Again ==> after.attempt == s.attempt + 1 <= MAX_CACHE_SKIP
            &&& step is Again || step is Found
            &&& step is Found ==> valid_question(step->question)
        },
{
}

/// What can come back while the next question is taken.
pub enum NextEvent {
    /// A question is taken out of the cache.
    Take { cache: Seq<QuestionView>, category_locked: bool, excluded: Seq<Seq<char>> },
    /// The history of the pending question was looked up.
    History { recently_asked: bool, last_asked: Option<Timestamp> },
}

/// How taking the next question goes on.
pub open spec fn next_step(s: NextQuestionView, event: NextEvent) -> (
    NextQuestionView,
    NextStepView,
) {
    match event {
        NextEvent::Take { cache, category_locked, excluded } => take_step(
            s,
            cache,
            category_locked,
            excluded,
        ),
        NextEvent::History { recently_asked, last_asked } => history_step(
            s,
            recently_asked,
            last_asked,
        ),
    }
}

/// Whether a step ends the run.
pub open spec fn next_ends(step: NextStepView) -> bool {
    step is Found || step is NoQuestions || step is OutOfAttempts
}

/// The steps that a run of events leads to.
pub open spec fn next_run(s: NextQuestionView, events: Seq<NextEvent>) -> Seq<NextStepView>
    decreases events.len(),
{
    if events.len() == 0 {
        Seq::empty()
    } else {
        let (next, step) = next_step(s, events[0]);
        if next_ends(step) {
            seq![step]
        } else {
            seq![step] + next_run(next, events.skip(1))
        }
    }
}

/// The questions that a run of events draws: those whose history is looked up.
pub open spec fn next_draws(s: NextQuestionView, events: Seq<NextEvent>) -> Seq<Drawn>
    decreases events.len(),
{
    if events.len() == 0 {
        Seq::empty()
    } else {
        let (next, step) = next_step(s, events[0]);
        let now: Seq<Drawn> = match events[0] {
            NextEvent::History { recently_asked, last_asked } => seq![
                Drawn { question: s.pending->0, recently_asked, last_asked },
            ],
            _ => Seq::empty(),
        };
        if next_ends(step) {
            now
        } else {
            now + next_draws(next, events.skip(1))
        }
    }
}

proof fn lemma_next_finds_the_right_question(
    s: NextQuestionView,
    before: Seq<Drawn>,
    events: Seq<NextEvent>,
)
    requires
        s.best == oldest(duplicates(before)),
        all_recent(before),
        next_run(s, events).len() > 0,
        next_run(s, events).last() is Found,
    ensures
        is_right_choice(
            before + next_draws(s, events),
            next_run(s, events).last()->question,
        ),
    decreases events.len(),
{
    let (next, step) = next_step(s, events[0]);
    let rest: Seq<NextEvent> = events.skip(1);
    match events[0] {
        NextEvent::History { recently_asked, last_asked } => {
            let d: Drawn = Drawn { question: s.pending->0, recently_asked, last_asked };
            let drawn: Seq<Drawn> = before.push(d);
            lemma_draw_updates_oldest(before, d);
            if next_ends(step) {
                assert(before + next_draws(s, events) =~= drawn);
                if recently_asked {
                    lemma_oldest_is_right(drawn);
                } else {
                    assert(drawn[before.len() as int] == d);
                    assert(is_right_draw(drawn, before.len() as int));
                }
            } else {
                assert(next_run(s, events).last() == next_run(next, rest).last());
                lemma_next_finds_the_right_question(next, drawn, rest);
                assert(before + next_draws(s, events) =~= drawn + next_draws(next, rest));
            }
        },
        _ => {
            assert(step !is Found);
            if !next_ends(step) {
                assert(next_run(s, events).last() == next_run(next, rest).last());
                lemma_next_finds_the_right_question(next, before, rest);
                assert(before + next_draws(s, events) =~= before + next_draws(next, rest));
            }
        },
    }
}

/// Whatever the cache holds and the history says, the question that is found in
/// the end was not asked recently; or every question whose history was looked
/// up since the start was, and none of them was asked longer ago.
pub proof fn law_next_question_is_the_right_one(s: NextQuestionView, events: Seq<NextEvent>)
    requires
        s.best is None,
        next_run(s, events).len() > 0,
        next_run(s, events).last() is Found,
    ensures
        is_right_choice(next_draws(s, events), next_run(s, events).last()->question),
{
    let none: Seq<Drawn> = Seq::empty();
    assert(duplicates(none) =~= Seq::<DuplicateView>::empty());
    lemma_next_finds_the_right_question(s, none, events);
    assert(none + next_draws(s, events) =~= next_draws(s, events));
}

/// The message of a cache that stays empty.
pub fn no_questions_message() -> (r: String)
    ensures
        r@ == "OpenTDB returned no questions"@,
{
    "OpenTDB returned no questions".to_owned()
}

/// A pass takes the first question that fits. Those behind it stay in their
/// order, and the well-formed ones before it follow them.
pub proof fn law_scan_takes_the_first_that_fits(
    cache: Seq<QuestionView>,
    avoid: Seq<Seq<char>>,
    excluded: Seq<Seq<char>>,
    i: int,
)
    requires
        0 <= i < cache.len(),
        valid_question(cache[i]),
        is_active(cache[i].category, excluded),
        !avoid.contains(normalised(group_label(cache[i].category))),
        forall|j: int|
            0 <= j < i ==> !valid_question(#[trigger] cache[j]) || !is_active(
                cache[j].category,
                excluded,
            ) || avoid.contains(normalised(group_label(cache[j].category))),
    ensures
        scan(cache, cache.len(), avoid, excluded) == (
            cache.skip(i + 1) + cache.take(i).filter(|q: QuestionView| valid_question(q)),
            (cache.len() - i - 1) as nat,
            Some(cache[i]),
        ),
{
    let none: Seq<QuestionView> = Seq::empty();
    lemma_scan_first(cache, none, avoid, excluded, i);
    assert(cache + none =~= cache);
    assert(cache.skip(i + 1) + none + cache.take(i).filter(|q: QuestionView| valid_question(q))
        =~= cache.skip(i + 1) + cache.take(i).filter(|q: QuestionView| valid_question(q)));
}

proof fn lemma_scan_first(
    ahead: Seq<QuestionView>,
    behind: Seq<QuestionView>,
    avoid: Seq<Seq<char>>,
    excluded: Seq<Seq<char>>,
    i: int,
)
    requires
        0 <= i < ahead.len(),
        valid_question(ahead[i]),
        !passed_over(ahead[i], avoid, excluded),
        forall|j: int|
            0 <= j < i ==> !valid_question(#[trigger] ahead[j]) || passed_over(
                ahead[j],
                avoid,
                excluded,
            ),
    ensures
        scan(ahead + behind, ahead.len(), avoid, excluded) == (
            ahead.skip(i + 1) + behind + ahead.take(i).filter(|q: QuestionView| valid_question(q)),
            (ahead.len() - i - 1) as nat,
            Some(ahead[i]),
        ),
    decreases i,
{
    let keep = |q: QuestionView| valid_question(q);
    let cache: Seq<QuestionView> = ahead + behind;
    let rest: Seq<QuestionView> = ahead.skip(1);
    assert(cache[0] == ahead[0]);
    assert(cache.skip(1) =~= rest + behind);
    if i == 0 {
        assert(ahead.take(0).filter(keep) =~= Seq::<QuestionView>::empty()) by {
            reveal(Seq::filter);
        }
        assert(rest + behind =~= ahead.skip(1) + behind + ahead.take(0).filter(keep));
    } else {
        let q: QuestionView = ahead[0];
        assert forall|j: int| 0 <= j < i - 1 implies !valid_question(#[trigger] rest[j])
            || passed_over(rest[j], avoid, excluded) by {
            assert(rest[j] == ahead[j + 1]);
        }
        assert(rest[i - 1] == ahead[i]);
        assert(rest.skip(i) =~= ahead.skip(i + 1));
        assert(ahead.take(i) =~= seq![q] + rest.take(i - 1));
        Seq::filter_distributes_over_add(seq![q], rest.take(i - 1), keep);
        assert(seq![q].filter(keep) == (if keep(q) {
            seq![q]
        } else {
            Seq::empty()
        })) by {
            reveal(Seq::filter);
            assert(seq![q].drop_last() =~= Seq::<QuestionView>::empty());
            assert(seq![q].drop_last().filter(keep) =~= Seq::<QuestionView>::empty());
        }
        if !valid_question(q) {
            lemma_scan_first(rest, behind, avoid, excluded, i - 1);
            assert(ahead.take(i).filter(keep) =~= rest.take(i - 1).filter(keep));
        } else {
            lemma_scan_first(rest, behind.push(q), avoid, excluded, i - 1);
            assert(cache.skip(1).push(q) =~= rest + behind.push(q));
            assert(rest.skip(i) + behind.push(q) + rest.take(i - 1).filter(keep) =~= ahead.skip(
                i + 1,
            ) + behind + ahead.take(i).filter(keep));
        }
    }
}

/// The next question is the first of the cache where it can be asked: a
/// well-formed one of an active group, or of any where the category is
/// configured. More questions are fetched where fewer than three are left.
pub proof fn law_the_first_question_is_looked_at(
    s: NextQuestionView,
    cache: Seq<QuestionView>,
    category_locked: bool,
    excluded: Seq<Seq<char>>,
)
    requires
        cache.len() > 0,
    ensures
        ({
            let (after, step) = take_step(s, cache, category_locked, excluded);
            let good: bool = valid_question(cache[0]) && (category_locked || is_active(
                cache[0].category,
                excluded,
            ));
            &&& good ==> after.pending == Some(cache[0]) && step == (NextStepView::CheckHistory {
                refill: cache.len() <= 3,
            }) && after.attempt == s.attempt && after.best == s.best
            &&& !good && s.attempt < 30 ==> step is Again && after.attempt == s.attempt + 1
                && after.best == s.best
            &&& !good && s.attempt >= 30 ==> step is OutOfAttempts
        }),
        take_step(s, Seq::empty(), category_locked, excluded).1 is NoQuestions,
{
}

/// A question that was not asked recently is taken at once, whatever was seen
/// before.
pub proof fn law_fresh_questions_are_taken(
    s: NextQuestionView,
    q: QuestionView,
    last_asked: Option<Timestamp>,
)
    requires
        s.pending == Some(q),
    ensures
        history_step(s, false, last_asked).1 == (NextStepView::Found { question: q }),
        s.attempt < 30 ==> history_step(s, true, last_asked).1 is Again,
{
}

} // verus!
