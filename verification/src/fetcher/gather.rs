//! Gathering the questions of a round before it starts.

use vstd::prelude::*;

use crate::fetcher::cache::{group_key, question_group};
use crate::fetcher::categories::{
    active_groups, active_table, group_views, normalise, normalise_all, normalised,
};
use crate::fetcher::fallback::{accepts, is_accepted};
use crate::fetcher::questions::{can_follow, valid_question};
use crate::fetcher::rounds::{choice_views, CategoryChoice};
use crate::fetcher::single::opt_question;
use crate::state::{question_views, FetchedQuestion, QuestionView};
use crate::text::{contains_text, opt_text, texts};

verus! {

/// How many seconds gathering may take.
pub const ROUND_PREFETCH_BUDGET_SECS: u64 = 180;

/// What is gathered for a round.
pub struct Gathering {
    /// The categories that were drawn for the round.
    pub choices: Vec<CategoryChoice>,
    /// How many of them were dealt with.
    pub index: usize,
    /// The questions that were found.
    pub questions: Vec<FetchedQuestion>,
    /// Matched names of the groups to avoid.
    pub avoid: Vec<String>,
    /// How many groups are active.
    pub active_group_count: usize,
}

/// What a `Gathering` stands for.
#[verifier::ext_equal]
pub struct GatheringView {
    pub choices: Seq<(Seq<char>, u32)>,
    pub index: nat,
    pub questions: Seq<QuestionView>,
    pub avoid: Set<Seq<char>>,
    pub active_group_count: nat,
}

impl View for Gathering {
    type V = GatheringView;

    open spec fn view(&self) -> GatheringView {
        GatheringView {
            choices: choice_views(self.choices@),
            index: self.index as nat,
            questions: question_views(self.questions@),
            avoid: texts(self.avoid@).to_set(),
            active_group_count: self.active_group_count as nat,
        }
    }
}

/// The group of the last question.
pub open spec fn last_group(questions: Seq<QuestionView>) -> Option<Seq<char>> {
    if questions.len() == 0 {
        None
    } else {
        Some(group_key(questions.last()))
    }
}

/// Whether all questions can be asked.
pub open spec fn all_askable(questions: Seq<QuestionView>) -> bool {
    forall|i: int| 0 <= i < questions.len() ==> valid_question(#[trigger] questions[i])
}

impl GatheringView {
    /// At most one question for each category that was dealt with.
    pub open spec fn valid(self) -> bool {
        self.questions.len() <= self.index <= self.choices.len()
    }

    /// With a question for the current category, of the group `group`.
    pub open spec fn with(self, q: QuestionView, group: Seq<char>) -> GatheringView {
        GatheringView {
            index: self.index + 1,
            questions: self.questions.push(q),
            avoid: self.avoid.insert(group),
            ..self
        }
    }

    /// Without a question for the current category.
    pub open spec fn without(self) -> GatheringView {
        GatheringView { index: self.index + 1, ..self }
    }

    /// Whether no two questions in a row are of one group.
    pub open spec fn varied(self) -> bool {
        forall|i: int|
            0 < i < self.questions.len() ==> can_follow(
                Some(group_key(self.questions[i - 1])),
                #[trigger] self.questions[i].category,
                self.active_group_count,
            )
    }

    /// Whether all questions can be asked.
    pub open spec fn askable(self) -> bool {
        all_askable(self.questions)
    }

    /// Whether the group of the last question is avoided.
    pub open spec fn avoids_last(self) -> bool {
        last_group(self.questions) is Some ==> self.avoid.contains(last_group(self.questions)->0)
    }
}

/// What gathering does next.
pub enum GatherStep {
    /// Ask for a question of a category, then go on with `fetched`.
    Fetch { category_id: u32 },
    /// All categories were dealt with, or the time is up.
    Done,
}

impl Gathering {
    /// Nothing gathered yet.
    pub fn start(choices: Vec<CategoryChoice>, recent: &[String], excluded: &[String]) -> (r:
        Gathering)
        ensures
            r@ == (GatheringView {
                choices: choice_views(choices@),
                index: 0,
                questions: Seq::empty(),
                avoid: texts(recent@).map_values(|s: Seq<char>| normalised(s)).to_set(),
                active_group_count: active_table(texts(excluded@)).len(),
            }),
            r@.valid(),
            r@.varied(),
            r@.avoids_last(),
            r@.askable(),
    {
        let groups = active_groups(excluded);
        let count: usize = groups.len();
        assert(count == group_views(groups@).len());
        let r = Gathering {
            choices,
            index: 0,
            questions: Vec::new(),
            avoid: normalise_all(recent),
            active_group_count: count,
        };
        assert(r@.questions =~= Seq::empty());
        r
    }

    /// What to do after `elapsed_secs` seconds.
    pub fn step(&self, elapsed_secs: u64) -> (r: GatherStep)
        ensures
            self@.index < self@.choices.len() && elapsed_secs < ROUND_PREFETCH_BUDGET_SECS ==> r
                == (GatherStep::Fetch { category_id: self@.choices[self@.index as int].1 }),
            self@.index >= self@.choices.len() || elapsed_secs >= ROUND_PREFETCH_BUDGET_SECS ==> r
                is Done,
            r is Fetch ==> elapsed_secs < 180,
            r is Done ==> self@.index >= self@.choices.len() || elapsed_secs >= 180,
    {
        assert(self@.choices.len() == self.choices.len());
        if self.index < self.choices.len() && elapsed_secs < ROUND_PREFETCH_BUDGET_SECS {
            GatherStep::Fetch { category_id: self.choices[self.index].category_id }
        } else {
            GatherStep::Done
        }
    }

    /// The group of the last question.
    pub fn previous_group(&self) -> (r: Option<String>)
        ensures
            opt_text(r) == last_group(self@.questions),
    {
        assert(self@.questions.len() == self.questions.len());
        if self.questions.len() == 0 {
            None
        } else {
            assert(self@.questions.last() == self.questions@.last()@);
            Some(question_group(&self.questions[self.questions.len() - 1]))
        }
    }

    fn add(&mut self, question: FetchedQuestion, group: String)
        requires
            old(self).index < usize::MAX,
        ensures
            final(self)@ == old(self)@.with(question@, group@),
    {
        let ghost before: Seq<FetchedQuestion> = self.questions@;
        let ghost avoided: Seq<String> = self.avoid@;
        let ghost q: QuestionView = question@;
        let ghost key: Seq<char> = group@;
        self.questions.push(question);
        assert(question_views(self.questions@) =~= question_views(before).push(q));
        if !contains_text(&self.avoid, group.as_str()) {
            self.avoid.push(group);
            proof {
                let old_names: Seq<Seq<char>> = texts(avoided);
                let names: Seq<Seq<char>> = texts(self.avoid@);
                assert(names =~= old_names.push(key));
                assert forall|x: Seq<char>| names.contains(x) <==> old_names.contains(x) || x
                    == key by {
                    if old_names.contains(x) {
                        let i: int = old_names.index_of(x);
                        assert(names[i] == x);
                    }
                    assert(names[old_names.len() as int] == key);
                }
                assert(names.to_set() =~= old_names.to_set().insert(key));
            }
        } else {
            assert(texts(avoided).to_set() =~= texts(avoided).to_set().insert(key));
        }
        self.index = self.index + 1;
    }

    /// Takes the question that was fetched for the current category, if it is
    /// of the right group and may follow. Says whether it was taken; if not,
    /// another one is needed, see `filled`.
    pub fn fetched(&mut self, question: Option<FetchedQuestion>) -> (r: bool)
        requires
            old(self)@.valid(),
            old(self)@.index < old(self)@.choices.len(),
        ensures
            r == (question is Some && is_accepted(
                question->0@.category,
                old(self)@.choices[old(self)@.index as int].0,
                last_group(old(self)@.questions),
                old(self)@.active_group_count,
            )),
            r ==> final(self)@ == old(self)@.with(
                question->0@,
                normalised(old(self)@.choices[old(self)@.index as int].0),
            ),
            !r ==> final(self)@ == old(self)@,
            final(self)@.valid(),
            old(self)@.varied() ==> final(self)@.varied(),
            old(self)@.avoids_last() ==> final(self)@.avoids_last(),
            old(self)@.askable() && (question is Some ==> valid_question(question->0@))
                ==> final(self)@.askable(),
    {
        let ghost before: GatheringView = self@;
        assert(self@.choices.len() == self.choices.len());
        match question {
            None => false,
            Some(q) => {
                let previous = self.previous_group();
                let previous_str: Option<&str> = match &previous {
                    Some(p) => Some(p.as_str()),
                    None => None,
                };
                assert(self@.choices[self@.index as int] == self.choices@[self.index as int]@);
                if accepts(
                    q.category.as_str(),
                    self.choices[self.index].group.as_str(),
                    previous_str,
                    self.active_group_count,
                ) {
                    let group = normalise(self.choices[self.index].group.as_str());
                    let ghost view: QuestionView = q@;
                    self.add(q, group);
                    proof {
                        lemma_stays_varied(before, view, group@);
                    }
                    true
                } else {
                    false
                }
            },
        }
    }

    /// Takes the question that was found instead for the current category, or
    /// goes without one.
    pub fn filled(&mut self, question: Option<FetchedQuestion>)
        requires
            old(self)@.valid(),
            old(self)@.index < old(self)@.choices.len(),
        ensures
            question is Some ==> final(self)@ == old(self)@.with(
                question->0@,
                group_key(question->0@),
            ),
            question is None ==> final(self)@ == old(self)@.without(),
            final(self)@.valid(),
            old(self)@.varied() && (question is Some ==> can_follow(
                last_group(old(self)@.questions),
                question->0@.category,
                old(self)@.active_group_count,
            )) ==> final(self)@.varied(),
            old(self)@.avoids_last() ==> final(self)@.avoids_last(),
            old(self)@.askable() && (question is Some ==> valid_question(question->0@))
                ==> final(self)@.askable(),
    {
        let ghost before: GatheringView = self@;
        assert(self@.choices.len() == self.choices.len());
        match question {
            None => {
                self.index = self.index + 1;
            },
            Some(q) => {
                let group = question_group(&q);
                let ghost view: QuestionView = q@;
                self.add(q, group);
                proof {
                    lemma_stays_varied(before, view, group@);
                }
            },
        }
    }
}

proof fn lemma_stays_varied(before: GatheringView, q: QuestionView, group: Seq<char>)
    ensures
        before.varied() && can_follow(
            last_group(before.questions),
            q.category,
            before.active_group_count,
        ) ==> before.with(q, group).varied(),
{
    let after: GatheringView = before.with(q, group);
    if before.varied() && can_follow(
        last_group(before.questions),
        q.category,
        before.active_group_count,
    ) {
        assert forall|i: int| 0 < i < after.questions.len() implies can_follow(
            Some(group_key(after.questions[i - 1])),
            #[trigger] after.questions[i].category,
            after.active_group_count,
        ) by {
            if i < before.questions.len() {
                assert(after.questions[i] == before.questions[i]);
                assert(can_follow(
                    Some(group_key(before.questions[i - 1])),
                    before.questions[i].category,
                    before.active_group_count,
                ));
            }
        }
    }
}

/// Where several groups are active, no two questions in a row of a varied
/// round are of one group.
pub proof fn law_varied_rounds_have_no_adjacent_repeat(g: GatheringView, i: int)
    requires
        g.varied(),
        g.active_group_count > 1,
        0 < i < g.questions.len(),
    ensures
        group_key(g.questions[i - 1]) != group_key(g.questions[i]),
{
    assert(can_follow(
        Some(group_key(g.questions[i - 1])),
        g.questions[i].category,
        g.active_group_count,
    ));
}

// ── A locked category ────────────────────────────────────────────────────────

/// What is gathered for a round of which the category is configured.
pub struct LockedGathering {
    /// How many questions are wanted.
    pub wanted: usize,
    /// The questions that were found.
    pub questions: Vec<FetchedQuestion>,
    /// Whether a question could not be had.
    pub failed: bool,
}

/// What a `LockedGathering` stands for.
#[verifier::ext_equal]
pub struct LockedGatheringView {
    pub wanted: nat,
    pub questions: Seq<QuestionView>,
    pub failed: bool,
}

impl View for LockedGathering {
    type V = LockedGatheringView;

    open spec fn view(&self) -> LockedGatheringView {
        LockedGatheringView {
            wanted: self.wanted as nat,
            questions: question_views(self.questions@),
            failed: self.failed,
        }
    }
}

impl LockedGatheringView {
    /// No more questions than wanted.
    pub open spec fn valid(self) -> bool {
        self.questions.len() <= self.wanted
    }

    /// Whether another question is needed: none failed yet, and some are
    /// missing.
    pub open spec fn goes_on(self) -> bool {
        !self.failed && self.questions.len() < self.wanted
    }

    /// With the next question, or ended by its failure.
    pub open spec fn after(self, next: Option<QuestionView>) -> LockedGatheringView {
        match next {
            Some(q) => LockedGatheringView { questions: self.questions.push(q), ..self },
            None => LockedGatheringView { failed: true, ..self },
        }
    }
}

impl LockedGathering {
    /// Nothing gathered yet of `wanted` questions.
    pub fn start(wanted: usize) -> (r: LockedGathering)
        ensures
            r@ == (LockedGatheringView {
                wanted: wanted as nat,
                questions: Seq::empty(),
                failed: false,
            }),
            r@.valid(),
    {
        let r = LockedGathering { wanted, questions: Vec::new(), failed: false };
        assert(r@.questions =~= Seq::empty());
        r
    }

    /// Whether to take another question, then go on with `took`.
    pub fn wants_more(&self) -> (r: bool)
        ensures
            r == self@.goes_on(),
    {
        assert(self@.questions.len() == self.questions.len());
        !self.failed && self.questions.len() < self.wanted
    }

    /// Goes on after a question was taken, or could not be had.
    pub fn took(&mut self, question: Option<FetchedQuestion>)
        requires
            old(self)@.goes_on(),
        ensures
            final(self)@ == old(self)@.after(opt_question(question)),
            final(self)@.valid(),
            all_askable(old(self)@.questions) && (question is Some ==> valid_question(question->0@))
                ==> all_askable(final(self)@.questions),
    {
        let ghost before: Seq<FetchedQuestion> = self.questions@;
        assert(question_views(before).len() == before.len());
        match question {
            Some(q) => {
                let ghost view: QuestionView = q@;
                self.questions.push(q);
                assert(question_views(self.questions@) =~= question_views(before).push(view));
            },
            None => {
                self.failed = true;
            },
        }
    }
}

/// What is gathered from the answers of the search for a question, one after
/// the other.
pub open spec fn locked_run(
    s: LockedGatheringView,
    answers: Seq<Option<QuestionView>>,
) -> LockedGatheringView
    decreases answers.len(),
{
    if answers.len() == 0 || !s.goes_on() {
        s
    } else {
        locked_run(s.after(answers[0]), answers.skip(1))
    }
}

/// Gathering for a locked category takes the answers in order, up to the first
/// failure and no more than are wanted.
pub proof fn law_locked_rounds_take_answers_in_order(
    s: LockedGatheringView,
    answers: Seq<Option<QuestionView>>,
    n: int,
)
    requires
        s.valid(),
        !s.failed,
        0 <= n <= answers.len(),
        forall|i: int| 0 <= i < n ==> (#[trigger] answers[i]) is Some,
        n < answers.len() ==> answers[n] is None,
    ensures
        ({
            let missing: int = s.wanted - s.questions.len();
            let taken: int = if n <= missing {
                n
            } else {
                missing
            };
            let end: LockedGatheringView = locked_run(s, answers);
            &&& end.questions == s.questions + answers.take(taken).map_values(
                |a: Option<QuestionView>| a->0,
            )
            &&& end.failed == (n < missing && n < answers.len())
        }),
    decreases answers.len(),
{
    let f = |a: Option<QuestionView>| a->0;
    let missing: int = s.wanted - s.questions.len();
    if answers.len() == 0 || missing == 0 {
        assert(answers.take(0).map_values(f) =~= Seq::<QuestionView>::empty());
        assert(s.questions + Seq::<QuestionView>::empty() =~= s.questions);
    } else if n == 0 {
        let end: LockedGatheringView = s.after(answers[0]);
        assert(locked_run(end, answers.skip(1)) == end);
        assert(answers.take(0).map_values(f) =~= Seq::<QuestionView>::empty());
        assert(s.questions + Seq::<QuestionView>::empty() =~= s.questions);
    } else {
        let rest: Seq<Option<QuestionView>> = answers.skip(1);
        assert(answers[0] is Some);
        assert forall|i: int| 0 <= i < n - 1 implies (#[trigger] rest[i]) is Some by {
            assert(rest[i] == answers[i + 1]);
        }
        law_locked_rounds_take_answers_in_order(s.after(answers[0]), rest, n - 1);
        let taken: int = if n <= missing {
            n
        } else {
            missing
        };
        assert(s.questions.push(answers[0]->0) + rest.take(taken - 1).map_values(f)
            =~= s.questions + answers.take(taken).map_values(f));
    }
}

/// A question that is taken stands behind those that were, its group is avoided
/// from then on, and the next category is up; without one only the category
/// changes.
pub proof fn law_taken_questions_are_kept_in_order(
    g: GatheringView,
    q: QuestionView,
    group: Seq<char>,
)
    ensures
        g.with(q, group).questions == g.questions + seq![q],
        g.with(q, group).avoid == g.avoid.insert(group),
        g.with(q, group).index == g.index + 1 && g.without().index == g.index + 1,
        g.with(q, group).choices == g.choices && g.without().choices == g.choices,
        g.with(q, group).active_group_count == g.active_group_count,
        g.without().questions == g.questions,
        g.without().avoid == g.avoid,
        g.without().active_group_count == g.active_group_count,
{
    assert(g.with(q, group).questions =~= g.questions + seq![q]);
}

} // verus!
