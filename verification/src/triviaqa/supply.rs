//! Serving prepared questions, and keeping them in stock.

use vstd::prelude::*;

use crate::config::QuestionSource;
use crate::fetcher::categories::{
    active_groups, active_table, category_group_for_id, find_id, group_of, group_table, group_views,
    normalise, normalised,
};
use crate::fetcher::matching::{law_groups_hold_their_categories, opentdb_name};
use crate::state::{FetchedQuestion, QuestionView};
use crate::text::{clone_texts, opt_str, same, texts};
use crate::triviaqa::classify::{BatchOutcome, TriviaQaRow};
use crate::triviaqa::cleanup::{clean_question, display_answer, shown_answer, shown_question};

verus! {

/// How many prepared questions are kept in stock.
pub const READY_TARGET: i64 = 300;

/// How many candidates are looked at for a question.
pub const READY_CANDIDATES: usize = 20;

// ── Whether TriviaQA is asked ────────────────────────────────────────────────

/// Whether a question is to come from TriviaQA: there is a key for the model,
/// and the source allows it. Where both sources are used, `roll` decides.
pub fn should_offer(has_key: bool, source: QuestionSource, roll: bool) -> (r: bool)
    ensures
        r == (has_key && match source {
            QuestionSource::Opentdb => false,
            QuestionSource::Triviaqa => true,
            QuestionSource::Mixed => roll,
        }),
{
    has_key && match source {
        QuestionSource::Opentdb => false,
        QuestionSource::Triviaqa => true,
        QuestionSource::Mixed => roll,
    }
}

/// The texts of a list of string slices.
pub open spec fn str_texts(v: Seq<&'static str>) -> Seq<Seq<char>> {
    v.map_values(|s: &'static str| s@)
}

/// The groups that a question may be of: that of the configured category, or
/// all active ones. There are none where the configured category has no group.
pub open spec fn allowed_groups(category: Option<u32>, excluded: Seq<Seq<char>>) -> Option<
    Seq<Seq<char>>,
> {
    match category {
        Some(id) => match find_id(group_table(), id) {
            Some(group) => Some(seq![group]),
            None => None,
        },
        None => Some(active_table(excluded).map_values(|g: (Seq<char>, Seq<u32>)| g.0)),
    }
}

/// The groups that a question may be of, see `allowed_groups`.
pub fn allowed_category_groups(category: Option<u32>, excluded: &[String]) -> (r: Option<
    Vec<&'static str>,
>)
    ensures
        ({
            let allowed: Option<Seq<Seq<char>>> = allowed_groups(category, texts(excluded@));
            &&& allowed is Some ==> r is Some && str_texts(r->0@) == allowed->0
            &&& allowed is None ==> r is None
        }),
{
    match category {
        Some(id) => match category_group_for_id(id) {
            Some(group) => {
                let mut out: Vec<&'static str> = Vec::new();
                out.push(group);
                assert(str_texts(out@) =~= seq![group@]);
                Some(out)
            },
            None => None,
        },
        None => {
            let groups = active_groups(excluded);
            let ghost table: Seq<(Seq<char>, Seq<u32>)> = group_views(groups@);
            let mut out: Vec<&'static str> = Vec::new();
            let mut i: usize = 0;
            while i < groups.len()
                invariant
                    i <= groups.len(),
                    table == group_views(groups@),
                    out.len() == i,
                    forall|k: int| 0 <= k < i ==> (#[trigger] out@[k])@ == table[k].0,
                decreases groups.len() - i,
            {
                assert(table[i as int].0 == groups@[i as int].name@);
                out.push(groups[i].name);
                i = i + 1;
            }
            assert(str_texts(out@) =~= table.map_values(|g: (Seq<char>, Seq<u32>)| g.0));
            Some(out)
        },
    }
}

/// The groups in which a question is looked for: the allowed ones, or of those
/// the one that is wanted.
pub open spec fn groups_for(allowed: Seq<Seq<char>>, wanted: Option<Seq<char>>) -> Seq<Seq<char>> {
    match wanted {
        Some(w) => allowed.filter(|g: Seq<char>| normalised(g) == normalised(w)),
        None => allowed,
    }
}

fn wanted_groups(allowed: Vec<&'static str>, wanted: Option<&str>) -> (r: Vec<&'static str>)
    ensures
        str_texts(r@) == groups_for(str_texts(allowed@), opt_str(wanted)),
{
    match wanted {
        None => allowed,
        Some(w) => {
            let ghost all: Seq<Seq<char>> = str_texts(allowed@);
            let ghost text: Seq<char> = w@;
            let ghost keep = |g: Seq<char>| normalised(g) == normalised(text);
            let key = normalise(w);
            let mut out: Vec<&'static str> = Vec::new();
            let mut i: usize = 0;
            assert(all.take(0).filter(keep) =~= Seq::<Seq<char>>::empty()) by {
                reveal(Seq::filter);
            }
            while i < allowed.len()
                invariant
                    i <= allowed.len(),
                    all == str_texts(allowed@),
                    key@ == normalised(text),
                    keep == (|g: Seq<char>| normalised(g) == normalised(text)),
                    str_texts(out@) == all.take(i as int).filter(keep),
                decreases allowed.len() - i,
            {
                proof {
                    assert(all.take(i + 1).drop_last() =~= all.take(i as int));
                    assert(all.take(i + 1).last() == allowed@[i as int]@);
                    reveal(Seq::filter);
                }
                if same(normalise(allowed[i]).as_str(), key.as_str()) {
                    let ghost before: Seq<&'static str> = out@;
                    out.push(allowed[i]);
                    assert(str_texts(out@) =~= str_texts(before).push(allowed@[i as int]@));
                }
                i = i + 1;
            }
            assert(all.take(allowed.len() as int) =~= all);
            out
        },
    }
}

// ── A question for a round ───────────────────────────────────────────────────

/// A row as a question, where all of it was prepared.
pub open spec fn question_of(row: TriviaQaRow) -> Option<QuestionView> {
    if row.category_group is Some && row.difficulty is Some && row.distractors is Some
        && row.distractors->0.len() == 3 {
        Some(
            QuestionView {
                category: row.category_group->0@,
                difficulty: row.difficulty->0@,
                question: shown_question(row.question_text@),
                correct_answer: shown_answer(row.correct_answer@),
                incorrect_answers: texts(row.distractors->0@),
            },
        )
    } else {
        None
    }
}

/// Makes a question of a row, see `question_of`.
pub fn to_question(row: &TriviaQaRow) -> (r: Option<FetchedQuestion>)
    ensures
        question_of(*row) is Some ==> r is Some && r->0@ == question_of(*row)->0,
        question_of(*row) is None ==> r is None,
{
    match (&row.category_group, &row.difficulty, &row.distractors) {
        (Some(category), Some(difficulty), Some(distractors)) => {
            if distractors.len() != 3 {
                return None;
            }
            Some(
                FetchedQuestion {
                    category: category.clone(),
                    difficulty: difficulty.clone(),
                    question: clean_question(row.question_text.as_str()),
                    correct_answer: display_answer(row.correct_answer.as_str()),
                    incorrect_answers: clone_texts(distractors),
                },
            )
        },
        _ => None,
    }
}

/// What becomes of a candidate: the question, unless it was picked for the
/// round already or asked recently, or is not complete.
pub fn offer_candidate(row: &TriviaQaRow, picked: bool, recently_asked: bool) -> (r: Option<
    FetchedQuestion,
>)
    ensures
        !picked && !recently_asked && question_of(*row) is Some ==> r is Some && r->0@
            == question_of(*row)->0,
        picked || recently_asked || question_of(*row) is None ==> r is None,
{
    if picked || recently_asked {
        None
    } else {
        to_question(row)
    }
}

/// Why TriviaQA has no question.
pub enum SupplyError {
    /// The configured category has no group.
    NoGroup,
    /// The wanted group is not active.
    NotActive,
    /// Nothing is in stock.
    OutOfStock,
}

/// What looking for a question does next.
pub enum SupplyStep {
    /// Look for candidates in the groups, then go on with `nothing_found`
    /// unless one was taken.
    Look,
    /// Have a batch prepared, then go on with `prepared`.
    Prepare,
    /// There is no question.
    Fail { error: SupplyError },
}

/// Looking for a question.
pub struct Supply {
    /// The groups in which it is looked for.
    pub groups: Vec<&'static str>,
    /// Whether a certain group is wanted.
    pub wanted: bool,
    /// Whether a batch was prepared.
    pub prepared: bool,
}

impl Supply {
    /// Begins to look. `wanted_group` is the group that the round has planned.
    pub fn start(category: Option<u32>, excluded: &[String], wanted_group: Option<&str>) -> (r: (
        Supply,
        SupplyStep,
    ))
        ensures
            ({
                let allowed: Option<Seq<Seq<char>>> = allowed_groups(category, texts(excluded@));
                if allowed is None {
                    r.1 == (SupplyStep::Fail { error: SupplyError::NoGroup })
                } else {
                    &&& str_texts(r.0.groups@) == groups_for(allowed->0, opt_str(wanted_group))
                    &&& r.0.groups.len() == 0 ==> r.1 == (SupplyStep::Fail {
                        error: SupplyError::NotActive,
                    })
                    &&& r.0.groups.len() > 0 ==> r.1 is Look
                }
            }),
            r.0.wanted == (wanted_group is Some),
            !r.0.prepared,
    {
        match allowed_category_groups(category, excluded) {
            None => (
                Supply { groups: Vec::new(), wanted: wanted_group.is_some(), prepared: false },
                SupplyStep::Fail { error: SupplyError::NoGroup },
            ),
            Some(allowed) => {
                let groups = wanted_groups(allowed, wanted_group);
                let step = if groups.len() == 0 {
                    SupplyStep::Fail { error: SupplyError::NotActive }
                } else {
                    SupplyStep::Look
                };
                (Supply { groups, wanted: wanted_group.is_some(), prepared: false }, step)
            },
        }
    }

    /// Goes on where no candidate could be taken. Only a round that wants no
    /// certain group waits for a batch, and only once.
    pub fn nothing_found(&self) -> (r: SupplyStep)
        ensures
            !self.prepared && !self.wanted ==> r is Prepare,
            self.prepared || self.wanted ==> r == (SupplyStep::Fail {
                error: SupplyError::OutOfStock,
            }),
    {
        if !self.prepared && !self.wanted {
            SupplyStep::Prepare
        } else {
            SupplyStep::Fail { error: SupplyError::OutOfStock }
        }
    }

    /// Goes on after a batch was prepared, or where the model could not be
    /// asked.
    pub fn batch_done(&mut self, outcome: Option<BatchOutcome>) -> (r: SupplyStep)
        ensures
            final(self).groups == old(self).groups,
            final(self).wanted == old(self).wanted,
            final(self).prepared,
            outcome is Some ==> r is Look,
            outcome is None ==> r == (SupplyStep::Fail { error: SupplyError::OutOfStock }),
    {
        self.prepared = true;
        match outcome {
            Some(_) => SupplyStep::Look,
            None => SupplyStep::Fail { error: SupplyError::OutOfStock },
        }
    }
}

/// A question that is looked for in a certain group is of that group.
pub proof fn law_wanted_group_is_kept(allowed: Seq<Seq<char>>, wanted: Seq<char>, i: int)
    requires
        0 <= i < groups_for(allowed, Some(wanted)).len(),
    ensures
        normalised(groups_for(allowed, Some(wanted))[i]) == normalised(wanted),
        allowed.contains(groups_for(allowed, Some(wanted))[i]),
{
    let keep = |g: Seq<char>| normalised(g) == normalised(wanted);
    allowed.lemma_filter_pred(keep, i);
    assert(allowed.filter(keep).contains(allowed.filter(keep)[i]));
    allowed.lemma_filter_contains_rev(keep, allowed.filter(keep)[i]);
}

// ── Stock ────────────────────────────────────────────────────────────────────

/// What is in the pool: all questions, and those that are ready.
#[derive(Clone, Copy)]
pub struct PoolStats {
    pub total: i64,
    pub ready: i64,
}

/// Whether anything is kept in stock at all: TriviaQA is used, and there is a
/// key for the model.
pub fn keeps_stock(source: QuestionSource, has_key: bool) -> (r: bool)
    ensures
        r == (source !is Opentdb && has_key),
{
    match source {
        QuestionSource::Opentdb => false,
        _ => has_key,
    }
}

/// Whether a batch is to be prepared: there are questions, and too few of them
/// are ready.
pub fn needs_batch(stats: PoolStats) -> (r: bool)
    ensures
        r == (stats.total != 0 && stats.ready < READY_TARGET),
        r ==> stats.ready < 300,
        stats.total != 0 && !r ==> stats.ready >= 300,
{
    !(stats.total == 0 || stats.ready >= READY_TARGET)
}

/// Whether a batch had any questions, so that another is worth a try.
pub fn batch_had_questions(outcome: BatchOutcome) -> (r: bool)
    ensures
        r == (outcome.ready + outcome.rejected + outcome.failed > 0),
{
    outcome.ready > 0 || outcome.rejected > 0 || outcome.failed > 0
}

/// Seconds until the stock is looked after again: soon where a batch was
/// prepared, later where there was nothing to do.
pub fn stock_wait(step: Option<bool>) -> (r: u64)
    ensures
        r == (if step == Some(true) {
            30
        } else {
            600int
        }),
{
    match step {
        Some(true) => 30,
        _ => 600,
    }
}

/// A prepared question to look at, with its number.
pub fn preview_of(rows: &Vec<TriviaQaRow>) -> (r: Option<(i64, FetchedQuestion)>)
    ensures
        rows.len() > 0 && question_of(rows@[0]) is Some ==> r is Some && (r->0).0 == rows@[0].id
            && (r->0).1@ == question_of(rows@[0])->0,
        rows.len() == 0 || question_of(rows@[0]) is None ==> r is None,
{
    if rows.len() == 0 {
        return None;
    }
    match to_question(&rows[0]) {
        Some(q) => Some((rows[0].id, q)),
        None => None,
    }
}

// ── Laws ─────────────────────────────────────────────────────────────────────

/// A row that was prepared becomes a question of the group and the difficulty
/// that were found for it, with the question and the answer as they are shown and
/// the three wrong answers; a row that was not becomes none.
pub proof fn law_prepared_rows_become_questions(row: TriviaQaRow)
    ensures
        row.category_group is None || row.difficulty is None || row.distractors is None
            || row.distractors->0.len() != 3 ==> question_of(row) is None,
        row.category_group is Some && row.difficulty is Some && row.distractors is Some
            && row.distractors->0.len() == 3 ==> {
            let q: QuestionView = question_of(row)->0;
            &&& question_of(row) is Some
            &&& q.category == row.category_group->0@
            &&& q.difficulty == row.difficulty->0@
            &&& q.question == shown_question(row.question_text@)
            &&& q.correct_answer == shown_answer(row.correct_answer@)
            &&& q.incorrect_answers == texts(row.distractors->0@)
        },
{
}

/// With a configured category only its group is allowed, if it has one;
/// otherwise all active groups are, and no other.
pub proof fn law_allowed_groups(id: u32, excluded: Seq<Seq<char>>, group: Seq<char>)
    ensures
        opentdb_name(id) is Some ==> allowed_groups(Some(id), excluded) == Some(
            seq![group_of(opentdb_name(id)->0)->0],
        ),
        opentdb_name(id) is None ==> allowed_groups(Some(id), excluded) is None,
        allowed_groups(None, excluded) is Some,
        allowed_groups(None, excluded)->0.contains(group) <==> exists|i: int|
            0 <= i < active_table(excluded).len() && (#[trigger] active_table(excluded)[i]).0
                == group,
{
    law_groups_hold_their_categories(id);
    let names: Seq<Seq<char>> = allowed_groups(None, excluded)->0;
    let active: Seq<(Seq<char>, Seq<u32>)> = active_table(excluded);
    if names.contains(group) {
        let i: int = names.index_of(group);
        assert(active[i].0 == group);
    }
    if exists|i: int| 0 <= i < active.len() && (#[trigger] active[i]).0 == group {
        let i: int = choose|i: int| 0 <= i < active.len() && (#[trigger] active[i]).0 == group;
        assert(names[i] == group);
    }
}

/// A question is looked for in every allowed group where none is wanted, and in
/// every allowed group that the wanted one names otherwise.
pub proof fn law_every_allowed_group_is_looked_in(
    allowed: Seq<Seq<char>>,
    wanted: Seq<char>,
    i: int,
)
    requires
        0 <= i < allowed.len(),
    ensures
        groups_for(allowed, None) == allowed,
        normalised(allowed[i]) == normalised(wanted) ==> groups_for(
            allowed,
            Some(wanted),
        ).contains(allowed[i]),
{
    if normalised(allowed[i]) == normalised(wanted) {
        allowed.lemma_filter_contains(|g: Seq<char>| normalised(g) == normalised(wanted), i);
    }
}

} // verus!
