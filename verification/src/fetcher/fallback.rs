//! Finding another question where the category that was asked for gave none.

use vstd::prelude::*;

use crate::chance::{random_item, shuffled};
use crate::fetcher::categories::{
    active_groups, active_table, category_group_for_category, group_label, group_of, group_views,
    lemma_active_ids, normalise, normalised, CategoryGroup,
};
use crate::fetcher::questions::{can_follow, category_can_follow};
use crate::order::lemma_mapped_multiset;
use crate::state::FetchedQuestion;
use crate::text::{clone_texts, contains_text, opt_str, same, texts};

verus! {

/// How many other categories are asked for.
pub const MAX_ALTERNATIVES: usize = 2;

/// Whether a question that was fetched for `group` may be asked after one of
/// the group `previous`: it is of that group, and may follow.
pub open spec fn is_accepted(
    category: Seq<char>,
    group: Seq<char>,
    previous: Option<Seq<char>>,
    group_count: nat,
) -> bool {
    &&& group_of(category) is Some
    &&& normalised(group_of(category)->0) == normalised(group)
    &&& can_follow(previous, category, group_count)
}

/// Whether a question that was fetched for `group` may be asked, see
/// `is_accepted`.
pub fn accepts(
    category: &str,
    group: &str,
    previous: Option<&str>,
    group_count: usize,
) -> (r: bool)
    ensures
        r == is_accepted(category@, group@, opt_str(previous), group_count as nat),
{
    match category_group_for_category(category) {
        None => false,
        Some(g) => same(normalise(g).as_str(), normalise(group).as_str()) && category_can_follow(
            previous,
            category,
            group_count,
        ),
    }
}

/// The active groups but `previous`.
pub open spec fn other_groups(
    excluded: Seq<Seq<char>>,
    previous: Option<Seq<char>>,
) -> Seq<(Seq<char>, Seq<u32>)> {
    active_table(excluded).filter(
        |g: (Seq<char>, Seq<u32>)| previous != Some(normalised(g.0)),
    )
}

fn not_previous(excluded: &[String], previous: Option<&str>) -> (r: Vec<CategoryGroup>)
    ensures
        group_views(r@) == other_groups(texts(excluded@), opt_str(previous)),
{
    let groups = active_groups(excluded);
    let ghost table: Seq<(Seq<char>, Seq<u32>)> = group_views(groups@);
    let ghost prev: Option<Seq<char>> = opt_str(previous);
    let ghost keep = |g: (Seq<char>, Seq<u32>)| prev != Some(normalised(g.0));
    let mut kept: Vec<CategoryGroup> = Vec::new();
    let mut i: usize = 0;
    assert(table.take(0).filter(keep) == Seq::<(Seq<char>, Seq<u32>)>::empty()) by {
        reveal(Seq::filter);
    }
    while i < groups.len()
        invariant
            i <= groups.len(),
            table == group_views(groups@),
            prev == opt_str(previous),
            keep == (|g: (Seq<char>, Seq<u32>)| prev != Some(normalised(g.0))),
            group_views(kept@) == table.take(i as int).filter(keep),
        decreases groups.len() - i,
    {
        let ghost g: (Seq<char>, Seq<u32>) = groups@[i as int]@;
        proof {
            assert(table.take(i + 1).drop_last() =~= table.take(i as int));
            assert(table.take(i + 1).last() == g);
            reveal(Seq::filter);
        }
        let is_previous: bool = match previous {
            Some(p) => same(p, normalise(groups[i].name).as_str()),
            None => false,
        };
        if !is_previous {
            let ghost before: Seq<CategoryGroup> = kept@;
            kept.push(groups[i].copy());
            assert(group_views(kept@) =~= group_views(before).push(g));
        }
        i = i + 1;
    }
    assert(table.take(groups.len() as int) =~= table);
    kept
}

/// The groups whose name is, or is not, in `avoid`.
pub open spec fn avoided(
    groups: Seq<(Seq<char>, Seq<u32>)>,
    avoid: Seq<Seq<char>>,
    want: bool,
) -> Seq<(Seq<char>, Seq<u32>)> {
    groups.filter(|g: (Seq<char>, Seq<u32>)| avoid.contains(normalised(g.0)) == want)
}

fn pick_avoided(groups: &Vec<CategoryGroup>, avoid: &Vec<String>, want: bool) -> (r: Vec<
    CategoryGroup,
>)
    ensures
        group_views(r@) == avoided(group_views(groups@), texts(avoid@), want),
{
    let ghost table: Seq<(Seq<char>, Seq<u32>)> = group_views(groups@);
    let ghost names: Seq<Seq<char>> = texts(avoid@);
    let ghost keep = |g: (Seq<char>, Seq<u32>)| names.contains(normalised(g.0)) == want;
    let mut kept: Vec<CategoryGroup> = Vec::new();
    let mut i: usize = 0;
    assert(table.take(0).filter(keep) == Seq::<(Seq<char>, Seq<u32>)>::empty()) by {
        reveal(Seq::filter);
    }
    while i < groups.len()
        invariant
            i <= groups.len(),
            table == group_views(groups@),
            names == texts(avoid@),
            keep == (|g: (Seq<char>, Seq<u32>)| names.contains(normalised(g.0)) == want),
            group_views(kept@) == table.take(i as int).filter(keep),
        decreases groups.len() - i,
    {
        let ghost g: (Seq<char>, Seq<u32>) = groups@[i as int]@;
        proof {
            assert(table.take(i + 1).drop_last() =~= table.take(i as int));
            assert(table.take(i + 1).last() == g);
            reveal(Seq::filter);
        }
        if contains_text(avoid, normalise(groups[i].name).as_str()) == want {
            let ghost before: Seq<CategoryGroup> = kept@;
            kept.push(groups[i].copy());
            assert(group_views(kept@) =~= group_views(before).push(g));
        }
        i = i + 1;
    }
    assert(table.take(groups.len() as int) =~= table);
    kept
}

/// Puts groups that are avoided behind the others; otherwise the order stays.
pub fn avoided_last(groups: &Vec<CategoryGroup>, avoid: &Vec<String>) -> (r: Vec<CategoryGroup>)
    ensures
        group_views(r@) == avoided(group_views(groups@), texts(avoid@), false) + avoided(
            group_views(groups@),
            texts(avoid@),
            true,
        ),
{
    let mut out = pick_avoided(groups, avoid, false);
    let mut last = pick_avoided(groups, avoid, true);
    let ghost a: Seq<CategoryGroup> = out@;
    let ghost b: Seq<CategoryGroup> = last@;
    out.append(&mut last);
    assert(group_views(out@) =~= group_views(a) + group_views(b));
    out
}

/// Whether `r` are the groups to ask for instead: the active groups but
/// `previous`, those to avoid last, otherwise in any order.
pub open spec fn are_alternatives(
    r: Seq<(Seq<char>, Seq<u32>)>,
    excluded: Seq<Seq<char>>,
    previous: Option<Seq<char>>,
    avoid: Seq<Seq<char>>,
) -> bool {
    exists|order: Seq<(Seq<char>, Seq<u32>)>|
        {
            &&& #[trigger] order.to_multiset() == other_groups(excluded, previous).to_multiset()
            &&& r == avoided(order, avoid, false) + avoided(order, avoid, true)
        }
}

/// The groups to ask for instead, see `are_alternatives`.
pub fn alternatives(excluded: &[String], previous: Option<&str>, avoid: &Vec<String>) -> (r: Vec<
    CategoryGroup,
>)
    ensures
        are_alternatives(
            group_views(r@),
            texts(excluded@),
            opt_str(previous),
            texts(avoid@),
        ),
        r.len() == other_groups(texts(excluded@), opt_str(previous)).len(),
        forall|i: int| 0 <= i < r.len() ==> (#[trigger] r@[i]).ids.len() > 0,
{
    let groups = not_previous(excluded, previous);
    let ghost before: Seq<CategoryGroup> = groups@;
    let mixed = shuffled(groups);
    let r = avoided_last(&mixed, avoid);
    proof {
        lemma_view_multiset(before, mixed@);
        let order: Seq<(Seq<char>, Seq<u32>)> = group_views(mixed@);
        let names: Seq<Seq<char>> = texts(avoid@);
        assert(order.to_multiset() == other_groups(
            texts(excluded@),
            opt_str(previous),
        ).to_multiset());
        lemma_avoided_len(order, names);
        order.to_multiset_ensures();
        group_views(before).to_multiset_ensures();
        assert(group_views(r@).len() == r.len());
        assert forall|i: int| 0 <= i < r.len() implies (#[trigger] r@[i]).ids.len() > 0 by {
            let g: (Seq<char>, Seq<u32>) = group_views(r@)[i];
            let first: Seq<(Seq<char>, Seq<u32>)> = avoided(order, names, false);
            let second: Seq<(Seq<char>, Seq<u32>)> = avoided(order, names, true);
            assert(group_views(r@) == first + second);
            assert(group_views(r@).len() == r.len());
            assert(order.contains(g)) by {
                if i < first.len() {
                    assert(first[i] == g);
                    assert(first.contains(g));
                    order.lemma_filter_contains_rev(
                        |x: (Seq<char>, Seq<u32>)| names.contains(normalised(x.0)) == false,
                        g,
                    );
                } else {
                    assert(second[i - first.len()] == g);
                    assert(second.contains(g));
                    order.lemma_filter_contains_rev(
                        |x: (Seq<char>, Seq<u32>)| names.contains(normalised(x.0)) == true,
                        g,
                    );
                }
            }
            assert(order.to_multiset().count(g) > 0);
            let others: Seq<(Seq<char>, Seq<u32>)> = other_groups(
                texts(excluded@),
                opt_str(previous),
            );
            assert(others.contains(g));
            let prev: Option<Seq<char>> = opt_str(previous);
            active_table(texts(excluded@)).lemma_filter_contains_rev(
                |x: (Seq<char>, Seq<u32>)| prev != Some(normalised(x.0)),
                g,
            );
            let j: int = choose|j: int|
                0 <= j < active_table(texts(excluded@)).len() && active_table(texts(excluded@))[j]
                    == g;
            lemma_active_ids(texts(excluded@), j);
            assert(r@[i]@ == g);
        }
    }
    r
}

/// A list in another order stands for the same things in another order.
proof fn lemma_view_multiset(a: Seq<CategoryGroup>, b: Seq<CategoryGroup>)
    requires
        a.to_multiset() == b.to_multiset(),
    ensures
        group_views(a).to_multiset() == group_views(b).to_multiset(),
{
    lemma_mapped_multiset(a, b, |g: CategoryGroup| g@);
}

proof fn lemma_avoided_len(order: Seq<(Seq<char>, Seq<u32>)>, avoid: Seq<Seq<char>>)
    ensures
        avoided(order, avoid, false).len() + avoided(order, avoid, true).len() == order.len(),
    decreases order.len(),
{
    reveal(Seq::filter);
    if order.len() > 0 {
        lemma_avoided_len(order.drop_last(), avoid);
    }
}

// ── The search ───────────────────────────────────────────────────────────────

/// Where the search for another question stands.
pub enum FallbackStage {
    /// Looking through the cache for a group that is not avoided.
    Preferred,
    /// Looking through the cache for a group that is not the previous one.
    Strict,
    /// Asking for other categories; so many were tried.
    Alternatives { tried: usize },
}

/// The search for another question.
pub struct Fallback {
    pub stage: FallbackStage,
    /// Matched names of the groups to avoid.
    pub avoid: Vec<String>,
    /// Matched name of the group asked last.
    pub previous: Option<String>,
    /// The groups to ask for, once the cache has been looked through.
    pub groups: Vec<CategoryGroup>,
}

/// What the search does next.
pub enum FallbackStep {
    /// Fill the cache, then go on with `filled`.
    Prefetch,
    /// Look through the cache, leaving out groups, then go on with `scanned`.
    Scan { avoid: Vec<String> },
    /// Ask for a question of a category, then go on with `fetched`.
    Fetch { category_id: u32 },
    /// The question is there.
    Found { question: FetchedQuestion },
    /// Give up rather than ask two questions of a group in a row.
    Refuse,
    /// There is one group only: take the next question as it comes.
    TakeNext,
}

impl Fallback {
    /// Whether so many groups were tried that there may be.
    pub open spec fn valid(self) -> bool {
        &&& self.stage is Alternatives ==> self.stage->tried <= MAX_ALTERNATIVES
        &&& forall|i: int| 0 <= i < self.groups.len() ==> (#[trigger] self.groups@[i]).ids.len() > 0
    }

    /// The group asked last.
    pub open spec fn last(self) -> Option<Seq<char>> {
        match self.previous {
            Some(p) => Some(p@),
            None => None,
        }
    }

    /// Whether `step` asks for the group at `tried`, or ends the search where
    /// no group is left.
    pub open spec fn tries(self, step: FallbackStep, tried: int) -> bool {
        if tried < MAX_ALTERNATIVES && tried < self.groups.len() {
            step is Fetch && self.groups@[tried].ids@.contains(step->category_id)
        } else if self.groups.len() > 0 {
            step is Refuse
        } else {
            step is TakeNext
        }
    }

    /// Begins the search.
    pub fn start(cache_is_empty: bool, avoid: &Vec<String>, previous: Option<&str>) -> (r: (
        Fallback,
        FallbackStep,
    ))
        ensures
            r.0.valid(),
            r.0.stage is Preferred,
            texts(r.0.avoid@) == texts(avoid@),
            r.0.last() == opt_str(previous),
            cache_is_empty ==> r.1 is Prefetch,
            !cache_is_empty ==> r.1 is Scan && texts(r.1->avoid@) == texts(avoid@),
    {
        let search = Fallback {
            stage: FallbackStage::Preferred,
            avoid: clone_texts(avoid),
            previous: match previous {
                Some(p) => Some(p.to_owned()),
                None => None,
            },
            groups: Vec::new(),
        };
        if cache_is_empty {
            (search, FallbackStep::Prefetch)
        } else {
            (search, FallbackStep::Scan { avoid: clone_texts(avoid) })
        }
    }

    /// Goes on after the cache was filled.
    pub fn filled(&self) -> (r: FallbackStep)
        ensures
            r is Scan,
            texts(r->avoid@) == texts(self.avoid@),
    {
        FallbackStep::Scan { avoid: clone_texts(&self.avoid) }
    }

    fn try_next(&self, tried: usize) -> (r: FallbackStep)
        requires
            self.valid(),
        ensures
            self.tries(r, tried as int),
    {
        if tried < MAX_ALTERNATIVES && tried < self.groups.len() {
            FallbackStep::Fetch { category_id: *random_item(self.groups[tried].ids.as_slice()) }
        } else if self.groups.len() > 0 {
            FallbackStep::Refuse
        } else {
            FallbackStep::TakeNext
        }
    }

    /// Goes on after the cache was looked through. First the groups to avoid
    /// are left out, next the previous group only; then other categories are
    /// asked for.
    pub fn scanned(&mut self, found: Option<FetchedQuestion>, excluded: &[String]) -> (r:
        FallbackStep)
        requires
            old(self).valid(),
            old(self).stage !is Alternatives,
        ensures
            final(self).valid(),
            texts(final(self).avoid@) == texts(old(self).avoid@),
            final(self).last() == old(self).last(),
            found is Some ==> r is Found && r->question == found->0,
            found is None && old(self).stage is Preferred ==> {
                &&& final(self).stage is Strict
                &&& r is Scan
                &&& texts(r->avoid@) == (match old(self).last() {
                    Some(p) => seq![normalised(p)],
                    None => Seq::<Seq<char>>::empty(),
                })
            },
            found is None && old(self).stage is Strict ==> {
                &&& final(self).stage == (FallbackStage::Alternatives { tried: 0 })
                &&& are_alternatives(
                    group_views(final(self).groups@),
                    texts(excluded@),
                    old(self).last(),
                    texts(old(self).avoid@),
                )
                &&& final(self).groups.len() == other_groups(
                    texts(excluded@),
                    old(self).last(),
                ).len()
                &&& final(self).tries(r, 0)
            },
    {
        match found {
            Some(question) => FallbackStep::Found { question },
            None => match &self.stage {
                FallbackStage::Preferred => {
                    self.stage = FallbackStage::Strict;
                    let mut avoid: Vec<String> = Vec::new();
                    match &self.previous {
                        Some(p) => {
                            avoid.push(normalise(p.as_str()));
                        },
                        None => {},
                    }
                    assert(texts(avoid@) =~= (match self.last() {
                        Some(p) => seq![normalised(p)],
                        None => Seq::<Seq<char>>::empty(),
                    }));
                    FallbackStep::Scan { avoid }
                },
                _ => {
                    let previous: Option<&str> = match &self.previous {
                        Some(p) => Some(p.as_str()),
                        None => None,
                    };
                    let groups = alternatives(excluded, previous, &self.avoid);
                    self.groups = groups;
                    self.stage = FallbackStage::Alternatives { tried: 0 };
                    self.try_next(0)
                },
            },
        }
    }

    /// Goes on after a question was asked for: takes it if it is of the group
    /// that was asked for and may follow, or tries the next group.
    pub fn fetched(&mut self, found: Option<FetchedQuestion>) -> (r: FallbackStep)
        requires
            old(self).valid(),
            old(self).stage is Alternatives,
            old(self).stage->tried < MAX_ALTERNATIVES,
            old(self).stage->tried < old(self).groups.len() < usize::MAX,
        ensures
            final(self).valid(),
            texts(final(self).avoid@) == texts(old(self).avoid@),
            final(self).last() == old(self).last(),
            final(self).groups == old(self).groups,
            ({
                let group: Seq<char> = old(self).groups@[old(self).stage->tried as int].name@;
                let count: nat = old(self).groups@.len() + 1;
                if found is Some && is_accepted(
                    found->0@.category,
                    group,
                    old(self).last(),
                    count,
                ) {
                    r is Found && r->question == found->0 && final(self).stage == old(self).stage
                } else {
                    final(self).stage == (FallbackStage::Alternatives {
                        tried: (old(self).stage->tried + 1) as usize,
                    }) && final(self).tries(r, old(self).stage->tried + 1)
                }
            }),
    {
        let tried: usize = match &self.stage {
            FallbackStage::Alternatives { tried } => *tried,
            _ => 0,
        };
        match found {
            Some(question) => {
                let previous: Option<&str> = match &self.previous {
                    Some(p) => Some(p.as_str()),
                    None => None,
                };
                if accepts(
                    question.category.as_str(),
                    self.groups[tried].name,
                    previous,
                    self.groups.len() + 1,
                ) {
                    return FallbackStep::Found { question };
                }
            },
            None => {},
        }
        self.stage = FallbackStage::Alternatives { tried: tried + 1 };
        self.try_next(tried + 1)
    }
}

/// Where other groups are active, a question that is fetched instead is of
/// another group than the previous one.
pub proof fn law_fetched_fallback_is_of_another_group(
    category: Seq<char>,
    group: Seq<char>,
    previous: Seq<char>,
    other_groups: nat,
)
    requires
        other_groups > 0,
        is_accepted(category, group, Some(previous), other_groups + 1),
    ensures
        normalised(group_label(category)) != previous,
{
}

/// Two other groups are asked for at most, the first of the list first. Without
/// other groups the next question is taken as it comes; otherwise the search
/// ends without one.
pub proof fn law_two_other_groups_are_tried(f: Fallback, step: FallbackStep, tried: int)
    requires
        0 <= tried,
        f.tries(step, tried),
    ensures
        step is Fetch <==> tried < 2 && tried < f.groups.len(),
        step is Fetch ==> f.groups@[tried].ids@.contains(step->category_id),
        step is TakeNext <==> f.groups.len() == 0,
        step is Refuse <==> f.groups.len() > 0 && (tried >= 2 || tried >= f.groups.len()),
{
}

} // verus!
