//! Why no two questions in a row of a round are of one group, wherever they
//! come from, and why each is of the group that it was drawn for.

use vstd::prelude::*;

use crate::fetcher::cache::{group_key, law_scan_finds_what_fits, scan};
use crate::fetcher::categories::{
    active_table, find_id, group_keys, group_of, group_table, is_active, is_excluded,
    kept_groups, lemma_active_keys, normalised,
};
use crate::fetcher::fallback::{are_alternatives, avoided, is_accepted, other_groups};
use crate::fetcher::gather::{last_group, GatheringView};
use crate::fetcher::matching::{
    law_every_category_has_its_group, law_excluded_groups_are_left_out, opentdb_name,
};
use crate::fetcher::questions::can_follow;
use crate::fetcher::rounds::{draw_at, is_round, round_draw, Draw};
use crate::state::QuestionView;

verus! {

/// What the cache gives when all groups of the round so far are left out may
/// follow the last question.
pub proof fn law_preferred_question_may_follow(
    g: GatheringView,
    cache: Seq<QuestionView>,
    avoid: Seq<Seq<char>>,
    excluded: Seq<Seq<char>>,
)
    requires
        g.avoids_last(),
        avoid.to_set() == g.avoid,
        scan(cache, cache.len(), avoid, excluded).2 is Some,
    ensures
        can_follow(
            last_group(g.questions),
            scan(cache, cache.len(), avoid, excluded).2->0.category,
            g.active_group_count,
        ),
{
    law_scan_finds_what_fits(cache, avoid, excluded);
    let q: QuestionView = scan(cache, cache.len(), avoid, excluded).2->0;
    if last_group(g.questions) == Some(group_key(q)) {
        assert(avoid.to_set().contains(group_key(q)));
    }
}

/// What the cache gives when only the group of the last question is left out
/// may follow it, where normalising the name of that group once more changes
/// nothing, as is so of ASCII names.
pub proof fn law_strict_question_may_follow(
    last: QuestionView,
    cache: Seq<QuestionView>,
    excluded: Seq<Seq<char>>,
    active_group_count: nat,
)
    requires
        normalised(group_key(last)) == group_key(last),
        scan(cache, cache.len(), seq![normalised(group_key(last))], excluded).2 is Some,
    ensures
        can_follow(
            Some(group_key(last)),
            scan(cache, cache.len(), seq![normalised(group_key(last))], excluded).2->0.category,
            active_group_count,
        ),
{
    let avoid: Seq<Seq<char>> = seq![normalised(group_key(last))];
    law_scan_finds_what_fits(cache, avoid, excluded);
    assert(avoid[0] == group_key(last));
}

/// The next question is taken as it comes only where a single group is active,
/// so that any question may follow.
pub proof fn law_next_is_taken_with_one_group_only(
    excluded: Seq<Seq<char>>,
    previous: Option<Seq<char>>,
    category: Seq<char>,
)
    requires
        other_groups(excluded, previous).len() == 0,
    ensures
        active_table(excluded).len() == 1,
        can_follow(previous, category, active_table(excluded).len()),
{
    let table: Seq<(Seq<char>, Seq<u32>)> = active_table(excluded);
    let keep = |g: (Seq<char>, Seq<u32>)| previous != Some(normalised(g.0));
    let keys: Seq<Seq<char>> = group_keys(table);
    lemma_active_keys(excluded);
    assert forall|i: int| 0 <= i < table.len() implies previous == Some(#[trigger] keys[i]) by {
        if keep(table[i]) {
            table.lemma_filter_contains(keep, i);
            assert(table.filter(keep).contains(table[i]));
        }
    }
    if table.len() > 1 {
        assert(keys[0] != keys[1]);
    }
}

// ── Groups and categories ────────────────────────────────────────────────────

/// Every group that a name belongs to is one of the table.
proof fn lemma_group_of_is_listed(category: Seq<char>)
    requires
        group_of(category) is Some,
    ensures
        exists|i: int|
            0 <= i < group_table().len() && (#[trigger] group_table()[i]).0 == group_of(
                category,
            )->0,
{
    let t: Seq<(Seq<char>, Seq<u32>)> = group_table();
    assert(t.len() == 12);
    assert(t[0].0 == "General Knowledge"@ && t[1].0 == "Entertainment"@ && t[2].0
        == "Science & Technology"@ && t[3].0 == "Mythology"@ && t[4].0 == "Sports"@ && t[5].0
        == "Geography"@ && t[6].0 == "History"@ && t[7].0 == "Politics"@ && t[8].0 == "Art"@
        && t[9].0 == "Celebrities"@ && t[10].0 == "Animals"@ && t[11].0 == "Vehicles"@);
}

/// Questions of an excluded group are not asked, unless every group is excluded;
/// all others are.
pub proof fn law_excluded_groups_are_not_asked(category: Seq<char>, excluded: Seq<Seq<char>>)
    ensures
        group_of(category) is None ==> is_active(category, excluded),
        group_of(category) is Some && (exists|i: int|
            0 <= i < group_table().len() && !is_excluded(
                (#[trigger] group_table()[i]).0,
                excluded,
            )) ==> (is_active(category, excluded) <==> !is_excluded(
            group_of(category)->0,
            excluded,
        )),
        group_of(category) is Some && (forall|i: int|
            0 <= i < group_table().len() ==> is_excluded(
                (#[trigger] group_table()[i]).0,
                excluded,
            )) ==> is_active(category, excluded),
{
    let table: Seq<(Seq<char>, Seq<u32>)> = group_table();
    let active: Seq<(Seq<char>, Seq<u32>)> = active_table(excluded);
    if group_of(category) is Some {
        let g: Seq<char> = group_of(category)->0;
        lemma_group_of_is_listed(category);
        let at: int = choose|at: int| 0 <= at < table.len() && (#[trigger] table[at]).0 == g;
        if exists|i: int| 0 <= i < table.len() && !is_excluded((#[trigger] table[i]).0, excluded) {
            let i: int = choose|i: int|
                0 <= i < table.len() && !is_excluded((#[trigger] table[i]).0, excluded);
            if !is_excluded(g, excluded) {
                law_excluded_groups_are_left_out(excluded, at, 0);
                let j: int = active.index_of(table[at]);
                assert(normalised(active[j].0) == normalised(g));
            } else if is_active(category, excluded) {
                let j: int = choose|j: int|
                    0 <= j < active.len() && #[trigger] normalised(active[j].0) == normalised(g);
                law_excluded_groups_are_left_out(excluded, i, j);
                let k: int = choose|k: int|
                    0 <= k < excluded.len() && #[trigger] normalised(excluded[k]) == normalised(g);
                assert(normalised(excluded[k]) == normalised(active[j].0));
                assert(is_excluded(active[j].0, excluded));
            }
        } else {
            assert(kept_groups(excluded).len() == 0) by {
                if kept_groups(excluded).len() > 0 {
                    let keep = |x: (Seq<char>, Seq<u32>)| !is_excluded(x.0, excluded);
                    let x: (Seq<char>, Seq<u32>) = kept_groups(excluded)[0];
                    assert(kept_groups(excluded).contains(x));
                    table.lemma_filter_contains_rev(keep, x);
                    table.lemma_filter_pred(keep, 0);
                    let k: int = choose|k: int| 0 <= k < table.len() && table[k] == x;
                    assert(is_excluded(table[k].0, excluded));
                }
            }
            assert(normalised(active[at].0) == normalised(g));
        }
    }
}

/// What is drawn for a round is a category of OpenTDB's that belongs to the
/// group that it was drawn for, by its number and by its name; and the group is
/// an active one.
pub proof fn law_drawn_categories_are_of_their_groups(
    excluded: Seq<Seq<char>>,
    counts: Map<Seq<char>, i64>,
    recent: Seq<Seq<char>>,
    choices: Seq<(Seq<char>, u32)>,
    k: int,
)
    requires
        is_round(round_draw(active_table(excluded), counts, recent), choices),
        0 <= k < choices.len(),
    ensures
        find_id(group_table(), choices[k].1) == Some(choices[k].0),
        opentdb_name(choices[k].1) is Some,
        group_of(opentdb_name(choices[k].1)->0) == Some(choices[k].0),
        is_active(opentdb_name(choices[k].1)->0, excluded),
{
    let d: Draw = round_draw(active_table(excluded), counts, recent);
    let now: Draw = draw_at(d, choices, k);
    let table: Seq<(Seq<char>, Seq<u32>)> = group_table();
    let active: Seq<(Seq<char>, Seq<u32>)> = active_table(excluded);
    assert(now.allows(choices[k]));
    let a: int = choose|a: int| #[trigger]
        now.is_least(a) && choices[k].0 == now.groups[a].0 && now.groups[a].1.contains(
            choices[k].1,
        );
    assert(now.is_pooled(a));
    assert(now.is_open(a));
    assert(table.contains(active[a])) by {
        if kept_groups(excluded).len() > 0 {
            let keep = |x: (Seq<char>, Seq<u32>)| !is_excluded(x.0, excluded);
            assert(kept_groups(excluded).contains(active[a]));
            table.lemma_filter_contains_rev(keep, active[a]);
        }
    }
    let j: int = choose|j: int| 0 <= j < table.len() && table[j] == active[a];
    law_every_category_has_its_group(j, choices[k].1);
    assert(normalised(active[a].0) == normalised(choices[k].0));
}

/// A question that OpenTDB sends for a category that was drawn is taken, unless
/// the question before it is of the same group.
pub proof fn law_fetched_questions_fit_their_group(
    excluded: Seq<Seq<char>>,
    counts: Map<Seq<char>, i64>,
    recent: Seq<Seq<char>>,
    choices: Seq<(Seq<char>, u32)>,
    k: int,
    previous: Option<Seq<char>>,
    group_count: nat,
)
    requires
        is_round(round_draw(active_table(excluded), counts, recent), choices),
        0 <= k < choices.len(),
    ensures
        is_accepted(opentdb_name(choices[k].1)->0, choices[k].0, previous, group_count)
            <==> group_count <= 1 || previous != Some(normalised(choices[k].0)),
{
    law_drawn_categories_are_of_their_groups(excluded, counts, recent, choices, k);
}

/// The groups to ask for instead are all active groups but the previous one;
/// those to avoid come behind all others.
pub proof fn law_alternatives_avoid_what_they_can(
    r: Seq<(Seq<char>, Seq<u32>)>,
    excluded: Seq<Seq<char>>,
    previous: Option<Seq<char>>,
    avoid: Seq<Seq<char>>,
    g: (Seq<char>, Seq<u32>),
    i: int,
    j: int,
)
    requires
        are_alternatives(r, excluded, previous, avoid),
    ensures
        r.contains(g) <==> active_table(excluded).contains(g) && previous != Some(normalised(g.0)),
        0 <= i < j < r.len() && avoid.contains(normalised(r[i].0)) ==> avoid.contains(
            normalised(r[j].0),
        ),
{
    let order: Seq<(Seq<char>, Seq<u32>)> = choose|order: Seq<(Seq<char>, Seq<u32>)>|
        {
            &&& #[trigger] order.to_multiset() == other_groups(excluded, previous).to_multiset()
            &&& r == avoided(order, avoid, false) + avoided(order, avoid, true)
        };
    let others: Seq<(Seq<char>, Seq<u32>)> = other_groups(excluded, previous);
    let active: Seq<(Seq<char>, Seq<u32>)> = active_table(excluded);
    let not_last = |x: (Seq<char>, Seq<u32>)| previous != Some(normalised(x.0));
    let a: Seq<(Seq<char>, Seq<u32>)> = avoided(order, avoid, false);
    let b: Seq<(Seq<char>, Seq<u32>)> = avoided(order, avoid, true);
    order.to_multiset_ensures();
    others.to_multiset_ensures();
    assert(order.contains(g) == others.contains(g)) by {
        assert(order.to_multiset().count(g) == others.to_multiset().count(g));
    }
    lemma_filter_has(active, not_last, g);
    lemma_filter_has(
        order,
        |x: (Seq<char>, Seq<u32>)| avoid.contains(normalised(x.0)) == false,
        g,
    );
    lemma_filter_has(
        order,
        |x: (Seq<char>, Seq<u32>)| avoid.contains(normalised(x.0)) == true,
        g,
    );
    if r.contains(g) {
        let k: int = r.index_of(g);
        if k < a.len() {
            assert(a[k] == g);
        } else {
            assert(b[k - a.len()] == g);
        }
    }
    if a.contains(g) {
        let k: int = a.index_of(g);
        assert(r[k] == g);
    }
    if b.contains(g) {
        let k: int = b.index_of(g);
        assert(r[a.len() + k] == g);
    }
    if 0 <= i < j < r.len() && avoid.contains(normalised(r[i].0)) {
        if i < a.len() {
            order.lemma_filter_pred(
                |x: (Seq<char>, Seq<u32>)| avoid.contains(normalised(x.0)) == false,
                i,
            );
            assert(a[i] == r[i]);
        }
        order.lemma_filter_pred(
            |x: (Seq<char>, Seq<u32>)| avoid.contains(normalised(x.0)) == true,
            j - a.len(),
        );
        assert(b[j - a.len()] == r[j]);
    }
}

/// What is left by a filter is what it lets through.
proof fn lemma_filter_has<T>(s: Seq<T>, keep: spec_fn(T) -> bool, x: T)
    ensures
        s.filter(keep).contains(x) <==> s.contains(x) && keep(x),
{
    if s.filter(keep).contains(x) {
        s.lemma_filter_contains_rev(keep, x);
        let i: int = s.filter(keep).index_of(x);
        s.lemma_filter_pred(keep, i);
    }
    if s.contains(x) && keep(x) {
        let i: int = s.index_of(x);
        s.lemma_filter_contains(keep, i);
    }
}

} // verus!
