//! Which categories a round draws from.

use vstd::prelude::*;

use crate::chance::random_item;
use crate::fetcher::categories::{
    active_groups, active_table, group_keys, group_views, lemma_active_ids, lemma_active_keys,
    normalise, normalise_all, normalised, CategoryGroup,
};
use crate::names::NameMap;
use crate::text::{contains_text, same, texts};

verus! {

/// A category of a round and the group that it was drawn for.
pub struct CategoryChoice {
    pub group: String,
    pub category_id: u32,
}

impl View for CategoryChoice {
    type V = (Seq<char>, u32);

    open spec fn view(&self) -> (Seq<char>, u32) {
        (self.group@, self.category_id)
    }
}

/// The groups that a list of choices was drawn for.
pub open spec fn chosen_groups(choices: Seq<CategoryChoice>) -> Seq<Seq<char>> {
    choices.map_values(|c: CategoryChoice| c.group@)
}

/// How often `x` occurs in `s`.
pub open spec fn occurrences(s: Seq<Seq<char>>, x: Seq<char>) -> nat
    decreases s.len(),
{
    if s.len() == 0 {
        0
    } else if s.last() == x {
        occurrences(s.drop_last(), x) + 1
    } else {
        occurrences(s.drop_last(), x)
    }
}

proof fn lemma_occurrences_bound(s: Seq<Seq<char>>, x: Seq<char>)
    ensures
        occurrences(s, x) <= s.len(),
    decreases s.len(),
{
    if s.len() > 0 {
        lemma_occurrences_bound(s.drop_last(), x);
    }
}

/// What a category is drawn from: the active groups, how often each was asked
/// before the round, the groups asked last, and those drawn for the round so
/// far.
pub struct Draw {
    pub groups: Seq<(Seq<char>, Seq<u32>)>,
    pub counts: Map<Seq<char>, i64>,
    pub recent: Seq<Seq<char>>,
    pub chosen: Seq<Seq<char>>,
}

impl Draw {
    /// The name of a group as it is matched.
    pub open spec fn key(self, i: int) -> Seq<char> {
        normalised(self.groups[i].0)
    }

    /// The names of all groups as they are matched.
    pub open spec fn keys(self) -> Seq<Seq<char>> {
        group_keys(self.groups)
    }

    /// Where the current pass through the groups began: each pass draws every
    /// group once.
    pub open spec fn pass_start(self) -> int {
        self.chosen.len() - self.chosen.len() % self.groups.len()
    }

    /// Whether the group was drawn in the current pass.
    pub open spec fn is_used(self, key: Seq<char>) -> bool {
        exists|j: int|
            self.pass_start() <= j < self.chosen.len() && #[trigger] normalised(self.chosen[j])
                == key
    }

    /// Whether the group has not been drawn in the current pass.
    pub open spec fn is_open(self, i: int) -> bool {
        0 <= i < self.groups.len() && !self.is_used(self.key(i))
    }

    /// Whether the group is open and not the one drawn last.
    pub open spec fn is_fresh(self, i: int) -> bool {
        &&& self.is_open(i)
        &&& self.groups.len() == 1 || self.chosen.len() == 0 || normalised(self.chosen.last())
            != self.key(i)
    }

    /// Fresh groups; all open ones where none is fresh.
    pub open spec fn is_candidate(self, i: int) -> bool {
        if exists|j: int| self.is_fresh(j) {
            self.is_fresh(i)
        } else {
            self.is_open(i)
        }
    }

    /// Whether the group was asked recently.
    pub open spec fn is_recent(self, i: int) -> bool {
        exists|j: int| 0 <= j < self.recent.len() && #[trigger] normalised(self.recent[j])
            == self.key(i)
    }

    /// Candidates that were not asked recently.
    pub open spec fn is_preferred(self, i: int) -> bool {
        self.is_candidate(i) && !self.is_recent(i)
    }

    /// Preferred groups; all candidates where none is preferred.
    pub open spec fn is_pooled(self, i: int) -> bool {
        if exists|j: int| self.is_preferred(j) {
            self.is_preferred(i)
        } else {
            self.is_candidate(i)
        }
    }

    /// How often the group was asked before the round.
    pub open spec fn base_count(self, i: int) -> int {
        let name: Seq<char> = self.groups[i].0;
        if self.counts.dom().contains(name) {
            self.counts[name] as int
        } else {
            0
        }
    }

    /// How often the group was asked, the round included.
    pub open spec fn tally(self, i: int) -> int {
        self.base_count(i) + occurrences(self.chosen, self.groups[i].0)
    }

    /// The groups of the pool that were asked least.
    pub open spec fn is_least(self, i: int) -> bool {
        self.is_pooled(i) && forall|j: int| #[trigger]
            self.is_pooled(j) ==> self.tally(i) <= self.tally(j)
    }

    /// Whether `choice` is a category of a group that was asked least.
    pub open spec fn allows(self, choice: (Seq<char>, u32)) -> bool {
        exists|i: int| #[trigger]
            self.is_least(i) && choice.0 == self.groups[i].0 && self.groups[i].1.contains(choice.1)
    }

    /// The draw after the groups `chosen` were drawn.
    pub open spec fn after(self, chosen: Seq<Seq<char>>) -> Draw {
        Draw { chosen, ..self }
    }

    /// Whether another category can be drawn: some group is open.
    pub open spec fn can_go_on(self) -> bool {
        &&& self.groups.len() > 0
        &&& self.chosen.len() % self.groups.len() < self.keys().to_set().len()
    }
}

/// While a pass has drawn fewer groups than there are, one is open.
proof fn lemma_some_open(d: Draw)
    requires
        d.can_go_on(),
    ensures
        exists|i: int| d.is_open(i),
        exists|i: int| d.is_candidate(i),
        exists|i: int| d.is_pooled(i),
{
    let pass: Seq<Seq<char>> = d.chosen.skip(d.pass_start());
    let used: Seq<Seq<char>> = pass.map_values(|s: Seq<char>| normalised(s));
    let keys: Set<Seq<char>> = d.keys().to_set();
    assert(0 <= d.chosen.len() % d.groups.len() <= d.chosen.len()) by (nonlinear_arith)
        requires
            d.groups.len() > 0,
    ;
    used.lemma_cardinality_of_set();
    if keys.subset_of(used.to_set()) {
        vstd::set_lib::lemma_len_subset(keys, used.to_set());
        assert(false);
    }
    let key: Seq<char> = choose|k: Seq<char>| keys.contains(k) && !used.to_set().contains(k);
    let i: int = choose|i: int| 0 <= i < d.keys().len() && d.keys()[i] == key;
    assert(!d.is_used(key)) by {
        if d.is_used(key) {
            let j: int = choose|j: int|
                d.pass_start() <= j < d.chosen.len() && #[trigger] normalised(d.chosen[j]) == key;
            assert(used[j - d.pass_start()] == key);
        }
    }
    assert(d.is_open(i));
    if exists|j: int| d.is_fresh(j) {
        let j: int = choose|j: int| d.is_fresh(j);
        assert(d.is_candidate(j));
    } else {
        assert(d.is_candidate(i));
    }
    let c: int = choose|c: int| d.is_candidate(c);
    if exists|j: int| d.is_preferred(j) {
        let j: int = choose|j: int| d.is_preferred(j);
        assert(d.is_pooled(j));
    } else {
        assert(d.is_pooled(c));
    }
}

/// Whether some mark is set.
fn any_mark(marks: &Vec<bool>) -> (r: bool)
    ensures
        r == exists|i: int| 0 <= i < marks.len() && #[trigger] marks@[i],
{
    let mut i: usize = 0;
    while i < marks.len()
        invariant
            i <= marks.len(),
            forall|j: int| 0 <= j < i ==> !(#[trigger] marks@[j]),
        decreases marks.len() - i,
    {
        if marks[i] {
            return true;
        }
        i = i + 1;
    }
    false
}

/// What a draw is made from, as it is computed with.
struct Counter<'a> {
    groups: &'a [CategoryGroup],
    counts: &'a NameMap<i64>,
    recent: &'a [String],
    choices: &'a [CategoryChoice],
    /// Matched names of the recent groups.
    recent_keys: Vec<String>,
    /// Matched names of the groups drawn in the current pass.
    used_keys: Vec<String>,
}

/// The draw that follows `choices`.
pub open spec fn draw_after(
    groups: Seq<CategoryGroup>,
    counts: NameMap<i64>,
    recent: Seq<String>,
    choices: Seq<CategoryChoice>,
) -> Draw {
    Draw {
        groups: group_views(groups),
        counts: counts@,
        recent: texts(recent),
        chosen: chosen_groups(choices),
    }
}

impl Counter<'_> {
    /// The draw that this stands for.
    spec fn draw(self) -> Draw {
        draw_after(self.groups@, *self.counts, self.recent@, self.choices@)
    }

    spec fn valid(self) -> bool {
        let d: Draw = self.draw();
        &&& d.groups.len() > 0
        &&& texts(self.recent_keys@) == d.recent.map_values(|s: Seq<char>| normalised(s))
        &&& texts(self.used_keys@) == d.chosen.skip(d.pass_start()).map_values(
            |s: Seq<char>| normalised(s),
        )
        &&& 0 <= d.pass_start() <= d.chosen.len()
    }

    /// Which groups are open.
    fn open_marks(&self) -> (r: Vec<bool>)
        requires
            self.valid(),
        ensures
            r.len() == self.groups@.len(),
            forall|i: int|
                0 <= i < r.len() ==> #[trigger] r@[i] == self.draw().is_open(i),
    {
        let ghost d: Draw = self.draw();
        let mut marks: Vec<bool> = Vec::new();
        let mut i: usize = 0;
        while i < self.groups.len()
            invariant
                i <= self.groups@.len(),
                self.valid(),
                d == self.draw(),
                marks.len() == i,
                forall|j: int| 0 <= j < i ==> #[trigger] marks@[j] == d.is_open(j),
            decreases self.groups@.len() - i,
        {
            let key = normalise(self.groups[i].name);
            let used: bool = contains_text(&self.used_keys, key.as_str());
            proof {
                assert(d.groups[i as int] == self.groups@[i as int]@);
                let u: Seq<Seq<char>> = texts(self.used_keys@);
                let s: int = d.pass_start();
                if used {
                    let j: int = choose|j: int| 0 <= j < u.len() && u[j] == key@;
                    assert(normalised(d.chosen[s + j]) == key@);
                }
                if d.is_used(key@) {
                    let j: int = choose|j: int|
                        s <= j < d.chosen.len() && #[trigger] normalised(d.chosen[j]) == key@;
                    assert(u[j - s] == key@);
                }
            }
            marks.push(!used);
            i = i + 1;
        }
        marks
    }

    /// Which groups are candidates.
    fn candidate_marks(&self) -> (r: Vec<bool>)
        requires
            self.valid(),
        ensures
            r.len() == self.groups@.len(),
            forall|i: int|
                0 <= i < r.len() ==> #[trigger] r@[i] == self.draw().is_candidate(i),
    {
        let ghost d: Draw = self.draw();
        let open = self.open_marks();
        let last: Option<String> = if self.choices.len() > 0 {
            assert(d.chosen.last() == self.choices@.last().group@);
            Some(normalise(self.choices[self.choices.len() - 1].group.as_str()))
        } else {
            None
        };
        let mut fresh: Vec<bool> = Vec::new();
        let mut i: usize = 0;
        while i < self.groups.len()
            invariant
                i <= self.groups@.len(),
                d == self.draw(),
                open.len() == self.groups@.len(),
                forall|j: int| 0 <= j < open.len() ==> #[trigger] open@[j] == d.is_open(j),
                last is Some == (d.chosen.len() > 0),
                last is Some ==> last->0@ == normalised(d.chosen.last()),
                fresh.len() == i,
                forall|j: int| 0 <= j < i ==> #[trigger] fresh@[j] == d.is_fresh(j),
            decreases self.groups@.len() - i,
        {
            assert(d.groups[i as int] == self.groups@[i as int]@);
            let differs: bool = match &last {
                Some(l) => !same(l.as_str(), normalise(self.groups[i].name).as_str()),
                None => true,
            };
            fresh.push(open[i] && (self.groups.len() == 1 || differs));
            i = i + 1;
        }
        if any_mark(&fresh) {
            proof {
                let j: int = choose|j: int| 0 <= j < fresh.len() && #[trigger] fresh@[j];
                assert(d.is_fresh(j));
            }
            fresh
        } else {
            proof {
                assert forall|j: int| !d.is_fresh(j) by {
                    if d.is_fresh(j) {
                        assert(fresh@[j]);
                    }
                }
            }
            open
        }
    }

    /// Which groups are in the pool.
    fn pool_marks(&self) -> (r: Vec<bool>)
        requires
            self.valid(),
        ensures
            r.len() == self.groups@.len(),
            forall|i: int|
                0 <= i < r.len() ==> #[trigger] r@[i] == self.draw().is_pooled(i),
    {
        let ghost d: Draw = self.draw();
        let candidates = self.candidate_marks();
        let mut preferred: Vec<bool> = Vec::new();
        let mut i: usize = 0;
        while i < self.groups.len()
            invariant
                i <= self.groups@.len(),
                self.valid(),
                d == self.draw(),
                candidates.len() == self.groups@.len(),
                forall|j: int|
                    0 <= j < candidates.len() ==> #[trigger] candidates@[j] == d.is_candidate(j),
                preferred.len() == i,
                forall|j: int| 0 <= j < i ==> #[trigger] preferred@[j] == d.is_preferred(j),
            decreases self.groups@.len() - i,
        {
            assert(d.groups[i as int] == self.groups@[i as int]@);
            let key = normalise(self.groups[i].name);
            let is_recent: bool = contains_text(&self.recent_keys, key.as_str());
            proof {
                let u: Seq<Seq<char>> = texts(self.recent_keys@);
                if is_recent {
                    let j: int = choose|j: int| 0 <= j < u.len() && u[j] == key@;
                    assert(normalised(d.recent[j]) == key@);
                }
                if d.is_recent(i as int) {
                    let j: int = choose|j: int|
                        0 <= j < d.recent.len() && #[trigger] normalised(d.recent[j]) == key@;
                    assert(u[j] == key@);
                }
            }
            preferred.push(candidates[i] && !is_recent);
            i = i + 1;
        }
        if any_mark(&preferred) {
            proof {
                let j: int = choose|j: int| 0 <= j < preferred.len() && #[trigger] preferred@[j];
                assert(d.is_preferred(j));
            }
            preferred
        } else {
            proof {
                assert forall|j: int| !d.is_preferred(j) by {
                    if d.is_preferred(j) {
                        assert(preferred@[j]);
                    }
                }
            }
            candidates
        }
    }

    /// How often the group at `i` was asked, the round included.
    fn tally(&self, i: usize) -> (r: i64)
        requires
            i < self.groups@.len(),
            self.draw().base_count(i as int) + self.choices@.len() <= i64::MAX,
        ensures
            r == self.draw().tally(i as int),
    {
        let ghost d: Draw = self.draw();
        let ghost name: Seq<char> = d.groups[i as int].0;
        assert(d.groups[i as int] == self.groups@[i as int]@);
        let mut n: i64 = match self.counts.get(self.groups[i].name) {
            Some(c) => *c,
            None => 0,
        };
        let mut j: usize = 0;
        while j < self.choices.len()
            invariant
                i < self.groups@.len(),
                j <= self.choices@.len(),
                d == self.draw(),
                name == self.groups@[i as int].name@,
                d.base_count(i as int) + self.choices@.len() <= i64::MAX,
                n == d.base_count(i as int) + occurrences(d.chosen.take(j as int), name),
            decreases self.choices@.len() - j,
        {
            proof {
                lemma_occurrences_bound(d.chosen.take(j as int), name);
                assert(d.chosen.take(j + 1).drop_last() =~= d.chosen.take(j as int));
                assert(d.chosen.take(j + 1).last() == self.choices@[j as int].group@);
            }
            if same(self.choices[j].group.as_str(), self.groups[i].name) {
                n = n + 1;
            }
            j = j + 1;
        }
        assert(d.chosen.take(j as int) =~= d.chosen);
        n
    }
}

/// The groups from which the next category of a round is drawn: those that
/// were asked least among the open ones, recent ones and the one drawn last
/// left out where that leaves any.
pub fn least_used(
    groups: &[CategoryGroup],
    counts: &NameMap<i64>,
    recent: &[String],
    choices: &[CategoryChoice],
) -> (r: Vec<usize>)
    requires
        draw_after(groups@, *counts, recent@, choices@).can_go_on(),
        forall|i: int|
            0 <= i < groups@.len() ==> #[trigger] draw_after(
                groups@,
                *counts,
                recent@,
                choices@,
            ).base_count(i) + choices@.len() <= i64::MAX,
    ensures
        r.len() > 0,
        r@.no_duplicates(),
        forall|i: int|
            0 <= i < r.len() ==> draw_after(groups@, *counts, recent@, choices@).is_least(
                #[trigger] r@[i] as int,
            ),
        forall|i: int| #[trigger]
            draw_after(groups@, *counts, recent@, choices@).is_least(i) ==> r@.contains(i as usize),
{
    let ghost d: Draw = draw_after(groups@, *counts, recent@, choices@);
    proof {
        assert(0 <= d.chosen.len() % d.groups.len() <= d.chosen.len()) by (nonlinear_arith)
            requires
                d.groups.len() > 0,
        ;
    }
    let mut used_keys: Vec<String> = Vec::new();
    let start: usize = choices.len() - choices.len() % groups.len();
    let mut k: usize = start;
    while k < choices.len()
        invariant
            start <= k <= choices@.len(),
            start == d.pass_start(),
            d == draw_after(groups@, *counts, recent@, choices@),
            used_keys.len() == k - start,
            forall|j: int|
                0 <= j < k - start ==> #[trigger] used_keys@[j]@ == normalised(
                    d.chosen[start + j],
                ),
        decreases choices@.len() - k,
    {
        assert(d.chosen[k as int] == choices@[k as int].group@);
        used_keys.push(normalise(choices[k].group.as_str()));
        k = k + 1;
    }
    assert(texts(used_keys@) =~= d.chosen.skip(d.pass_start()).map_values(
        |s: Seq<char>| normalised(s),
    ));
    let counter = Counter {
        groups,
        counts,
        recent,
        choices,
        recent_keys: normalise_all(recent),
        used_keys,
    };
    let pool = counter.pool_marks();
    let mut list: Vec<usize> = Vec::new();
    let mut best: i64 = 0;
    let mut i: usize = 0;
    while i < groups.len()
        invariant
            i <= groups@.len(),
            d == counter.draw(),
            counter.groups@ == groups@,
            counter.choices@ == choices@,
            pool.len() == groups@.len(),
            forall|j: int| 0 <= j < pool.len() ==> #[trigger] pool@[j] == d.is_pooled(j),
            forall|j: int|
                0 <= j < groups@.len() ==> #[trigger] d.base_count(j)
                    + choices@.len() <= i64::MAX,
            list@.no_duplicates(),
            forall|k: int|
                0 <= k < list.len() ==> #[trigger] list@[k] < i && d.is_pooled(list@[k] as int)
                    && d.tally(list@[k] as int) == best,
            forall|j: int|
                0 <= j < i && #[trigger] d.is_pooled(j) ==> list.len() > 0 && best <= d.tally(j)
                    && (d.tally(j) == best ==> list@.contains(j as usize)),
        decreases groups@.len() - i,
    {
        assert(pool@[i as int] == d.is_pooled(i as int));
        if pool[i] {
            let ghost before: Seq<usize> = list@;
            assert(d.base_count(i as int) + choices@.len() <= i64::MAX);
            let t: i64 = counter.tally(i);
            if list.len() == 0 || t < best {
                best = t;
                list = Vec::new();
                list.push(i);
                assert(list@[0] == i);
            } else if t == best {
                list.push(i);
                proof {
                    assert(list@[before.len() as int] == i);
                    assert forall|j: int|
                        0 <= j < i && #[trigger] d.is_pooled(j) && d.tally(j)
                            == best implies list@.contains(j as usize) by {
                        let k: int = before.index_of(j as usize);
                        assert(before.contains(j as usize));
                        assert(list@[k] == j as usize);
                    }
                }
            }
        }
        i = i + 1;
    }
    proof {
        lemma_some_open(d);
        let j: int = choose|j: int| d.is_pooled(j);
        assert(0 <= j < i);
        assert(list@[0] < i);
        assert forall|j: int| #[trigger] d.is_least(j) implies list@.contains(j as usize) by {
            assert(d.is_pooled(j));
            assert(d.is_pooled(list@[0] as int));
        }
        assert forall|k: int| 0 <= k < list.len() implies d.is_least(#[trigger] list@[k] as int) by {
            assert(d.is_pooled(list@[k] as int));
        }
    }
    list
}

/// A draw before the first category of a round.
pub open spec fn round_draw(
    groups: Seq<(Seq<char>, Seq<u32>)>,
    counts: Map<Seq<char>, i64>,
    recent: Seq<Seq<char>>,
) -> Draw {
    Draw { groups, counts, recent, chosen: Seq::empty() }
}

/// Whether `n` categories can be drawn from `groups`: every group holds a
/// category, and no pass runs out of groups. Where all names differ, none does.
pub open spec fn can_draw(groups: Seq<(Seq<char>, Seq<u32>)>, n: nat) -> bool {
    let keys: Seq<Seq<char>> = group_keys(groups);
    n > 0 ==> {
        &&& groups.len() > 0
        &&& forall|i: int| 0 <= i < groups.len() ==> (#[trigger] groups[i]).1.len() > 0
        &&& keys.no_duplicates() || n <= keys.to_set().len()
    }
}

/// Whether `choices` is a round drawn from `d`: each choice is a category of
/// a group that may be drawn after those before it.
pub open spec fn is_round(d: Draw, choices: Seq<(Seq<char>, u32)>) -> bool {
    forall|k: int|
        0 <= k < choices.len() ==> d.after(
            choices.take(k).map_values(|c: (Seq<char>, u32)| c.0),
        ).allows(#[trigger] choices[k])
}

/// What a list of choices stands for.
pub open spec fn choice_views(choices: Seq<CategoryChoice>) -> Seq<(Seq<char>, u32)> {
    choices.map_values(|c: CategoryChoice| c@)
}

proof fn lemma_can_go_on(d: Draw, n: nat)
    requires
        can_draw(d.groups, n),
        d.chosen.len() < n,
    ensures
        d.can_go_on(),
{
    let keys: Seq<Seq<char>> = d.keys();
    assert(0 <= d.chosen.len() % d.groups.len() < d.groups.len()) by (nonlinear_arith)
        requires
            d.groups.len() > 0,
    ;
    assert(d.chosen.len() % d.groups.len() <= d.chosen.len()) by (nonlinear_arith)
        requires
            d.groups.len() > 0,
    ;
    if keys.no_duplicates() {
        keys.unique_seq_to_set();
    }
}

/// Chooses the categories of a round. Groups outside the recent ones are
/// preferred, then those asked least. No group is drawn twice until every
/// group was drawn. Which of several equal groups is drawn, and which category
/// of a group, is left to chance.
pub fn select_round_categories(
    groups: &[CategoryGroup],
    initial_counts: &NameMap<i64>,
    recent: &[String],
    n: usize,
) -> (r: Vec<CategoryChoice>)
    requires
        can_draw(group_views(groups@), n as nat),
        forall|i: int|
            0 <= i < groups@.len() ==> #[trigger] round_draw(
                group_views(groups@),
                initial_counts@,
                texts(recent@),
            ).base_count(i) + n <= i64::MAX,
    ensures
        r.len() == n,
        is_round(
            round_draw(group_views(groups@), initial_counts@, texts(recent@)),
            choice_views(r@),
        ),
{
    let ghost rec: Seq<Seq<char>> = texts(recent@);
    let ghost d: Draw = round_draw(group_views(groups@), initial_counts@, rec);
    if n == 0 {
        return Vec::new();
    }
    let mut choices: Vec<CategoryChoice> = Vec::new();
    while choices.len() < n
        invariant
            choices.len() <= n,
            rec == texts(recent@),
            d == round_draw(group_views(groups@), initial_counts@, rec),
            can_draw(group_views(groups@), n as nat),
            forall|i: int| 0 <= i < groups@.len() ==> #[trigger] d.base_count(i) + n <= i64::MAX,
            is_round(d, choice_views(choices@)),
        decreases n - choices.len(),
    {
        let ghost now: Draw = draw_after(groups@, *initial_counts, recent@, choices@);
        proof {
            lemma_can_go_on(now, n as nat);
            assert forall|i: int| 0 <= i < groups@.len() implies #[trigger] now.base_count(i)
                + choices@.len() <= i64::MAX by {
                assert(d.base_count(i) + n <= i64::MAX);
            }
        }
        let least = least_used(groups, initial_counts, recent, choices.as_slice());
        let pick: usize = *random_item(least.as_slice());
        proof {
            let k: int = choose|k: int| 0 <= k < least.len() && least@[k] == pick;
            assert(now.is_least(least@[k] as int));
            assert(now.groups[pick as int] == groups@[pick as int]@);
        }
        let category_id: u32 = *random_item(groups[pick].ids.as_slice());
        let name: &'static str = groups[pick].name;
        let ghost before: Seq<CategoryChoice> = choices@;
        choices.push(CategoryChoice { group: name.to_owned(), category_id });
        proof {
            let views: Seq<(Seq<char>, u32)> = choice_views(choices@);
            let old_views: Seq<(Seq<char>, u32)> = choice_views(before);
            assert(now.is_least(pick as int));
            assert(now.allows((name@, category_id)));
            assert forall|k: int| 0 <= k < views.len() implies d.after(
                views.take(k).map_values(|c: (Seq<char>, u32)| c.0),
            ).allows(#[trigger] views[k]) by {
                assert(views.take(k) =~= old_views.take(k));
                if k < before.len() {
                    assert(views[k] == old_views[k]);
                } else {
                    assert(old_views.take(k).map_values(|c: (Seq<char>, u32)| c.0)
                        =~= now.chosen);
                    assert(d.after(now.chosen) == now);
                }
            }
        }
    }
    choices
}

/// Chooses the categories of a round among the active groups. A count or a
/// recent group that could not be loaded is simply missing.
pub fn pick_round_categories(
    excluded: &[String],
    counts: &NameMap<i64>,
    recent: &[String],
    n: usize,
) -> (r: Vec<CategoryChoice>)
    requires
        forall|i: int|
            0 <= i < active_table(texts(excluded@)).len() ==> #[trigger] round_draw(
                active_table(texts(excluded@)),
                counts@,
                texts(recent@),
            ).base_count(i) + n <= i64::MAX,
    ensures
        r.len() == n,
        is_round(
            round_draw(active_table(texts(excluded@)), counts@, texts(recent@)),
            choice_views(r@),
        ),
{
    let groups = active_groups(excluded);
    proof {
        let ex: Seq<Seq<char>> = texts(excluded@);
        lemma_active_keys(ex);
        assert forall|i: int| 0 <= i < active_table(ex).len() implies (#[trigger] active_table(
            ex,
        )[i]).1.len() > 0 by {
            lemma_active_ids(ex, i);
        }
        assert(can_draw(group_views(groups@), n as nat));
    }
    select_round_categories(groups.as_slice(), counts, recent, n)
}

/// Whether the counts of the active groups leave room for `n` more.
pub open spec fn counts_fit(
    excluded: Seq<Seq<char>>,
    counts: Map<Seq<char>, i64>,
    recent: Seq<Seq<char>>,
    n: nat,
) -> bool {
    forall|i: int|
        0 <= i < active_table(excluded).len() ==> #[trigger] round_draw(
            active_table(excluded),
            counts,
            recent,
        ).base_count(i) + n <= i64::MAX
}

/// Chooses the categories of a round, see `pick_round_categories`. Nothing
/// where a count leaves no room for another `n` questions.
pub fn try_pick_round_categories(
    excluded: &[String],
    counts: &NameMap<i64>,
    recent: &[String],
    n: usize,
) -> (r: Option<Vec<CategoryChoice>>)
    ensures
        r is Some <==> counts_fit(texts(excluded@), counts@, texts(recent@), n as nat),
        r is Some ==> r->0.len() == n && is_round(
            round_draw(active_table(texts(excluded@)), counts@, texts(recent@)),
            choice_views(r->0@),
        ),
{
    let groups = active_groups(excluded);
    let ghost d: Draw = round_draw(
        active_table(texts(excluded@)),
        counts@,
        texts(recent@),
    );
    let mut i: usize = 0;
    while i < groups.len()
        invariant
            i <= groups.len(),
            d == round_draw(active_table(texts(excluded@)), counts@, texts(recent@)),
            group_views(groups@) == d.groups,
            forall|j: int| 0 <= j < i ==> #[trigger] d.base_count(j) + n <= i64::MAX,
        decreases groups.len() - i,
    {
        assert(d.groups[i as int] == groups@[i as int]@);
        let count: i64 = match counts.get(groups[i].name) {
            Some(c) => *c,
            None => 0,
        };
        assert(d.base_count(i as int) == count);
        if count as i128 + n as i128 > i64::MAX as i128 {
            return None;
        }
        i = i + 1;
    }
    Some(pick_round_categories(excluded, counts, recent, n))
}

// ── Laws ─────────────────────────────────────────────────────────────────────

/// The draw from which the choice at `k` of a round was made.
pub open spec fn draw_at(d: Draw, choices: Seq<(Seq<char>, u32)>, k: int) -> Draw {
    d.after(choices.take(k).map_values(|c: (Seq<char>, u32)| c.0))
}

/// No group is drawn twice within one pass through the groups.
pub proof fn law_no_repeat_within_a_pass(
    d: Draw,
    choices: Seq<(Seq<char>, u32)>,
    i: int,
    j: int,
)
    requires
        is_round(d, choices),
        0 <= i < j < choices.len(),
        d.groups.len() > 0,
        i / d.groups.len() as int == j / d.groups.len() as int,
    ensures
        normalised(choices[i].0) != normalised(choices[j].0),
{
    let now: Draw = draw_at(d, choices, j);
    let g: int = d.groups.len() as int;
    assert(now.allows(choices[j]));
    assert(now.chosen[i] == choices[i].0);
    assert(now.pass_start() <= i) by {
        vstd::arithmetic::div_mod::lemma_fundamental_div_mod(j, g);
        vstd::arithmetic::div_mod::lemma_fundamental_div_mod(i, g);
        vstd::arithmetic::div_mod::lemma_mod_bound(i, g);
        assert(now.chosen.len() % d.groups.len() == j % g);
    }
}

/// A round of no more questions than there are groups has no group twice.
pub proof fn law_short_rounds_use_distinct_groups(d: Draw, choices: Seq<(Seq<char>, u32)>)
    requires
        is_round(d, choices),
        choices.len() <= d.groups.len(),
    ensures
        choices.map_values(|c: (Seq<char>, u32)| normalised(c.0)).no_duplicates(),
{
    let keys: Seq<Seq<char>> = choices.map_values(|c: (Seq<char>, u32)| normalised(c.0));
    assert forall|i: int, j: int| 0 <= i < j < keys.len() implies keys[i] != keys[j] by {
        vstd::arithmetic::div_mod::lemma_basic_div(i, d.groups.len() as int);
        vstd::arithmetic::div_mod::lemma_basic_div(j, d.groups.len() as int);
        law_no_repeat_within_a_pass(d, choices, i, j);
    }
}

/// Where two groups with different names are active, no group is drawn twice
/// in a row, also where a pass ends and the next begins.
pub proof fn law_no_adjacent_repeat(d: Draw, choices: Seq<(Seq<char>, u32)>, k: int)
    requires
        is_round(d, choices),
        d.keys().no_duplicates(),
        d.groups.len() >= 2,
        0 <= k,
        k + 1 < choices.len(),
    ensures
        normalised(choices[k].0) != normalised(choices[k + 1].0),
{
    let now: Draw = draw_at(d, choices, k + 1);
    let g: int = d.groups.len() as int;
    assert(now.allows(choices[k + 1]));
    assert(now.chosen.last() == choices[k].0);
    if (k + 1) % g == 0 {
        // The pass begins anew: every group but the last one drawn is fresh.
        let last: Seq<char> = normalised(choices[k].0);
        let i: int = if now.key(0) != last {
            0
        } else {
            1
        };
        assert(d.keys()[0] != d.keys()[1]);
        assert(now.key(0) == d.keys()[0] && now.key(1) == d.keys()[1]);
        assert(now.pass_start() == now.chosen.len());
        assert(now.is_open(i));
        assert(now.is_fresh(i));
    } else {
        vstd::arithmetic::div_mod::lemma_mod_bound(k + 1, g);
        assert(now.pass_start() <= k);
        assert(now.chosen[k] == choices[k].0);
    }
}

/// A group that was asked recently is drawn only where every candidate was.
pub proof fn law_recent_groups_are_avoided(d: Draw, choices: Seq<(Seq<char>, u32)>, k: int)
    requires
        is_round(d, choices),
        0 <= k < choices.len(),
        exists|i: int| draw_at(d, choices, k).is_preferred(i),
    ensures
        forall|j: int|
            0 <= j < d.recent.len() ==> #[trigger] normalised(d.recent[j]) != normalised(
                choices[k].0,
            ),
{
    let now: Draw = draw_at(d, choices, k);
    assert(now.allows(choices[k]));
    let i: int = choose|i: int| #[trigger]
        now.is_least(i) && choices[k].0 == now.groups[i].0 && now.groups[i].1.contains(
            choices[k].1,
        );
    assert(now.is_pooled(i) && now.is_preferred(i));
    assert forall|j: int| 0 <= j < d.recent.len() implies #[trigger] normalised(d.recent[j])
        != normalised(choices[k].0) by {
        if normalised(d.recent[j]) == normalised(choices[k].0) {
            assert(normalised(now.recent[j]) == now.key(i));
            assert(now.is_recent(i));
        }
    }
}

/// Each full pass draws every group.
pub proof fn law_a_pass_draws_every_group(d: Draw, choices: Seq<(Seq<char>, u32)>, p: int, i: int)
    requires
        is_round(d, choices),
        0 <= p,
        0 <= i < d.groups.len(),
        (p + 1) * d.groups.len() <= choices.len(),
    ensures
        exists|k: int|
            p * d.groups.len() <= k < (p + 1) * d.groups.len() && normalised(
                (#[trigger] choices[k]).0,
            ) == normalised(d.groups[i].0),
{
    let g: int = d.groups.len() as int;
    let from: int = p * g;
    assert((p + 1) * g == from + g && from >= 0) by (nonlinear_arith)
        requires
            from == p * g,
            p >= 0,
            g > 0,
    ;
    let pass: Seq<Seq<char>> = Seq::new(g as nat, |k: int| normalised(choices[from + k].0));
    assert forall|a: int, b: int| 0 <= a < b < g implies pass[a] != pass[b] by {
        assert((from + a) / g == p && (from + b) / g == p) by {
            vstd::arithmetic::div_mod::lemma_fundamental_div_mod_converse(from + a, g, p, a);
            vstd::arithmetic::div_mod::lemma_fundamental_div_mod_converse(from + b, g, p, b);
        }
        law_no_repeat_within_a_pass(d, choices, from + a, from + b);
    }
    pass.unique_seq_to_set();
    let keys: Set<Seq<char>> = d.keys().to_set();
    d.keys().lemma_cardinality_of_set();
    assert(pass.to_set().subset_of(keys)) by {
        assert forall|x: Seq<char>| pass.to_set().contains(x) implies keys.contains(x) by {
            let k: int = choose|k: int| 0 <= k < pass.len() && pass[k] == x;
            let now: Draw = draw_at(d, choices, from + k);
            assert(now.allows(choices[from + k]));
            let j: int = choose|j: int| #[trigger]
                now.is_least(j) && choices[from + k].0 == now.groups[j].0
                    && now.groups[j].1.contains(choices[from + k].1);
            assert(now.is_open(j));
            assert(d.keys()[j] == x);
        }
    }
    vstd::set_lib::lemma_len_subset(pass.to_set(), keys);
    vstd::set_lib::lemma_subset_equality(pass.to_set(), keys);
    assert(d.keys()[i] == normalised(d.groups[i].0));
    assert(keys.contains(normalised(d.groups[i].0)));
    let k: int = choose|k: int| 0 <= k < pass.len() && pass[k] == normalised(d.groups[i].0);
    assert(normalised(choices[from + k].0) == normalised(d.groups[i].0));
}

/// How often a group was asked, by its name.
pub open spec fn asked_before(counts: Map<Seq<char>, i64>, group: Seq<char>) -> int {
    if counts.dom().contains(group) {
        counts[group] as int
    } else {
        0
    }
}

proof fn lemma_no_occurrence(s: Seq<Seq<char>>, x: Seq<char>)
    requires
        !s.contains(x),
    ensures
        occurrences(s, x) == 0,
    decreases s.len(),
{
    if s.len() > 0 {
        assert(s[s.len() - 1] != x) by {
            if s[s.len() - 1] == x {
                assert(s.contains(x));
            }
        }
        assert(!s.drop_last().contains(x)) by {
            if s.drop_last().contains(x) {
                let i: int = s.drop_last().index_of(x);
                assert(s[i] == x);
            }
        }
        lemma_no_occurrence(s.drop_last(), x);
    }
}

/// A category is drawn from a group that was asked no more often than any other
/// that is left: of those not drawn in the pass so far, nor asked recently, none
/// was asked less often before the round.
pub proof fn law_least_asked_groups_are_drawn(
    d: Draw,
    choices: Seq<(Seq<char>, u32)>,
    k: int,
    i: int,
)
    requires
        is_round(d, choices),
        0 <= k < choices.len(),
        k < d.groups.len(),
        0 <= i < d.groups.len(),
        forall|j: int| 0 <= j < k ==> normalised((#[trigger] choices[j]).0) != d.key(i),
        forall|j: int| 0 <= j < d.recent.len() ==> #[trigger] normalised(d.recent[j]) != d.key(i),
    ensures
        asked_before(d.counts, choices[k].0) <= asked_before(d.counts, d.groups[i].0),
{
    let now: Draw = draw_at(d, choices, k);
    assert(now.allows(choices[k]));
    let a: int = choose|a: int| #[trigger]
        now.is_least(a) && choices[k].0 == now.groups[a].0 && now.groups[a].1.contains(
            choices[k].1,
        );
    assert(now.chosen.len() == k);
    assert(k % d.groups.len() as int == k) by {
        vstd::arithmetic::div_mod::lemma_small_mod(k as nat, d.groups.len());
    }
    assert(now.pass_start() == 0);
    assert(now.key(i) == d.key(i));
    assert(!now.is_used(now.key(i))) by {
        if now.is_used(now.key(i)) {
            let j: int = choose|j: int|
                now.pass_start() <= j < now.chosen.len() && #[trigger] normalised(now.chosen[j])
                    == now.key(i);
            assert(now.chosen[j] == choices[j].0);
        }
    }
    assert(now.is_open(i));
    assert(now.is_fresh(i)) by {
        if k > 0 {
            assert(now.chosen.last() == choices[k - 1].0);
        }
    }
    assert(now.is_candidate(i));
    assert(!now.is_recent(i)) by {
        if now.is_recent(i) {
            let j: int = choose|j: int|
                0 <= j < now.recent.len() && #[trigger] normalised(now.recent[j]) == now.key(i);
            assert(normalised(d.recent[j]) == d.key(i));
        }
    }
    assert(now.is_preferred(i));
    assert(now.is_pooled(i));
    assert(now.tally(a) <= now.tally(i));
    assert(!now.chosen.contains(d.groups[i].0)) by {
        if now.chosen.contains(d.groups[i].0) {
            let j: int = now.chosen.index_of(d.groups[i].0);
            assert(now.chosen[j] == choices[j].0);
        }
    }
    lemma_no_occurrence(now.chosen, d.groups[i].0);
}

/// Within a pass, groups come in the order of how often they were asked: where
/// none was asked recently, no group is drawn before one that was asked less
/// often.
pub proof fn law_groups_come_in_order_of_use(
    d: Draw,
    choices: Seq<(Seq<char>, u32)>,
    i: int,
    j: int,
)
    requires
        is_round(d, choices),
        d.recent.len() == 0,
        0 <= i < j < choices.len(),
        j < d.groups.len(),
    ensures
        asked_before(d.counts, choices[i].0) <= asked_before(d.counts, choices[j].0),
{
    let now: Draw = draw_at(d, choices, j);
    assert(now.allows(choices[j]));
    let b: int = choose|b: int| #[trigger]
        now.is_least(b) && choices[j].0 == now.groups[b].0 && now.groups[b].1.contains(
            choices[j].1,
        );
    assert(now.is_open(b));
    assert forall|k: int| 0 <= k < i implies normalised((#[trigger] choices[k]).0) != d.key(b) by {
        vstd::arithmetic::div_mod::lemma_basic_div(k, d.groups.len() as int);
        vstd::arithmetic::div_mod::lemma_basic_div(j, d.groups.len() as int);
        law_no_repeat_within_a_pass(d, choices, k, j);
    }
    law_least_asked_groups_are_drawn(d, choices, i, b);
}

} // verus!
