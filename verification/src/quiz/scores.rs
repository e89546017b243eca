//! Who was right, who scored what, and what the room is told of it.

use vstd::prelude::*;

use crate::names::NameMap;
use crate::numbers::{decimal, push_nat};
use crate::order::{
    lemma_mapped_multiset, lemma_text_less_irreflexive, lemma_text_less_total,
    lemma_text_less_transitive, less, sort_ranked, text_less, Ranked,
};
use crate::quiz::answers::{
    choice_emoji, choice_of_emoji, emoji, law_emoji_reads_back, AnswerRecord, AnswerView,
};
use crate::text::{
    has_text, join, join_texts, law_joined_parts_are_there, lines_of, split_lines, stands_at, texts,
};

verus! {

// ── Right and wrong ──────────────────────────────────────────────────────────

/// A user and what they chose.
pub struct UserChoice {
    pub user: String,
    pub choice: u8,
}

impl View for UserChoice {
    type V = (Seq<char>, u8);

    open spec fn view(&self) -> (Seq<char>, u8) {
        (self.user@, self.choice)
    }
}

/// What a list of choices stands for.
pub open spec fn user_choices(v: Seq<UserChoice>) -> Seq<(Seq<char>, u8)> {
    v.map_values(|c: UserChoice| c@)
}

impl Ranked for UserChoice {
    open spec fn goes_before(self, other: UserChoice) -> bool {
        text_less(self.user@, other.user@)
    }

    proof fn before_asymmetric(a: UserChoice, b: UserChoice) {
        lemma_text_less_asymmetric(a.user@, b.user@);
    }

    proof fn before_splits(a: UserChoice, b: UserChoice, c: UserChoice) {
        lemma_text_less_splits(a.user@, b.user@, c.user@);
    }

    fn before(&self, other: &UserChoice) -> (r: bool) {
        less(self.user.as_str(), other.user.as_str())
    }
}

proof fn lemma_text_less_asymmetric(a: Seq<char>, b: Seq<char>)
    requires
        text_less(a, b),
    ensures
        !text_less(b, a),
{
    if text_less(b, a) {
        lemma_text_less_transitive(a, b, a);
        lemma_text_less_irreflexive(a);
    }
}

proof fn lemma_text_less_splits(a: Seq<char>, b: Seq<char>, c: Seq<char>)
    requires
        text_less(a, b),
    ensures
        text_less(a, c) || text_less(c, b),
{
    lemma_text_less_total(a, c);
    if text_less(c, a) {
        lemma_text_less_transitive(c, a, b);
    }
}

/// Whether users are listed by name, each once.
pub open spec fn by_name(v: Seq<(Seq<char>, u8)>) -> bool {
    forall|i: int, j: int|
        0 <= i < j < v.len() ==> text_less((#[trigger] v[i]).0, (#[trigger] v[j]).0)
}

/// Whether the choices in `r` are those of the answers that are right, or
/// those that are wrong, by name.
pub open spec fn lists_choices(
    r: Seq<(Seq<char>, u8)>,
    answers: Map<Seq<char>, AnswerView>,
    correct_index: u8,
    right: bool,
) -> bool {
    &&& by_name(r)
    &&& forall|k: Seq<char>, c: u8| #[trigger]
        r.contains((k, c)) <==> answers.dom().contains(k) && answers[k].choice == c && (c
            == correct_index) == right
}

/// The users who were right, or those who were wrong, by name.
pub fn choices_of(answers: &NameMap<AnswerRecord>, correct_index: u8, right: bool) -> (r: Vec<
    UserChoice,
>)
    ensures
        lists_choices(user_choices(r@), answers.answers(), correct_index, right),
{
    let ghost all: Map<Seq<char>, AnswerView> = answers.answers();
    let ghost keys: Seq<Seq<char>> = answers.keys();
    let mut list: Vec<UserChoice> = Vec::new();
    let n: usize = answers.len();
    let mut i: usize = 0;
    while i < n
        invariant
            i <= n,
            n == keys.len(),
            keys == answers.keys(),
            answers.listed(),
            all == answers.answers(),
            forall|k: Seq<char>, c: u8| #[trigger]
                user_choices(list@).contains((k, c)) <==> keys.take(i as int).contains(k)
                    && all[k].choice == c && (c == correct_index) == right,
            forall|a: int, b: int|
                0 <= a < b < list.len() ==> (#[trigger] list@[a]).user@ != (
                #[trigger] list@[b]).user@,
        decreases n - i,
    {
        let key: &String = answers.key_at(i);
        let record: AnswerRecord = *answers.value_at(i);
        let ghost before: Seq<UserChoice> = list@;
        let ghost old_views: Seq<(Seq<char>, u8)> = user_choices(before);
        assert(all[key@] == record@);
        if (record.choice == correct_index) == right {
            list.push(UserChoice { user: key.clone(), choice: record.choice });
        }
        proof {
            let views: Seq<(Seq<char>, u8)> = user_choices(list@);
            assert(!keys.take(i as int).contains(key@)) by {
                if keys.take(i as int).contains(key@) {
                    let j: int = keys.take(i as int).index_of(key@);
                    assert(keys[j] == keys[i as int]);
                }
            }
            if list.len() > before.len() {
                assert(views =~= old_views.push((key@, record.choice)));
            }
            assert forall|k: Seq<char>, c: u8| #[trigger]
                views.contains((k, c)) <==> keys.take(i + 1).contains(k) && all[k].choice == c && (c
                    == correct_index) == right by {
                lemma_take_has(keys, i as int, k);
                if list.len() > before.len() {
                    assert(views[before.len() as int] == (key@, record.choice));
                    if old_views.contains((k, c)) {
                        let j: int = old_views.index_of((k, c));
                        assert(views[j] == (k, c));
                    }
                    if views.contains((k, c)) {
                        let j: int = views.index_of((k, c));
                        if j < before.len() {
                            assert(old_views[j] == (k, c));
                        }
                    }
                } else {
                    assert(views == old_views);
                }
            }
            assert forall|a: int, b: int| 0 <= a < b < list.len() implies (#[trigger] list@[a]).user@
                != (#[trigger] list@[b]).user@ by {
                if b == before.len() {
                    assert(old_views[a] == before[a]@);
                    assert(old_views.contains((before[a].user@, before[a].choice)));
                }
            }
        }
        i = i + 1;
    }
    let ghost listed: Seq<UserChoice> = list@;
    let sorted = sort_ranked(list);
    proof {
        assert(keys.take(n as int) =~= keys);
        lemma_mapped_multiset(sorted@, listed, |c: UserChoice| c@);
        let a: Seq<(Seq<char>, u8)> = user_choices(listed);
        let b: Seq<(Seq<char>, u8)> = user_choices(sorted@);
        a.to_multiset_ensures();
        b.to_multiset_ensures();
        assert forall|k: Seq<char>, c: u8| #[trigger] b.contains((k, c)) <==> all.dom().contains(k)
            && all[k].choice == c && (c == correct_index) == right by {
            assert(b.to_multiset().count((k, c)) == a.to_multiset().count((k, c)));
            assert(b.contains((k, c)) <==> a.contains((k, c)));
            assert(answers@.dom().contains(k) <==> keys.contains(k));
        }
        assert(a.no_duplicates()) by {
            assert forall|i: int, j: int| 0 <= i < j < a.len() implies a[i] != a[j] by {
                assert(listed[i].user@ != listed[j].user@);
            }
        }
        lemma_users_distinct(a, b);
        assert forall|i: int, j: int| 0 <= i < j < b.len() implies text_less(
            (#[trigger] b[i]).0,
            (#[trigger] b[j]).0,
        ) by {
            assert(!sorted@[j].goes_before(sorted@[i]));
            lemma_text_less_total(b[i].0, b[j].0);
            assert(b.contains(b[i]) && b.contains(b[j]));
            assert(b.contains((b[i].0, b[i].1)) && b.contains((b[j].0, b[j].1)));
        }
    }
    sorted
}

proof fn lemma_take_has(s: Seq<Seq<char>>, i: int, k: Seq<char>)
    requires
        0 <= i < s.len(),
    ensures
        s.take(i + 1).contains(k) <==> s.take(i).contains(k) || k == s[i],
{
    assert(s.take(i + 1) =~= s.take(i).push(s[i]));
    if s.take(i).contains(k) {
        let j: int = s.take(i).index_of(k);
        assert(s.take(i + 1)[j] == k);
    }
    assert(s.take(i + 1)[i] == s[i]);
}

proof fn lemma_users_distinct<T>(a: Seq<T>, b: Seq<T>)
    requires
        a.to_multiset() == b.to_multiset(),
        a.no_duplicates(),
    ensures
        b.no_duplicates(),
{
    a.lemma_multiset_has_no_duplicates();
    b.lemma_multiset_has_no_duplicates_conv();
}

// ── Scores ───────────────────────────────────────────────────────────────────

/// The scores of a round by user: right answers, and questions.
pub open spec fn scored(
    scores: Map<Seq<char>, (u32, u32)>,
    answers: Map<Seq<char>, AnswerView>,
    correct_index: u8,
) -> Map<Seq<char>, (u32, u32)> {
    Map::new(
        |k: Seq<char>| scores.dom().contains(k) || answers.dom().contains(k),
        |k: Seq<char>|
            if answers.dom().contains(k) {
                let old_score: (u32, u32) = if scores.dom().contains(k) {
                    scores[k]
                } else {
                    (0, 0)
                };
                if answers[k].choice == correct_index {
                    ((old_score.0 + 1) as u32, (old_score.1 + 1) as u32)
                } else {
                    (old_score.0, (old_score.1 + 1) as u32)
                }
            } else {
                scores[k]
            },
    )
}

/// Whether every score can still grow.
pub open spec fn can_score(scores: Map<Seq<char>, (u32, u32)>) -> bool {
    forall|k: Seq<char>| #[trigger]
        scores.dom().contains(k) ==> scores[k].0 < u32::MAX && scores[k].1 < u32::MAX
}

/// Counts the answers to a question.
pub fn add_scores(
    scores: &mut NameMap<(u32, u32)>,
    answers: &NameMap<AnswerRecord>,
    correct_index: u8,
)
    requires
        can_score(old(scores)@),
    ensures
        final(scores)@ == scored(old(scores)@, answers.answers(), correct_index),
{
    let ghost before: Map<Seq<char>, (u32, u32)> = scores@;
    let ghost all: Map<Seq<char>, AnswerView> = answers.answers();
    let ghost target: Map<Seq<char>, (u32, u32)> = scored(before, all, correct_index);
    let ghost keys: Seq<Seq<char>> = answers.keys();
    let n: usize = answers.len();
    let mut i: usize = 0;
    while i < n
        invariant
            i <= n,
            n == keys.len(),
            keys == answers.keys(),
            answers.listed(),
            all == answers.answers(),
            target == scored(before, all, correct_index),
            can_score(before),
            forall|k: Seq<char>| #[trigger]
                scores@.dom().contains(k) <==> before.dom().contains(k) || keys.take(
                    i as int,
                ).contains(k),
            forall|k: Seq<char>|
                scores@.dom().contains(k) ==> #[trigger] scores@[k] == (if keys.take(
                    i as int,
                ).contains(k) {
                    target[k]
                } else {
                    before[k]
                }),
        decreases n - i,
    {
        let key: &String = answers.key_at(i);
        let record: AnswerRecord = *answers.value_at(i);
        proof {
            assert(all[key@] == record@);
            assert(!keys.take(i as int).contains(key@)) by {
                if keys.take(i as int).contains(key@) {
                    let j: int = keys.take(i as int).index_of(key@);
                    assert(keys[j] == keys[i as int]);
                }
            }
            assert forall|k: Seq<char>|
                keys.take(i + 1).contains(k) <==> keys.take(i as int).contains(k) || k
                    == keys[i as int] by {
                lemma_take_has(keys, i as int, k);
            }
            assert(scores@.dom().contains(key@) <==> before.dom().contains(key@));
        }
        let (right, total): (u32, u32) = match scores.get(key.as_str()) {
            Some(s) => (s.0, s.1),
            None => (0, 0),
        };
        let right_now: u32 = if record.choice == correct_index {
            right + 1
        } else {
            right
        };
        scores.insert(key.clone(), (right_now, total + 1));
        i = i + 1;
    }
    proof {
        assert(keys.take(n as int) =~= keys);
        assert forall|k: Seq<char>| scores@.dom().contains(k) <==> target.dom().contains(k) by {
            assert(answers@.dom().contains(k) <==> keys.contains(k));
        }
        assert forall|k: Seq<char>| scores@.dom().contains(k) implies scores@[k] == target[k] by {
            assert(answers@.dom().contains(k) <==> keys.contains(k));
        }
        assert(scores@ =~= target);
    }
}

/// The scores of a whole round: everyone who answered played all questions.
pub open spec fn finished(scores: Map<Seq<char>, (u32, u32)>, asked: u32) -> Map<
    Seq<char>,
    (u32, u32),
> {
    scores.map_values(|s: (u32, u32)| (s.0, asked))
}

/// Sets the number of questions of everyone who answered to that of the round.
pub fn finish_scores(scores: &mut NameMap<(u32, u32)>, asked: u32)
    ensures
        final(scores)@ == finished(old(scores)@, asked),
        final(scores).keys() == old(scores).keys(),
{
    let ghost before: Map<Seq<char>, (u32, u32)> = scores@;
    let ghost keys: Seq<Seq<char>> = scores.keys();
    let n: usize = scores.len();
    let mut i: usize = 0;
    while i < n
        invariant
            i <= n,
            n == keys.len(),
            keys == scores.keys(),
            keys.no_duplicates(),
            scores@.dom() == before.dom(),
            forall|k: Seq<char>| #[trigger] before.dom().contains(k) <==> keys.contains(k),
            forall|k: Seq<char>|
                before.dom().contains(k) ==> #[trigger] scores@[k] == (if keys.take(
                    i as int,
                ).contains(k) {
                    (before[k].0, asked)
                } else {
                    before[k]
                }),
        decreases n - i,
    {
        proof {
            assert forall|k: Seq<char>|
                keys.take(i + 1).contains(k) <==> keys.take(i as int).contains(k) || k
                    == keys[i as int] by {
                lemma_take_has(keys, i as int, k);
            }
        }
        let key: String = scores.key_at(i).clone();
        let right: u32 = scores.value_at(i).0;
        let ghost name: Seq<char> = key@;
        scores.insert(key, (right, asked));
        assert(scores@.dom() =~= before.dom());
        i = i + 1;
    }
    proof {
        assert(keys.take(n as int) =~= keys);
        assert(scores@ =~= finished(before, asked));
    }
}

/// The score of a user: nothing where there is none yet.
pub open spec fn score_of(scores: Map<Seq<char>, (u32, u32)>, user: Seq<char>) -> (u32, u32) {
    if scores.dom().contains(user) {
        scores[user]
    } else {
        (0, 0)
    }
}

/// Answering a question raises a user's questions by one, and their right
/// answers by one exactly if they chose the right one. Nobody else's score
/// changes, and nobody has more right answers than questions.
pub proof fn law_scores_count_answers(
    scores: Map<Seq<char>, (u32, u32)>,
    answers: Map<Seq<char>, AnswerView>,
    correct_index: u8,
    user: Seq<char>,
)
    requires
        can_score(scores),
        score_of(scores, user).0 <= score_of(scores, user).1,
    ensures
        ({
            let before: (u32, u32) = score_of(scores, user);
            let after: (u32, u32) = score_of(scored(scores, answers, correct_index), user);
            &&& answers.dom().contains(user) ==> after.1 == before.1 + 1
            &&& answers.dom().contains(user) ==> after.0 == before.0 + (if answers[user].choice
                == correct_index {
                1int
            } else {
                0
            })
            &&& !answers.dom().contains(user) ==> after == before
            &&& after.0 <= after.1
        }),
{
}

// ── Podium ───────────────────────────────────────────────────────────────────

/// A user's score in a round.
pub struct Placed {
    pub user: String,
    pub correct: u32,
    pub total: u32,
}

/// What a `Placed` stands for.
pub struct PlacedView {
    pub user: Seq<char>,
    pub correct: u32,
    pub total: u32,
}

impl View for Placed {
    type V = PlacedView;

    open spec fn view(&self) -> PlacedView {
        PlacedView { user: self.user@, correct: self.correct, total: self.total }
    }
}

/// What a list of scores stands for.
pub open spec fn placed_views(v: Seq<Placed>) -> Seq<PlacedView> {
    v.map_values(|p: Placed| p@)
}

/// Whether `a` stands above `b`: more right answers, or as many and the name
/// first.
pub open spec fn stands_above(a: PlacedView, b: PlacedView) -> bool {
    a.correct > b.correct || a.correct == b.correct && text_less(a.user, b.user)
}

impl Ranked for Placed {
    open spec fn goes_before(self, other: Placed) -> bool {
        stands_above(self@, other@)
    }

    proof fn before_asymmetric(a: Placed, b: Placed) {
        if a.correct == b.correct {
            lemma_text_less_asymmetric(a.user@, b.user@);
        }
    }

    proof fn before_splits(a: Placed, b: Placed, c: Placed) {
        if a.correct == b.correct && b.correct == c.correct {
            lemma_text_less_splits(a.user@, b.user@, c.user@);
        }
    }

    fn before(&self, other: &Placed) -> (r: bool) {
        self.correct > other.correct || self.correct == other.correct && less(
            self.user.as_str(),
            other.user.as_str(),
        )
    }
}

/// Whether `r` lists the scores, the best first.
pub open spec fn is_podium(r: Seq<PlacedView>, scores: Map<Seq<char>, (u32, u32)>) -> bool {
    &&& forall|i: int, j: int|
        0 <= i < j < r.len() ==> stands_above(#[trigger] r[i], #[trigger] r[j])
    &&& forall|p: PlacedView| #[trigger]
        r.contains(p) <==> scores.dom().contains(p.user) && scores[p.user] == (p.correct, p.total)
}

/// The scores of a round, the best first.
pub fn podium(scores: &NameMap<(u32, u32)>) -> (r: Vec<Placed>)
    ensures
        is_podium(placed_views(r@), scores@),
        r.len() == scores.keys().len(),
{
    let ghost keys: Seq<Seq<char>> = scores.keys();
    let ghost all: Map<Seq<char>, (u32, u32)> = scores@;
    let mut list: Vec<Placed> = Vec::new();
    let n: usize = scores.len();
    let mut i: usize = 0;
    while i < n
        invariant
            i <= n,
            n == keys.len(),
            keys == scores.keys(),
            all == scores@,
            scores.listed(),
            list.len() == i,
            forall|j: int|
                0 <= j < i ==> (#[trigger] list@[j])@ == (PlacedView {
                    user: keys[j],
                    correct: all[keys[j]].0,
                    total: all[keys[j]].1,
                }),
        decreases n - i,
    {
        let key: String = scores.key_at(i).clone();
        let value: &(u32, u32) = scores.value_at(i);
        list.push(Placed { user: key, correct: value.0, total: value.1 });
        i = i + 1;
    }
    let ghost listed: Seq<Placed> = list@;
    let sorted = sort_ranked(list);
    proof {
        lemma_mapped_multiset(sorted@, listed, |p: Placed| p@);
        let a: Seq<PlacedView> = placed_views(listed);
        let b: Seq<PlacedView> = placed_views(sorted@);
        a.to_multiset_ensures();
        b.to_multiset_ensures();
        assert forall|p: PlacedView| #[trigger] b.contains(p) <==> all.dom().contains(p.user)
            && all[p.user] == (p.correct, p.total) by {
            assert(b.to_multiset().count(p) == a.to_multiset().count(p));
            assert(b.contains(p) <==> a.contains(p));
            assert(all.dom().contains(p.user) <==> keys.contains(p.user));
            if a.contains(p) {
                let j: int = a.index_of(p);
                assert(a[j] == listed[j]@);
                assert(keys[j] == p.user);
            }
            if keys.contains(p.user) && all[p.user] == (p.correct, p.total) {
                let j: int = keys.index_of(p.user);
                assert(a[j] == listed[j]@);
                assert(a[j] == p);
            }
        }
        assert(a.no_duplicates()) by {
            assert forall|i: int, j: int| 0 <= i < j < a.len() implies a[i] != a[j] by {
                assert(a[i] == listed[i]@ && a[j] == listed[j]@);
                assert(keys[i] != keys[j]);
            }
        }
        lemma_users_distinct(a, b);
        assert forall|i: int, j: int| 0 <= i < j < b.len() implies stands_above(
            #[trigger] b[i],
            #[trigger] b[j],
        ) by {
            assert(!sorted@[j].goes_before(sorted@[i]));
            assert(b.contains(b[i]) && b.contains(b[j]));
            lemma_text_less_total(b[i].user, b[j].user);
        }
        assert(sorted.len() == n) by {
            sorted@.to_multiset_ensures();
            listed.to_multiset_ensures();
        }
    }
    sorted
}

// ── Messages ─────────────────────────────────────────────────────────────────

/// The users of a list of choices.
pub open spec fn names_of(v: Seq<(Seq<char>, u8)>) -> Seq<Seq<char>> {
    v.map_values(|c: (Seq<char>, u8)| c.0)
}

/// A wrong answer: who, and what they chose.
pub open spec fn wrong_text(c: (Seq<char>, u8)) -> Seq<char> {
    c.0 + " ("@ + (match emoji(c.1 as int) {
        Some(e) => e,
        None => "?"@,
    }) + ")"@
}

/// The lines that tell how a question went.
pub open spec fn result_of(
    correct_index: u8,
    correct_text: Seq<char>,
    right: Seq<(Seq<char>, u8)>,
    wrong: Seq<(Seq<char>, u8)>,
    pause: Option<u64>,
) -> Seq<Seq<char>> {
    seq!["✅ "@ + emoji(correct_index as int)->0 + " **"@ + correct_text + "**"@] + (if right.len()
        == 0 && wrong.len() == 0 {
        seq!["No answers."@]
    } else if right.len() == 0 {
        seq!["Nobody got it right 😅"@]
    } else {
        seq!["🎉 "@ + join(names_of(right), ", "@)]
    }) + (if wrong.len() > 0 {
        seq!["❌ "@ + join(wrong.map_values(|c: (Seq<char>, u8)| wrong_text(c)), ", "@)]
    } else {
        Seq::empty()
    }) + (match pause {
        Some(secs) => seq!["⏭️ Next in "@ + decimal(secs as nat) + "s"@],
        None => Seq::empty(),
    })
}

fn user_names(list: &Vec<UserChoice>) -> (r: Vec<String>)
    ensures
        texts(r@) == names_of(user_choices(list@)),
{
    let mut out: Vec<String> = Vec::new();
    let mut i: usize = 0;
    while i < list.len()
        invariant
            i <= list.len(),
            out.len() == i,
            forall|j: int| 0 <= j < i ==> (#[trigger] out@[j])@ == list@[j].user@,
        decreases list.len() - i,
    {
        out.push(list[i].user.clone());
        i = i + 1;
    }
    assert(texts(out@) =~= names_of(user_choices(list@)));
    out
}

fn wrong_texts(list: &Vec<UserChoice>) -> (r: Vec<String>)
    ensures
        texts(r@) == user_choices(list@).map_values(|c: (Seq<char>, u8)| wrong_text(c)),
{
    let mut out: Vec<String> = Vec::new();
    let mut i: usize = 0;
    while i < list.len()
        invariant
            i <= list.len(),
            out.len() == i,
            forall|j: int| 0 <= j < i ==> (#[trigger] out@[j])@ == wrong_text(list@[j]@),
        decreases list.len() - i,
    {
        let mut line = list[i].user.clone();
        line.append(" (");
        match choice_emoji(list[i].choice as usize) {
            Some(e) => line.append(e),
            None => line.append("?"),
        }
        line.append(")");
        out.push(line);
        i = i + 1;
    }
    assert(texts(out@) =~= user_choices(list@).map_values(|c: (Seq<char>, u8)| wrong_text(c)));
    out
}

/// The message that tells how a question went: the right answer, who had it,
/// who had not, and, with a `pause`, when the next question comes.
pub fn result_text(
    correct_index: u8,
    correct_text: &str,
    right: &Vec<UserChoice>,
    wrong: &Vec<UserChoice>,
    pause: Option<u64>,
) -> (r: String)
    requires
        correct_index < 4,
    ensures
        r@ == join(
            result_of(
                correct_index,
                correct_text@,
                user_choices(right@),
                user_choices(wrong@),
                pause,
            ),
            "\n"@,
        ),
{
    let mut lines: Vec<String> = Vec::new();
    let mut head = String::new();
    head.append("✅ ");
    match choice_emoji(correct_index as usize) {
        Some(e) => head.append(e),
        None => {},
    }
    head.append(" **");
    head.append(correct_text);
    head.append("**");
    lines.push(head);
    assert(user_choices(right@).len() == right.len() && user_choices(wrong@).len() == wrong.len());
    if right.len() == 0 && wrong.len() == 0 {
        lines.push("No answers.".to_owned());
    } else if right.len() == 0 {
        lines.push("Nobody got it right 😅".to_owned());
    } else {
        let mut line = "🎉 ".to_owned();
        line.append(join_texts(&user_names(right), ", ").as_str());
        lines.push(line);
    }
    if wrong.len() > 0 {
        let mut line = "❌ ".to_owned();
        line.append(join_texts(&wrong_texts(wrong), ", ").as_str());
        lines.push(line);
    }
    match pause {
        Some(secs) => {
            let mut line = "⏭️ Next in ".to_owned();
            push_nat(&mut line, secs);
            line.append("s");
            lines.push(line);
        },
        None => {},
    }
    assert(texts(lines@) =~= result_of(
        correct_index,
        correct_text@,
        user_choices(right@),
        user_choices(wrong@),
        pause,
    ));
    join_texts(&lines, "\n")
}

/// The mark of a place.
pub open spec fn medal_of(place: int) -> Seq<char> {
    if place == 0 {
        "🥇"@
    } else if place == 1 {
        "🥈"@
    } else if place == 2 {
        "🥉"@
    } else {
        "▪️"@
    }
}

/// The mark of a place.
pub fn medal(place: usize) -> (r: &'static str)
    ensures
        r@ == medal_of(place as int),
{
    if place == 0 {
        "🥇"
    } else if place == 1 {
        "🥈"
    } else if place == 2 {
        "🥉"
    } else {
        "▪️"
    }
}

/// How many places the summary of a round shows.
pub const PODIUM_PLACES: usize = 5;

/// The line of a place.
pub open spec fn place_line(place: int, p: PlacedView, asked: nat) -> Seq<char> {
    medal_of(place) + " "@ + p.user + " · "@ + decimal(p.correct as nat) + "/"@ + decimal(asked)
}

/// The lines that sum up a round, without the leaderboard of the month.
pub open spec fn summary_of(asked: nat, places: Seq<PlacedView>) -> Seq<Seq<char>> {
    let shown: int = if places.len() < PODIUM_PLACES {
        places.len() as int
    } else {
        PODIUM_PLACES as int
    };
    seq!["🏁 Round done · "@ + decimal(asked) + " Qs"@, ""@] + (if places.len() == 0 {
        seq!["Nobody got it right."@]
    } else {
        seq!["🎯 This round:"@] + places.take(shown).map(
            |i: int, p: PlacedView| place_line(i, p, asked),
        )
    })
}

/// The message that sums up a round: the best places, and the leaderboard of
/// the month where there is one.
pub fn summary_text(asked: u32, places: &Vec<Placed>, board: Option<&str>) -> (r: String)
    ensures
        r@ == join(
            summary_of(asked as nat, placed_views(places@)) + (match board {
                Some(b) => seq![""@] + lines_of(b@),
                None => Seq::empty(),
            }),
            "\n"@,
        ),
{
    let ghost views: Seq<PlacedView> = placed_views(places@);
    let ghost n: nat = asked as nat;
    let mut lines: Vec<String> = Vec::new();
    let mut head = "🏁 Round done · ".to_owned();
    push_nat(&mut head, asked as u64);
    head.append(" Qs");
    lines.push(head);
    lines.push("".to_owned());
    if places.len() == 0 {
        lines.push("Nobody got it right.".to_owned());
        assert(texts(lines@) =~= summary_of(n, views));
    } else {
        lines.push("🎯 This round:".to_owned());
        let ghost top: Seq<Seq<char>> = texts(lines@);
        let mut i: usize = 0;
        while i < places.len() && i < PODIUM_PLACES
            invariant
                i <= places.len(),
                i <= PODIUM_PLACES,
                views == placed_views(places@),
                n == asked,
                texts(lines@) == top + views.take(i as int).map(
                    |j: int, p: PlacedView| place_line(j, p, n),
                ),
            decreases places.len() - i,
        {
            let ghost before: Seq<String> = lines@;
            let mut line = medal(i).to_owned();
            line.append(" ");
            line.append(places[i].user.as_str());
            line.append(" · ");
            push_nat(&mut line, places[i].correct as u64);
            line.append("/");
            push_nat(&mut line, asked as u64);
            let ghost text: Seq<char> = line@;
            lines.push(line);
            proof {
                assert(text == place_line(i as int, views[i as int], n));
                assert(texts(lines@) =~= texts(before).push(text));
                assert(views.take(i + 1).map(|j: int, p: PlacedView| place_line(j, p, n))
                    =~= views.take(i as int).map(
                    |j: int, p: PlacedView| place_line(j, p, n),
                ).push(text));
            }
            i = i + 1;
        }
        assert(texts(lines@) =~= summary_of(n, views));
    }
    match board {
        Some(b) => {
            let ghost before: Seq<String> = lines@;
            lines.push("".to_owned());
            let mut more = split_lines(b);
            let ghost added: Seq<String> = more@;
            lines.append(&mut more);
            assert(texts(lines@) =~= texts(before) + (seq![""@] + texts(added)));
        },
        None => {
            assert(texts(lines@) =~= summary_of(n, views) + Seq::<Seq<char>>::empty());
        },
    }
    join_texts(&lines, "\n")
}

/// The names of `base`, with those of `over` in their place where there are.
pub fn merge_names(base: NameMap<String>, over: &NameMap<String>) -> (r: NameMap<String>)
    ensures
        forall|k: Seq<char>| #[trigger]
            r@.dom().contains(k) <==> base@.dom().contains(k) || over@.dom().contains(k),
        forall|k: Seq<char>|
            r@.dom().contains(k) ==> (#[trigger] r@[k])@ == (if over@.dom().contains(k) {
                over@[k]@
            } else {
                base@[k]@
            }),
{
    let mut out = base;
    let ghost keys: Seq<Seq<char>> = over.keys();
    let n: usize = over.len();
    let mut i: usize = 0;
    while i < n
        invariant
            i <= n,
            n == keys.len(),
            keys == over.keys(),
            over.listed(),
            forall|k: Seq<char>| #[trigger]
                out@.dom().contains(k) <==> base@.dom().contains(k) || keys.take(i as int).contains(
                    k,
                ),
            forall|k: Seq<char>|
                out@.dom().contains(k) ==> (#[trigger] out@[k])@ == (if keys.take(
                    i as int,
                ).contains(k) {
                    over@[k]@
                } else {
                    base@[k]@
                }),
        decreases n - i,
    {
        proof {
            assert forall|k: Seq<char>|
                keys.take(i + 1).contains(k) <==> keys.take(i as int).contains(k) || k
                    == keys[i as int] by {
                lemma_take_has(keys, i as int, k);
            }
        }
        let key: String = over.key_at(i).clone();
        let name: String = over.value_at(i).clone();
        let ghost was: Map<Seq<char>, String> = out@;
        out.insert(key, name);
        proof {
            assert forall|k: Seq<char>| out@.dom().contains(k) implies (#[trigger] out@[k])@ == (
            if keys.take(i + 1).contains(k) {
                over@[k]@
            } else {
                base@[k]@
            }) by {
                if k != keys[i as int] {
                    assert(out@[k] == was[k]);
                    assert(was.dom().contains(k));
                    assert(keys.take(i + 1).contains(k) == keys.take(i as int).contains(k));
                } else {
                    assert(out@[k]@ == over@[k]@);
                    lemma_take_has(keys, i as int, k);
                }
            }
        }
        i = i + 1;
    }
    assert(keys.take(n as int) =~= keys);
    out
}

// ── Laws ─────────────────────────────────────────────────────────────────────

/// The podium is sorted by right answers, then by name, and everyone who has a
/// score is on it once, with that score.
pub proof fn law_podium_ranks_everyone(
    r: Seq<PlacedView>,
    scores: Map<Seq<char>, (u32, u32)>,
    i: int,
    j: int,
    user: Seq<char>,
)
    requires
        is_podium(r, scores),
        0 <= i < j < r.len(),
    ensures
        r[i].correct >= r[j].correct,
        r[i].correct == r[j].correct ==> text_less(r[i].user, r[j].user),
        r[i].user != r[j].user,
        scores.dom().contains(r[i].user) && scores[r[i].user] == (r[i].correct, r[i].total),
        scores.dom().contains(user) ==> r.contains(
            PlacedView { user, correct: scores[user].0, total: scores[user].1 },
        ),
{
    assert(stands_above(r[i], r[j]));
    assert(r.contains(r[i]) && r.contains(r[j]));
    if r[i].user == r[j].user {
        lemma_text_less_irreflexive(r[i].user);
    }
    if scores.dom().contains(user) {
        let p: PlacedView = PlacedView { user, correct: scores[user].0, total: scores[user].1 };
        assert(scores.dom().contains(p.user) && scores[p.user] == (p.correct, p.total));
    }
}

/// Right and wrong are parted by the right choice: whoever answered is on
/// exactly one of the two lists, with what they chose, and nobody else is.
pub proof fn law_everyone_is_right_or_wrong(
    right: Seq<(Seq<char>, u8)>,
    wrong: Seq<(Seq<char>, u8)>,
    answers: Map<Seq<char>, AnswerView>,
    correct_index: u8,
    user: Seq<char>,
    choice: u8,
)
    requires
        lists_choices(right, answers, correct_index, true),
        lists_choices(wrong, answers, correct_index, false),
    ensures
        answers.dom().contains(user) && answers[user].choice == correct_index ==> right.contains(
            (user, correct_index),
        ),
        answers.dom().contains(user) && answers[user].choice != correct_index ==> wrong.contains(
            (user, answers[user].choice),
        ),
        right.contains((user, choice)) ==> answers.dom().contains(user) && answers[user].choice
            == choice && choice == correct_index && !wrong.contains((user, choice)),
        wrong.contains((user, choice)) ==> answers.dom().contains(user) && answers[user].choice
            == choice && choice != correct_index,
{
    if answers.dom().contains(user) {
        assert(right.contains((user, answers[user].choice)) == (answers[user].choice
            == correct_index));
        assert(wrong.contains((user, answers[user].choice)) == (answers[user].choice
            != correct_index));
    }
}

/// At the end of a round right answers stay as they are, and everyone who
/// answered has played all questions.
pub proof fn law_finished_scores_keep_right_answers(
    scores: Map<Seq<char>, (u32, u32)>,
    asked: u32,
    user: Seq<char>,
)
    ensures
        finished(scores, asked).dom() == scores.dom(),
        scores.dom().contains(user) ==> finished(scores, asked)[user].0 == scores[user].0
            && finished(scores, asked)[user].1 == asked,
{
    assert(finished(scores, asked).dom() =~= scores.dom());
}

/// What is told of a question names the right answer behind its mark, everyone
/// who was right, everyone who was wrong with the mark of what they chose, and
/// how long the pause is, if there is one.
pub proof fn law_results_name_everyone(
    correct_index: u8,
    correct_text: Seq<char>,
    right: Seq<(Seq<char>, u8)>,
    wrong: Seq<(Seq<char>, u8)>,
    pause: Option<u64>,
)
    requires
        correct_index < 4,
    ensures
        ({
            let lines: Seq<Seq<char>> = result_of(correct_index, correct_text, right, wrong, pause);
            &&& exists|mark: Seq<char>| #[trigger]
                choice_of_emoji(mark) == Some(correct_index) && lines[0] == "✅ "@ + mark + " **"@
                    + correct_text + "**"@
            &&& forall|i: int|
                0 <= i < right.len() ==> has_text(lines[1], (#[trigger] right[i]).0)
            &&& right.len() > 0 ==> lines[1] == "🎉 "@ + join(names_of(right), ", "@)
            &&& right.len() == 0 && wrong.len() > 0 ==> lines[1] == "Nobody got it right 😅"@
            &&& right.len() == 0 && wrong.len() == 0 ==> lines[1] == "No answers."@
            &&& forall|i: int|
                0 <= i < wrong.len() && wrong[i].1 < 4 ==> has_text(
                    lines[2],
                    (#[trigger] wrong[i]).0 + " ("@ + emoji(wrong[i].1 as int)->0 + ")"@,
                )
            &&& pause is Some ==> lines.last() == "⏭️ Next in "@ + decimal(pause->0 as nat) + "s"@
            &&& lines.len() == 2 + (if wrong.len() > 0 {
                1int
            } else {
                0
            }) + (if pause is Some {
                1int
            } else {
                0
            })
        }),
{
    let lines: Seq<Seq<char>> = result_of(correct_index, correct_text, right, wrong, pause);
    law_emoji_reads_back(correct_index);
    let mark: Seq<char> = emoji(correct_index as int)->0;
    assert(choice_of_emoji(mark) == Some(correct_index));
    assert forall|i: int| 0 <= i < right.len() implies has_text(
        lines[1],
        (#[trigger] right[i]).0,
    ) by {
        let names: Seq<Seq<char>> = names_of(right);
        law_joined_parts_are_there(names, ", "@, i);
        lemma_has_text_behind("🎉 "@, join(names, ", "@), names[i]);
    }
    assert forall|i: int| 0 <= i < wrong.len() && wrong[i].1 < 4 implies has_text(
        lines[2],
        (#[trigger] wrong[i]).0 + " ("@ + emoji(wrong[i].1 as int)->0 + ")"@,
    ) by {
        let parts: Seq<Seq<char>> = wrong.map_values(|c: (Seq<char>, u8)| wrong_text(c));
        law_joined_parts_are_there(parts, ", "@, i);
        law_emoji_reads_back(wrong[i].1);
        assert(parts[i] == wrong[i].0 + " ("@ + emoji(wrong[i].1 as int)->0 + ")"@);
        lemma_has_text_behind("❌ "@, join(parts, ", "@), parts[i]);
    }
}

/// What stands in a text stands in it behind another one too.
pub proof fn lemma_has_text_behind(front: Seq<char>, text: Seq<char>, p: Seq<char>)
    requires
        has_text(text, p),
    ensures
        has_text(front + text, p),
{
    let k: int = choose|k: int| stands_at(text, p, k);
    let at: int = front.len() + k;
    assert((front + text).subrange(at, at + p.len()) =~= text.subrange(k, k + p.len()));
    assert(stands_at(front + text, p, at));
}

/// The first three places have marks of their own, and all others share one.
pub proof fn law_medals_are_for_three_places(place: int, other: int)
    requires
        0 <= place < 3,
        0 <= other,
        place != other,
    ensures
        medal_of(place) != medal_of(other),
        medal_of(place) == seq!["🥇"@, "🥈"@, "🥉"@][place],
        other >= 3 ==> medal_of(other) == "▪️"@,
{
    reveal_strlit("🥇");
    reveal_strlit("🥈");
    reveal_strlit("🥉");
    reveal_strlit("▪️");
    assert("🥇"@[0] == '🥇' && "🥈"@[0] == '🥈' && "🥉"@[0] == '🥉' && "▪️"@[0] == '▪');
}

/// The summary of a round shows the best five, each at their place, with their
/// right answers of the questions that were asked.
pub proof fn law_summary_shows_the_best_five(asked: nat, places: Seq<PlacedView>, i: int)
    requires
        0 <= i < places.len(),
        i < 5,
    ensures
        summary_of(asked, places)[3 + i] == medal_of(i) + " "@ + places[i].user + " · "@ + decimal(
            places[i].correct as nat,
        ) + "/"@ + decimal(asked),
        summary_of(asked, places).len() == 3 + (if places.len() < 5 {
            places.len()
        } else {
            5
        }),
        summary_of(asked, places)[0] == "🏁 Round done · "@ + decimal(asked) + " Qs"@,
{
}

/// A wrong answer is shown with the mark of the choice that was made, or with a
/// question mark where there is no such choice.
pub proof fn law_wrong_answers_show_the_choice(user: Seq<char>, choice: u8)
    ensures
        choice < 4 ==> choice_of_emoji(emoji(choice as int)->0) == Some(choice) && wrong_text(
            (user, choice),
        ) == user + " ("@ + emoji(choice as int)->0 + ")"@,
        choice >= 4 ==> wrong_text((user, choice)) == user + " (?)"@,
{
    if choice < 4 {
        law_emoji_reads_back(choice);
    } else {
        reveal_strlit(" (?)");
        reveal_strlit(" (");
        reveal_strlit("?");
        reveal_strlit(")");
        assert(wrong_text((user, choice)) =~= user + " (?)"@);
    }
}

} // verus!
