//! Category groups: which there are, which are active, and what belongs to
//! which.

use vstd::prelude::*;

use crate::letters::{ascii_lower, is_ascii, is_ascii_char, lower, lowered};
use crate::text::{
    chars_of, contains_text, has_prefix, is_white, join, join_chars, lemma_replace_absent,
    lemma_word_len, opt_str, replace_char, same, split_words, substitute, texts, trim_end_of,
    trim_start_of, trim_text, trimmed, word_len, words, CharClass,
};

verus! {

// ── Names ────────────────────────────────────────────────────────────────────

/// A category name as it is matched: in lower case, with "and" for "&" and
/// one space between words.
pub open spec fn normalised(s: Seq<char>) -> Seq<char> {
    join(words(replace_char(lowered(trimmed(s)), '&', " and "@)), " "@)
}

/// Normalises a category name for matching, see `normalised`.
pub fn normalise(s: &str) -> (r: String)
    ensures
        r@ == normalised(s@),
{
    let trimmed_text = trim_text(s);
    let low = lower(trimmed_text.as_str());
    let spelled = substitute(&chars_of(low.as_str()), '&', " and ");
    join_chars(&split_words(&spelled), " ")
}

/// Normalises each name of a list.
pub fn normalise_all(names: &[String]) -> (r: Vec<String>)
    ensures
        texts(r@) == texts(names@).map_values(|s: Seq<char>| normalised(s)),
{
    let mut out: Vec<String> = Vec::new();
    let mut i: usize = 0;
    while i < names.len()
        invariant
            i <= names.len(),
            texts(out@) == texts(names@).take(i as int).map_values(|s: Seq<char>| normalised(s)),
        decreases names.len() - i,
    {
        let ghost before: Seq<String> = out@;
        let key = normalise(names[i].as_str());
        out.push(key);
        proof {
            assert(texts(out@) =~= texts(before).push(normalised(names@[i as int]@)));
            assert(texts(names@).take(i + 1) =~= texts(names@).take(i as int).push(
                names@[i as int]@,
            ));
        }
        i = i + 1;
    }
    assert(texts(names@).take(names.len() as int) == texts(names@));
    out
}

// ── Groups ───────────────────────────────────────────────────────────────────

/// A category group: its name and the OpenTDB categories in it.
pub struct CategoryGroup {
    pub name: &'static str,
    pub ids: Vec<u32>,
}

impl View for CategoryGroup {
    type V = (Seq<char>, Seq<u32>);

    open spec fn view(&self) -> (Seq<char>, Seq<u32>) {
        (self.name@, self.ids@)
    }
}

impl CategoryGroup {
    /// A copy.
    pub fn copy(&self) -> (r: CategoryGroup)
        ensures
            r@ == self@,
    {
        let mut ids: Vec<u32> = Vec::new();
        let mut i: usize = 0;
        while i < self.ids.len()
            invariant
                i <= self.ids.len(),
                ids@ == self.ids@.take(i as int),
            decreases self.ids.len() - i,
        {
            ids.push(self.ids[i]);
            i = i + 1;
        }
        CategoryGroup { name: self.name, ids }
    }

    /// Whether the category `id` belongs to the group.
    pub fn has_id(&self, id: u32) -> (r: bool)
        ensures
            r == self@.1.contains(id),
    {
        let mut i: usize = 0;
        while i < self.ids.len()
            invariant
                i <= self.ids.len(),
                forall|j: int| 0 <= j < i ==> self.ids@[j] != id,
            decreases self.ids.len() - i,
        {
            if self.ids[i] == id {
                return true;
            }
            i = i + 1;
        }
        false
    }
}

/// What a list of groups stands for.
pub open spec fn group_views(v: Seq<CategoryGroup>) -> Seq<(Seq<char>, Seq<u32>)> {
    v.map_values(|g: CategoryGroup| g@)
}

/// All category groups.
pub open spec fn group_table() -> Seq<(Seq<char>, Seq<u32>)> {
    seq![
        ("General Knowledge"@, seq![9u32]),
        ("Entertainment"@, seq![10u32, 11, 12, 13, 14, 15, 16, 29, 31, 32]),
        ("Science & Technology"@, seq![17u32, 18, 19, 30]),
        ("Mythology"@, seq![20u32]),
        ("Sports"@, seq![21u32]),
        ("Geography"@, seq![22u32]),
        ("History"@, seq![23u32]),
        ("Politics"@, seq![24u32]),
        ("Art"@, seq![25u32]),
        ("Celebrities"@, seq![26u32]),
        ("Animals"@, seq![27u32]),
        ("Vehicles"@, seq![28u32]),
    ]
}

/// All category groups. A group is drawn before a category within it, so that
/// a group with many categories is not drawn more often than one with few.
pub fn category_groups() -> (r: Vec<CategoryGroup>)
    ensures
        group_views(r@) == group_table(),
        r.len() == 12,
{
    let r: Vec<CategoryGroup> = vec![
        CategoryGroup { name: "General Knowledge", ids: vec![9] },
        CategoryGroup {
            name: "Entertainment",
            ids: vec![10, 11, 12, 13, 14, 15, 16, 29, 31, 32],
        },
        CategoryGroup { name: "Science & Technology", ids: vec![17, 18, 19, 30] },
        CategoryGroup { name: "Mythology", ids: vec![20] },
        CategoryGroup { name: "Sports", ids: vec![21] },
        CategoryGroup { name: "Geography", ids: vec![22] },
        CategoryGroup { name: "History", ids: vec![23] },
        CategoryGroup { name: "Politics", ids: vec![24] },
        CategoryGroup { name: "Art", ids: vec![25] },
        CategoryGroup { name: "Celebrities", ids: vec![26] },
        CategoryGroup { name: "Animals", ids: vec![27] },
        CategoryGroup { name: "Vehicles", ids: vec![28] },
    ];
    assert(group_views(r@) =~~= group_table());
    r
}

/// The group of an OpenTDB category name.
pub open spec fn group_of(category: Seq<char>) -> Option<Seq<char>> {
    let c: Seq<char> = normalised(category);
    if c == "general knowledge"@ {
        Some("General Knowledge"@)
    } else if c == "science and nature"@ || c == "science: computers"@ || c
        == "science: mathematics"@ || c == "science: gadgets"@ {
        Some("Science & Technology"@)
    } else if c == "mythology"@ {
        Some("Mythology"@)
    } else if c == "sports"@ {
        Some("Sports"@)
    } else if c == "geography"@ {
        Some("Geography"@)
    } else if c == "history"@ {
        Some("History"@)
    } else if c == "politics"@ {
        Some("Politics"@)
    } else if c == "art"@ {
        Some("Art"@)
    } else if c == "celebrities"@ {
        Some("Celebrities"@)
    } else if c == "animals"@ {
        Some("Animals"@)
    } else if c == "vehicles"@ {
        Some("Vehicles"@)
    } else if "entertainment:"@.is_prefix_of(c) {
        Some("Entertainment"@)
    } else {
        None
    }
}

/// Maps an OpenTDB category name to its group, if it has one.
pub fn category_group_for_category(category: &str) -> (r: Option<&'static str>)
    ensures
        opt_str(r) == group_of(category@),
{
    let key = normalise(category);
    let c: &str = key.as_str();
    if same(c, "general knowledge") {
        Some("General Knowledge")
    } else if same(c, "science and nature") || same(c, "science: computers") || same(
        c,
        "science: mathematics",
    ) || same(c, "science: gadgets") {
        Some("Science & Technology")
    } else if same(c, "mythology") {
        Some("Mythology")
    } else if same(c, "sports") {
        Some("Sports")
    } else if same(c, "geography") {
        Some("Geography")
    } else if same(c, "history") {
        Some("History")
    } else if same(c, "politics") {
        Some("Politics")
    } else if same(c, "art") {
        Some("Art")
    } else if same(c, "celebrities") {
        Some("Celebrities")
    } else if same(c, "animals") {
        Some("Animals")
    } else if same(c, "vehicles") {
        Some("Vehicles")
    } else if has_prefix(c, "entertainment:") {
        Some("Entertainment")
    } else {
        None
    }
}

/// The group of a category, or its own name where it has none.
pub open spec fn group_label(category: Seq<char>) -> Seq<char> {
    match group_of(category) {
        Some(g) => g,
        None => category,
    }
}

/// The group of a category, or its own name where it has none.
pub fn category_group_label(category: &str) -> (r: String)
    ensures
        r@ == group_label(category@),
{
    match category_group_for_category(category) {
        Some(g) => g.to_owned(),
        None => category.to_owned(),
    }
}

/// The first of `groups` that holds the OpenTDB category `id`.
pub open spec fn find_id(groups: Seq<(Seq<char>, Seq<u32>)>, id: u32) -> Option<Seq<char>>
    decreases groups.len(),
{
    if groups.len() == 0 {
        None
    } else if groups[0].1.contains(id) {
        Some(groups[0].0)
    } else {
        find_id(groups.skip(1), id)
    }
}

/// The group that holds the OpenTDB category `id`, if one does.
pub fn category_group_for_id(id: u32) -> (r: Option<&'static str>)
    ensures
        opt_str(r) == find_id(group_table(), id),
{
    let groups = category_groups();
    let ghost table: Seq<(Seq<char>, Seq<u32>)> = group_views(groups@);
    let mut i: usize = 0;
    assert(table.skip(0) == table);
    while i < groups.len()
        invariant
            i <= groups.len(),
            table == group_views(groups@),
            table == group_table(),
            find_id(table, id) == find_id(table.skip(i as int), id),
        decreases groups.len() - i,
    {
        assert(table.skip(i as int)[0] == groups@[i as int]@);
        assert(table.skip(i as int).skip(1) == table.skip(i + 1));
        if groups[i].has_id(id) {
            return Some(groups[i].name);
        }
        i = i + 1;
    }
    None
}

// ── Active groups ────────────────────────────────────────────────────────────

/// Whether the configured exclusions name the group.
pub open spec fn is_excluded(name: Seq<char>, excluded: Seq<Seq<char>>) -> bool {
    exists|i: int| 0 <= i < excluded.len() && #[trigger] normalised(excluded[i]) == normalised(name)
}

/// The groups that no exclusion names.
pub open spec fn kept_groups(excluded: Seq<Seq<char>>) -> Seq<(Seq<char>, Seq<u32>)> {
    group_table().filter(|g: (Seq<char>, Seq<u32>)| !is_excluded(g.0, excluded))
}

/// The groups that questions are drawn from: those that no exclusion names,
/// or all of them where that leaves none.
pub open spec fn active_table(excluded: Seq<Seq<char>>) -> Seq<(Seq<char>, Seq<u32>)> {
    if kept_groups(excluded).len() == 0 {
        group_table()
    } else {
        kept_groups(excluded)
    }
}

/// The groups that no exclusion names, see `kept_groups`.
pub fn groups_kept(excluded: &[String]) -> (r: Vec<CategoryGroup>)
    ensures
        group_views(r@) == kept_groups(texts(excluded@)),
{
    let ghost ex: Seq<Seq<char>> = texts(excluded@);
    let ghost keep = |g: (Seq<char>, Seq<u32>)| !is_excluded(g.0, ex);
    let excluded_norm = normalise_all(excluded);
    let all = category_groups();
    let mut kept: Vec<CategoryGroup> = Vec::new();
    let ghost table: Seq<(Seq<char>, Seq<u32>)> = group_views(all@);
    let mut i: usize = 0;
    assert(table.take(0).filter(keep) == Seq::<(Seq<char>, Seq<u32>)>::empty()) by {
        reveal(Seq::filter);
    }
    while i < all.len()
        invariant
            i <= all.len(),
            table == group_table(),
            table == group_views(all@),
            keep == (|g: (Seq<char>, Seq<u32>)| !is_excluded(g.0, ex)),
            texts(excluded_norm@) == ex.map_values(|s: Seq<char>| normalised(s)),
            group_views(kept@) == table.take(i as int).filter(keep),
        decreases all.len() - i,
    {
        let ghost g: (Seq<char>, Seq<u32>) = table[i as int];
        assert(g == all@[i as int]@);
        let name = normalise(all[i].name);
        let out: bool = contains_text(&excluded_norm, name.as_str());
        proof {
            let norm: Seq<Seq<char>> = texts(excluded_norm@);
            if out {
                let j: int = choose|j: int| 0 <= j < norm.len() && norm[j] == name@;
                assert(normalised(ex[j]) == normalised(g.0));
            }
            if is_excluded(g.0, ex) {
                let j: int = choose|j: int|
                    0 <= j < ex.len() && #[trigger] normalised(ex[j]) == normalised(g.0);
                assert(norm[j] == name@);
            }
            assert(table.take(i + 1).drop_last() =~= table.take(i as int));
            assert(table.take(i + 1).last() == g);
            reveal(Seq::filter);
        }
        if !out {
            let ghost before: Seq<CategoryGroup> = kept@;
            kept.push(all[i].copy());
            assert(group_views(kept@) =~= group_views(before).push(g));
        }
        i = i + 1;
    }
    assert(table.take(all.len() as int) == table);
    kept
}

/// The groups that questions are drawn from, see `active_table`.
pub fn active_groups(excluded: &[String]) -> (r: Vec<CategoryGroup>)
    ensures
        group_views(r@) == active_table(texts(excluded@)),
        r.len() > 0,
{
    let kept = groups_kept(excluded);
    assert(kept.len() == group_views(kept@).len());
    if kept.len() == 0 {
        category_groups()
    } else {
        kept
    }
}

/// Whether questions of a category are asked: those of no group, and those of
/// an active one.
pub open spec fn is_active(category: Seq<char>, excluded: Seq<Seq<char>>) -> bool {
    match group_of(category) {
        Some(g) => exists|i: int|
            0 <= i < active_table(excluded).len() && #[trigger] normalised(
                active_table(excluded)[i].0,
            ) == normalised(g),
        None => true,
    }
}

/// Whether questions of a category are asked, see `is_active`.
pub fn category_is_active(category: &str, excluded: &[String]) -> (r: bool)
    ensures
        r == is_active(category@, texts(excluded@)),
{
    match category_group_for_category(category) {
        None => true,
        Some(group) => {
            let groups = active_groups(excluded);
            let key = normalise(group);
            let mut i: usize = 0;
            while i < groups.len()
                invariant
                    i <= groups.len(),
                    group_views(groups@) == active_table(texts(excluded@)),
                    key@ == normalised(group@),
                    group_of(category@) == Some(group@),
                    forall|j: int|
                        0 <= j < i ==> normalised(active_table(texts(excluded@))[j].0) != key@,
                decreases groups.len() - i,
            {
                assert(group_views(groups@)[i as int].0 == groups@[i as int].name@);
                if same(normalise(groups[i].name).as_str(), key.as_str()) {
                    assert(normalised(active_table(texts(excluded@))[i as int].0) == normalised(
                        group@,
                    ));
                    return true;
                }
                i = i + 1;
            }
            false
        },
    }
}

// ── Distinct names ───────────────────────────────────────────────────────────

proof fn lemma_trim_end_keeps(s: Seq<char>, m: int)
    requires
        0 < m <= s.len(),
        !is_white(s[m - 1]),
    ensures
        m <= trim_end_of(s, CharClass::White).len() <= s.len(),
        trim_end_of(s, CharClass::White) == s.take(trim_end_of(s, CharClass::White).len() as int),
    decreases s.len(),
{
    if CharClass::White.has(s.last()) {
        lemma_trim_end_keeps(s.drop_last(), m);
        let n: int = trim_end_of(s, CharClass::White).len() as int;
        assert(s.drop_last().take(n) =~= s.take(n));
    } else {
        assert(s.take(s.len() as int) =~= s);
    }
}

proof fn lemma_replace_keeps(s: Seq<char>, c: char, with: Seq<char>, m: int)
    requires
        0 <= m <= s.len(),
        forall|i: int| 0 <= i < m ==> s[i] != c,
    ensures
        replace_char(s, c, with).len() >= m,
        replace_char(s, c, with).take(m) == s.take(m),
    decreases s.len(),
{
    if s.len() > 0 {
        let k: int = if m < s.len() {
            m
        } else {
            m - 1
        };
        lemma_replace_keeps(s.drop_last(), c, with, k);
        let r: Seq<char> = replace_char(s.drop_last(), c, with);
        let whole: Seq<char> = replace_char(s, c, with);
        if m == s.len() {
            lemma_replace_absent(s, c, with);
        } else {
            assert forall|i: int| 0 <= i < m implies whole[i] == s[i] by {
                assert(r.take(k)[i] == s.drop_last().take(k)[i]);
            }
            assert(whole.take(m) =~= s.take(m));
        }
    } else {
        assert(replace_char(s, c, with).take(m) =~= s.take(m));
    }
}

proof fn lemma_join_starts(parts: Seq<Seq<char>>, sep: Seq<char>)
    requires
        parts.len() > 0,
    ensures
        parts[0].is_prefix_of(join(parts, sep)),
    decreases parts.len(),
{
    if parts.len() > 1 {
        lemma_join_starts(parts.drop_last(), sep);
    }
}

proof fn lemma_word_covers(s: Seq<char>, m: int)
    requires
        0 <= m <= s.len(),
        forall|i: int| 0 <= i < m ==> !is_white(s[i]),
    ensures
        word_len(s) >= m,
{
    lemma_word_len(s);
    if word_len(s) < m {
        assert(is_white(s[word_len(s) as int]));
    }
}

/// A name that begins with `m` letters keeps them, in lower case.
pub proof fn lemma_normalised_start(s: Seq<char>, m: int)
    requires
        0 < m <= s.len(),
        is_ascii(s),
        forall|i: int| 0 <= i < m ==> !is_white(s[i]) && s[i] != '&',
    ensures
        normalised(s).len() >= m,
        forall|i: int| 0 <= i < m ==> #[trigger] normalised(s)[i] == ascii_lower(s[i]),
{
    assert(trim_start_of(s, CharClass::White) == s);
    lemma_trim_end_keeps(s, m);
    let t: Seq<char> = trimmed(s);
    assert(is_ascii(t)) by {
        assert forall|i: int| 0 <= i < t.len() implies is_ascii_char(#[trigger] t[i]) by {
            assert(t[i] == s[i]);
        }
    }
    let low: Seq<char> = lowered(t);
    assert forall|i: int| 0 <= i < m implies !is_white(low[i]) && low[i] != '&' && low[i]
        == ascii_lower(s[i]) by {
        assert(t[i] == s[i]);
    }
    let spelled: Seq<char> = replace_char(low, '&', " and "@);
    lemma_replace_keeps(low, '&', " and "@, m);
    assert forall|i: int| 0 <= i < m implies spelled[i] == low[i] by {
        assert(spelled.take(m)[i] == low.take(m)[i]);
    }
    lemma_word_covers(spelled, m);
    lemma_word_len(spelled);
    let w: Seq<Seq<char>> = words(spelled);
    assert(w[0] == spelled.take(word_len(spelled) as int));
    lemma_join_starts(w, " "@);
    assert forall|i: int| 0 <= i < m implies #[trigger] normalised(s)[i] == ascii_lower(s[i]) by {
        assert(w[0][i] == spelled[i]);
    }
}

/// The names of the groups as they are matched.
pub open spec fn group_keys(groups: Seq<(Seq<char>, Seq<u32>)>) -> Seq<Seq<char>> {
    groups.map_values(|g: (Seq<char>, Seq<u32>)| normalised(g.0))
}

/// No two groups match the same name.
proof fn lemma_table_keys()
    ensures
        group_keys(group_table()).no_duplicates(),
{
    let keys: Seq<Seq<char>> = group_keys(group_table());
    reveal_strlit("General Knowledge");
    reveal_strlit("Entertainment");
    reveal_strlit("Science & Technology");
    reveal_strlit("Mythology");
    reveal_strlit("Sports");
    reveal_strlit("Geography");
    reveal_strlit("History");
    reveal_strlit("Politics");
    reveal_strlit("Art");
    reveal_strlit("Celebrities");
    reveal_strlit("Animals");
    reveal_strlit("Vehicles");
    lemma_normalised_start("General Knowledge"@, 3);
    lemma_normalised_start("Entertainment"@, 3);
    lemma_normalised_start("Science & Technology"@, 3);
    lemma_normalised_start("Mythology"@, 3);
    lemma_normalised_start("Sports"@, 3);
    lemma_normalised_start("Geography"@, 3);
    lemma_normalised_start("History"@, 3);
    lemma_normalised_start("Politics"@, 3);
    lemma_normalised_start("Art"@, 3);
    lemma_normalised_start("Celebrities"@, 3);
    lemma_normalised_start("Animals"@, 3);
    lemma_normalised_start("Vehicles"@, 3);
    assert(keys[0][0] == 'g' && keys[0][2] == 'n');
    assert(keys[1][0] == 'e');
    assert(keys[2][0] == 's' && keys[2][1] == 'c');
    assert(keys[3][0] == 'm');
    assert(keys[4][0] == 's' && keys[4][1] == 'p');
    assert(keys[5][0] == 'g' && keys[5][2] == 'o');
    assert(keys[6][0] == 'h');
    assert(keys[7][0] == 'p');
    assert(keys[8][0] == 'a' && keys[8][1] == 'r');
    assert(keys[9][0] == 'c');
    assert(keys[10][0] == 'a' && keys[10][1] == 'n');
    assert(keys[11][0] == 'v');
}

/// Keys stay distinct where groups are left out.
proof fn lemma_filter_keys(
    groups: Seq<(Seq<char>, Seq<u32>)>,
    keep: spec_fn((Seq<char>, Seq<u32>)) -> bool,
)
    requires
        group_keys(groups).no_duplicates(),
    ensures
        group_keys(groups.filter(keep)).no_duplicates(),
        forall|k: Seq<char>| #[trigger]
            group_keys(groups.filter(keep)).contains(k) ==> group_keys(groups).contains(k),
    decreases groups.len(),
{
    reveal(Seq::filter);
    if groups.len() > 0 {
        let head: Seq<(Seq<char>, Seq<u32>)> = groups.drop_last();
        let last: (Seq<char>, Seq<u32>) = groups.last();
        assert(group_keys(groups).drop_last() =~= group_keys(head));
        assert(group_keys(groups) =~= group_keys(head).push(normalised(last.0)));
        lemma_filter_keys(head, keep);
        let kept: Seq<Seq<char>> = group_keys(head.filter(keep));
        assert forall|k: Seq<char>| #[trigger]
            group_keys(groups.filter(keep)).contains(k) implies group_keys(groups).contains(k) by {
            if keep(last) {
                assert(group_keys(groups.filter(keep)) =~= kept.push(normalised(last.0)));
            }
            if kept.contains(k) {
                assert(group_keys(head).contains(k));
                let i: int = group_keys(head).index_of(k);
                assert(group_keys(groups)[i] == k);
            } else {
                assert(group_keys(groups)[groups.len() - 1] == k);
            }
        }
        if keep(last) {
            assert(group_keys(groups.filter(keep)) =~= kept.push(normalised(last.0)));
            if kept.contains(normalised(last.0)) {
                let i: int = group_keys(head).index_of(normalised(last.0));
                assert(group_keys(groups)[i] == group_keys(groups)[groups.len() - 1]);
            }
        }
    }
}

/// No two active groups match the same name.
pub proof fn lemma_active_keys(excluded: Seq<Seq<char>>)
    ensures
        group_keys(active_table(excluded)).no_duplicates(),
        active_table(excluded).len() > 0,
{
    lemma_table_keys();
    lemma_filter_keys(
        group_table(),
        |g: (Seq<char>, Seq<u32>)| !is_excluded(g.0, excluded),
    );
}

/// Every active group holds a category.
pub proof fn lemma_active_ids(excluded: Seq<Seq<char>>, i: int)
    requires
        0 <= i < active_table(excluded).len(),
    ensures
        active_table(excluded)[i].1.len() > 0,
{
    let keep = |g: (Seq<char>, Seq<u32>)| !is_excluded(g.0, excluded);
    if kept_groups(excluded).len() > 0 {
        let g: (Seq<char>, Seq<u32>) = kept_groups(excluded)[i];
        assert(kept_groups(excluded).contains(g));
        group_table().lemma_filter_contains_rev(keep, g);
        let j: int = choose|j: int| 0 <= j < group_table().len() && group_table()[j] == g;
        assert(group_table()[j].1.len() > 0);
    }
}

} // verus!
