//! Text as sequences of characters: trimming, words, lines, joining,
//! searching and replacing.

use vstd::prelude::*;

verus! {

// ── Trusted items of std ─────────────────────────────────────────────────────

/// `String::push` appends one character and changes nothing else.
pub assume_specification[ String::push ](s: &mut String, c: char)
    ensures
        final(s)@ == old(s)@.push(c),
;

/// `==` on `str` holds exactly of two strings with the same characters.
pub assume_specification[ <str as PartialEq>::eq ](a: &str, b: &str) -> (r: bool)
    ensures
        r == (a@ == b@),
;

// ── Conversions ──────────────────────────────────────────────────────────────

/// The characters of `s`, in order.
pub fn chars_of(s: &str) -> (r: Vec<char>)
    ensures
        r@ == s@,
{
    let mut out: Vec<char> = Vec::new();
    for c in it: s.chars()
        invariant
            out@ == s@.take(it.index()),
            it.seq() == s@,
    {
        out.push(c);
    }
    out
}

/// The string made of `v`.
pub fn text_of(v: &Vec<char>) -> (r: String)
    ensures
        r@ == v@,
{
    let mut out = String::new();
    let mut i: usize = 0;
    while i < v.len()
        invariant
            i <= v.len(),
            out@ == v@.take(i as int),
        decreases v.len() - i,
    {
        out.push(v[i]);
        i = i + 1;
    }
    out
}

/// Whether two strings hold the same characters.
pub fn same(a: &str, b: &str) -> (r: bool)
    ensures
        r == (a@ == b@),
{
    *a == *b
}

/// The texts of a list of strings.
pub open spec fn texts(v: Seq<String>) -> Seq<Seq<char>> {
    v.map_values(|s: String| s@)
}

/// The text of an optional string slice.
pub open spec fn opt_str(s: Option<&str>) -> Option<Seq<char>> {
    match s {
        Some(t) => Some(t@),
        None => None,
    }
}

/// The text of an optional string.
pub open spec fn opt_text(s: Option<String>) -> Option<Seq<char>> {
    match s {
        Some(t) => Some(t@),
        None => None,
    }
}

/// The texts of a list of character vectors.
pub open spec fn char_texts(v: Seq<Vec<char>>) -> Seq<Seq<char>> {
    v.map_values(|s: Vec<char>| s@)
}

/// A copy of a list of strings.
pub fn clone_texts(v: &Vec<String>) -> (r: Vec<String>)
    ensures
        texts(r@) == texts(v@),
        r@ == v@,
{
    let mut out: Vec<String> = Vec::new();
    let mut i: usize = 0;
    while i < v.len()
        invariant
            i <= v.len(),
            out@ == v@.take(i as int),
        decreases v.len() - i,
    {
        out.push(v[i].clone());
        i = i + 1;
    }
    out
}

/// Whether `v` holds a string equal to `s`.
pub fn contains_text(v: &Vec<String>, s: &str) -> (r: bool)
    ensures
        r == texts(v@).contains(s@),
{
    let mut i: usize = 0;
    while i < v.len()
        invariant
            i <= v.len(),
            forall|j: int| 0 <= j < i ==> v@[j]@ != s@,
        decreases v.len() - i,
    {
        if same(v[i].as_str(), s) {
            assert(texts(v@)[i as int] == s@);
            return true;
        }
        i = i + 1;
    }
    proof {
        if texts(v@).contains(s@) {
            let j: int = choose|j: int| 0 <= j < texts(v@).len() && texts(v@)[j] == s@;
            assert(v@[j]@ == s@);
        }
    }
    false
}

// ── Character classes ────────────────────────────────────────────────────────

/// Unicode's `White_Space` property.
pub open spec fn is_white(c: char) -> bool {
    ||| '\u{9}' <= c <= '\u{d}'
    ||| c == ' '
    ||| c == '\u{85}'
    ||| c == '\u{a0}'
    ||| c == '\u{1680}'
    ||| '\u{2000}' <= c <= '\u{200a}'
    ||| c == '\u{2028}'
    ||| c == '\u{2029}'
    ||| c == '\u{202f}'
    ||| c == '\u{205f}'
    ||| c == '\u{3000}'
}

/// Whether `c` is white space.
pub fn white(c: char) -> (r: bool)
    ensures
        r == is_white(c),
{
    ('\u{9}' <= c && c <= '\u{d}') || c == ' ' || c == '\u{85}' || c == '\u{a0}' || c == '\u{1680}'
        || ('\u{2000}' <= c && c <= '\u{200a}') || c == '\u{2028}' || c == '\u{2029}' || c
        == '\u{202f}' || c == '\u{205f}' || c == '\u{3000}'
}

/// Unicode's general category `Cc`.
pub open spec fn is_control(c: char) -> bool {
    c <= '\u{1f}' || '\u{7f}' <= c <= '\u{9f}'
}

/// Whether `c` is a control code.
pub fn control(c: char) -> (r: bool)
    ensures
        r == is_control(c),
{
    c <= '\u{1f}' || ('\u{7f}' <= c && c <= '\u{9f}')
}

/// The sets of characters that the bot trims.
pub enum CharClass {
    /// White space.
    White,
    /// `"` and `'`.
    Quote,
    /// `@`.
    At,
    /// What may number or bullet a list item.
    ListMark,
}

impl CharClass {
    /// The members of the class.
    pub open spec fn has(self, c: char) -> bool {
        match self {
            CharClass::White => is_white(c),
            CharClass::Quote => c == '"' || c == '\'',
            CharClass::At => c == '@',
            CharClass::ListMark => '0' <= c <= '9' || c == '.' || c == ')' || c == '-' || c == '*'
                || c == ' ',
        }
    }

    /// Whether `c` belongs to the class.
    pub fn holds(&self, c: char) -> (r: bool)
        ensures
            r == self.has(c),
    {
        match self {
            CharClass::White => white(c),
            CharClass::Quote => c == '"' || c == '\'',
            CharClass::At => c == '@',
            CharClass::ListMark => ('0' <= c && c <= '9') || c == '.' || c == ')' || c == '-' || c
                == '*' || c == ' ',
        }
    }
}

// ── Trimming ─────────────────────────────────────────────────────────────────

/// `s` without its longest prefix of members of `class`.
pub open spec fn trim_start_of(s: Seq<char>, class: CharClass) -> Seq<char>
    decreases s.len(),
{
    if s.len() > 0 && class.has(s[0]) {
        trim_start_of(s.skip(1), class)
    } else {
        s
    }
}

/// `s` without its longest suffix of members of `class`.
pub open spec fn trim_end_of(s: Seq<char>, class: CharClass) -> Seq<char>
    decreases s.len(),
{
    if s.len() > 0 && class.has(s.last()) {
        trim_end_of(s.drop_last(), class)
    } else {
        s
    }
}

/// `s` without members of `class` at either end.
pub open spec fn trim_of(s: Seq<char>, class: CharClass) -> Seq<char> {
    trim_end_of(trim_start_of(s, class), class)
}

/// `s` without white space at either end.
pub open spec fn trimmed(s: Seq<char>) -> Seq<char> {
    trim_of(s, CharClass::White)
}

proof fn lemma_trim_start_end(s: Seq<char>)
    ensures
        trim_start_of(s, CharClass::White).len() > 0 ==> !is_white(
            trim_start_of(s, CharClass::White)[0],
        ),
    decreases s.len(),
{
    if s.len() > 0 && is_white(s[0]) {
        lemma_trim_start_end(s.skip(1));
    }
}

/// What trimming leaves of the end is the front part of a text, and does not end
/// in white space.
pub proof fn lemma_trim_end_part(s: Seq<char>)
    ensures
        ({
            let t: Seq<char> = trim_end_of(s, CharClass::White);
            &&& t.len() > 0 ==> !is_white(t.last())
            &&& t.len() <= s.len()
            &&& t == s.take(t.len() as int)
        }),
    decreases s.len(),
{
    if s.len() > 0 && is_white(s.last()) {
        lemma_trim_end_part(s.drop_last());
        let t: Seq<char> = trim_end_of(s, CharClass::White);
        assert(s.drop_last().take(t.len() as int) =~= s.take(t.len() as int));
    } else {
        assert(s.take(s.len() as int) =~= s);
    }
}

/// A trimmed text neither begins nor ends in white space.
pub proof fn lemma_trimmed_ends(s: Seq<char>)
    ensures
        trimmed(s).len() > 0 ==> !is_white(trimmed(s)[0]) && !is_white(trimmed(s).last()),
{
    lemma_trim_start_end(s);
    lemma_trim_end_part(trim_start_of(s, CharClass::White));
}

/// A text that neither begins nor ends in white space has nothing to trim.
pub proof fn lemma_nothing_to_trim(s: Seq<char>)
    requires
        s.len() > 0 ==> !is_white(s[0]) && !is_white(s.last()),
    ensures
        trimmed(s) == s,
{
}

/// Whether nothing but white space is in `s`.
pub open spec fn is_blank(s: Seq<char>) -> bool {
    trimmed(s).len() == 0
}

/// `v` without its longest prefix of members of `class`.
pub fn trim_start(v: &Vec<char>, class: &CharClass) -> (r: Vec<char>)
    ensures
        r@ == trim_start_of(v@, *class),
{
    let mut i: usize = 0;
    assert(v@.skip(0) == v@);
    while i < v.len() && class.holds(v[i])
        invariant
            i <= v.len(),
            trim_start_of(v@, *class) == trim_start_of(v@.skip(i as int), *class),
        decreases v.len() - i,
    {
        assert(v@.skip(i as int).skip(1) == v@.skip(i + 1));
        i = i + 1;
    }
    copy_range(v, i, v.len())
}

/// `v` without its longest suffix of members of `class`.
pub fn trim_end(v: &Vec<char>, class: &CharClass) -> (r: Vec<char>)
    ensures
        r@ == trim_end_of(v@, *class),
{
    let mut n: usize = v.len();
    assert(v@.take(n as int) == v@);
    while n > 0 && class.holds(v[n - 1])
        invariant
            n <= v.len(),
            trim_end_of(v@, *class) == trim_end_of(v@.take(n as int), *class),
        decreases n,
    {
        assert(v@.take(n as int).drop_last() == v@.take(n - 1));
        n = n - 1;
    }
    assert(v@.take(n as int) == v@.subrange(0, n as int));
    copy_range(v, 0, n)
}

/// `v` without members of `class` at either end.
pub fn trim_both(v: &Vec<char>, class: &CharClass) -> (r: Vec<char>)
    ensures
        r@ == trim_of(v@, *class),
{
    let t = trim_start(v, class);
    trim_end(&t, class)
}

/// `v` without white space at either end.
pub fn trim(v: &Vec<char>) -> (r: Vec<char>)
    ensures
        r@ == trimmed(v@),
{
    trim_both(v, &CharClass::White)
}

/// The text `s` without white space at either end.
pub fn trim_text(s: &str) -> (r: String)
    ensures
        r@ == trimmed(s@),
{
    text_of(&trim(&chars_of(s)))
}

/// Whether nothing but white space is in `s`.
pub fn blank(s: &str) -> (r: bool)
    ensures
        r == is_blank(s@),
{
    trim(&chars_of(s)).len() == 0
}

/// The characters of `v` from `from` up to `to`.
pub fn copy_range(v: &Vec<char>, from: usize, to: usize) -> (r: Vec<char>)
    requires
        from <= to <= v.len(),
    ensures
        r@ == v@.subrange(from as int, to as int),
{
    let mut out: Vec<char> = Vec::new();
    let mut i: usize = from;
    while i < to
        invariant
            from <= i <= to <= v.len(),
            out@ == v@.subrange(from as int, i as int),
        decreases to - i,
    {
        out.push(v[i]);
        i = i + 1;
    }
    out
}

// ── Words, lines and joining ─────────────────────────────────────────────────

/// The length of the longest prefix of `s` without white space.
pub open spec fn word_len(s: Seq<char>) -> nat
    decreases s.len(),
{
    if s.len() > 0 && !is_white(s[0]) {
        1 + word_len(s.skip(1))
    } else {
        0
    }
}

/// The maximal runs of `s` without white space, in order.
pub open spec fn words(s: Seq<char>) -> Seq<Seq<char>>
    decreases s.len(),
{
    if s.len() == 0 {
        Seq::empty()
    } else if is_white(s[0]) {
        words(s.skip(1))
    } else {
        let n: nat = word_len(s);
        if 0 < n <= s.len() {
            seq![s.take(n as int)] + words(s.skip(n as int))
        } else {
            Seq::empty()
        }
    }
}

/// A run without white space lies within the text.
pub proof fn lemma_word_len(s: Seq<char>)
    ensures
        word_len(s) <= s.len(),
        s.len() > 0 && !is_white(s[0]) ==> word_len(s) > 0,
        forall|i: int| 0 <= i < word_len(s) ==> !is_white(s[i]),
        word_len(s) < s.len() ==> is_white(s[word_len(s) as int]),
    decreases s.len(),
{
    if s.len() > 0 && !is_white(s[0]) {
        lemma_word_len(s.skip(1));
        assert forall|i: int| 0 <= i < word_len(s) implies !is_white(s[i]) by {
            if i > 0 {
                assert(s.skip(1)[i - 1] == s[i]);
            }
        }
        if word_len(s) < s.len() {
            assert(s.skip(1)[word_len(s.skip(1)) as int] == s[word_len(s) as int]);
        }
    }
}

/// The maximal runs of `v` without white space, in order.
pub fn split_words(v: &Vec<char>) -> (r: Vec<Vec<char>>)
    ensures
        char_texts(r@) == words(v@),
{
    let mut out: Vec<Vec<char>> = Vec::new();
    let mut i: usize = 0;
    assert(v@.skip(0) == v@);
    assert(char_texts(out@) + words(v@.skip(0)) == words(v@));
    while i < v.len()
        invariant
            i <= v.len(),
            char_texts(out@) + words(v@.skip(i as int)) == words(v@),
        decreases v.len() - i,
    {
        if white(v[i]) {
            assert(v@.skip(i as int).skip(1) == v@.skip(i + 1));
            i = i + 1;
        } else {
            let ghost rest: Seq<char> = v@.skip(i as int);
            let mut j: usize = i;
            assert(v@.skip(j as int) == rest);
            while j < v.len() && !white(v[j])
                invariant
                    i <= j <= v.len(),
                    rest == v@.skip(i as int),
                    word_len(rest) == (j - i) + word_len(v@.skip(j as int)),
                decreases v.len() - j,
            {
                assert(v@.skip(j as int).skip(1) == v@.skip(j + 1));
                j = j + 1;
            }
            proof {
                lemma_word_len(rest);
            }
            let ghost before: Seq<Vec<char>> = out@;
            out.push(copy_range(v, i, j));
            proof {
                assert(rest.take(j - i) == v@.subrange(i as int, j as int));
                assert(rest.skip(j - i) == v@.skip(j as int));
                assert(char_texts(out@) == char_texts(before).push(rest.take(j - i)));
                assert(char_texts(out@) + words(v@.skip(j as int)) == char_texts(before) + (seq![
                    rest.take(j - i),
                ] + words(v@.skip(j as int))));
            }
            i = j;
        }
    }
    assert(words(v@.skip(v.len() as int)) == Seq::<Seq<char>>::empty());
    assert(char_texts(out@) == words(v@));
    out
}

/// The parts, with `sep` between each two neighbours.
pub open spec fn join(parts: Seq<Seq<char>>, sep: Seq<char>) -> Seq<char>
    decreases parts.len(),
{
    if parts.len() == 0 {
        Seq::empty()
    } else if parts.len() == 1 {
        parts[0]
    } else {
        join(parts.drop_last(), sep) + sep + parts.last()
    }
}

/// The strings of `parts`, with `sep` between each two neighbours.
pub fn join_texts(parts: &Vec<String>, sep: &str) -> (r: String)
    ensures
        r@ == join(texts(parts@), sep@),
{
    let mut out = String::new();
    let mut i: usize = 0;
    while i < parts.len()
        invariant
            i <= parts.len(),
            out@ == join(texts(parts@).take(i as int), sep@),
        decreases parts.len() - i,
    {
        let ghost done: Seq<Seq<char>> = texts(parts@).take(i + 1);
        assert(done.drop_last() == texts(parts@).take(i as int));
        if i > 0 {
            out.append(sep);
        }
        out.append(parts[i].as_str());
        i = i + 1;
    }
    assert(texts(parts@).take(parts.len() as int) == texts(parts@));
    out
}

/// The character vectors of `parts`, with `sep` between each two neighbours.
pub fn join_chars(parts: &Vec<Vec<char>>, sep: &str) -> (r: String)
    ensures
        r@ == join(char_texts(parts@), sep@),
{
    let mut out = String::new();
    let mut i: usize = 0;
    while i < parts.len()
        invariant
            i <= parts.len(),
            out@ == join(char_texts(parts@).take(i as int), sep@),
        decreases parts.len() - i,
    {
        let ghost done: Seq<Seq<char>> = char_texts(parts@).take(i + 1);
        assert(done.drop_last() == char_texts(parts@).take(i as int));
        if i > 0 {
            out.append(sep);
        }
        out.append(text_of(&parts[i]).as_str());
        i = i + 1;
    }
    assert(char_texts(parts@).take(parts.len() as int) == char_texts(parts@));
    out
}

// ── Searching ────────────────────────────────────────────────────────────────

/// The index of the first `c` in `s`, or the length of `s` where there is none.
pub open spec fn find_char(s: Seq<char>, c: char) -> nat
    decreases s.len(),
{
    if s.len() == 0 || s[0] == c {
        0
    } else {
        1 + find_char(s.skip(1), c)
    }
}

/// `find_char` names the first occurrence.
pub proof fn lemma_find_char(s: Seq<char>, c: char)
    ensures
        find_char(s, c) <= s.len(),
        forall|i: int| 0 <= i < find_char(s, c) ==> s[i] != c,
        find_char(s, c) < s.len() ==> s[find_char(s, c) as int] == c,
        find_char(s, c) < s.len() <==> s.contains(c),
    decreases s.len(),
{
    if s.len() > 0 && s[0] != c {
        lemma_find_char(s.skip(1), c);
        assert forall|i: int| 0 <= i < find_char(s, c) implies s[i] != c by {
            if i > 0 {
                assert(s.skip(1)[i - 1] == s[i]);
            }
        }
        if find_char(s, c) < s.len() {
            assert(s.skip(1)[find_char(s.skip(1), c) as int] == s[find_char(s, c) as int]);
        }
    }
}

/// The first occurrence is where `c` stands with none before it.
pub proof fn lemma_find_char_at(s: Seq<char>, c: char, n: int)
    requires
        0 <= n <= s.len(),
        forall|i: int| 0 <= i < n ==> s[i] != c,
        n < s.len() ==> s[n] == c,
    ensures
        find_char(s, c) == n,
{
    lemma_find_char(s, c);
    if find_char(s, c) < n {
        assert(s[find_char(s, c) as int] == c);
    } else if find_char(s, c) > n {
        assert(s[n] != c);
    }
}

/// The index of the first `c` in `v`, or the length of `v` where there is none.
pub fn position_of(v: &Vec<char>, c: char) -> (r: usize)
    ensures
        r == find_char(v@, c),
        r <= v.len(),
        r < v.len() ==> v@[r as int] == c,
        r < v.len() <==> v@.contains(c),
        forall|i: int| 0 <= i < r ==> v@[i] != c,
{
    let mut i: usize = 0;
    while i < v.len() && v[i] != c
        invariant
            i <= v.len(),
            forall|j: int| 0 <= j < i ==> v@[j] != c,
        decreases v.len() - i,
    {
        i = i + 1;
    }
    proof {
        lemma_find_char_at(v@, c, i as int);
        lemma_find_char(v@, c);
    }
    i
}

/// Whether `p` stands in `s` at `i`.
pub open spec fn stands_at(s: Seq<char>, p: Seq<char>, i: int) -> bool {
    0 <= i && i + p.len() <= s.len() && s.subrange(i, i + p.len()) == p
}

/// Whether `p` stands anywhere in `s`.
pub open spec fn has_text(s: Seq<char>, p: Seq<char>) -> bool {
    exists|i: int| stands_at(s, p, i)
}

/// Whether `p` stands in `s` at `i`.
pub fn matches_at(s: &Vec<char>, p: &Vec<char>, i: usize) -> (r: bool)
    ensures
        r == stands_at(s@, p@, i as int),
{
    if s.len() < p.len() || i > s.len() - p.len() {
        return false;
    }
    let mut j: usize = 0;
    while j < p.len()
        invariant
            j <= p.len(),
            i + p.len() <= s.len(),
            forall|k: int| 0 <= k < j ==> s@[i + k] == p@[k],
        decreases p.len() - j,
    {
        if s[i + j] != p[j] {
            assert(s@.subrange(i as int, i + p.len())[j as int] != p@[j as int]);
            return false;
        }
        j = j + 1;
    }
    assert(s@.subrange(i as int, i + p.len()) == p@);
    true
}

/// Whether `p` stands anywhere in `s`.
pub fn contains_sub(s: &str, p: &str) -> (r: bool)
    ensures
        r == has_text(s@, p@),
{
    let a = chars_of(s);
    let b = chars_of(p);
    let mut i: usize = 0;
    while i <= a.len()
        invariant
            i <= a.len() + 1,
            a@ == s@,
            b@ == p@,
            forall|k: int| 0 <= k < i ==> !stands_at(s@, p@, k),
        decreases a.len() + 1 - i,
    {
        if matches_at(&a, &b, i) {
            return true;
        }
        if i == a.len() {
            return false;
        }
        i = i + 1;
    }
    false
}

/// Whether `s` begins with `p`.
pub fn has_prefix(s: &str, p: &str) -> (r: bool)
    ensures
        r == p@.is_prefix_of(s@),
{
    let a = chars_of(s);
    let b = chars_of(p);
    matches_at(&a, &b, 0)
}

/// Whether `s` ends with `p`.
pub fn has_suffix(s: &str, p: &str) -> (r: bool)
    ensures
        r == p@.is_suffix_of(s@),
{
    let a = chars_of(s);
    let b = chars_of(p);
    if a.len() < b.len() {
        return false;
    }
    matches_at(&a, &b, a.len() - b.len())
}

// ── Lines ────────────────────────────────────────────────────────────────────

/// A line without the carriage return that may precede its line feed.
pub open spec fn strip_cr(s: Seq<char>) -> Seq<char> {
    if s.len() > 0 && s.last() == '\r' {
        s.drop_last()
    } else {
        s
    }
}

/// The lines of `s`: each ends at a line feed, with or without a carriage
/// return before it, and the last one may end at the end of `s`.
pub open spec fn lines_of(s: Seq<char>) -> Seq<Seq<char>>
    decreases s.len(),
{
    if s.len() == 0 {
        Seq::empty()
    } else {
        let n: nat = find_char(s, '\n');
        if n < s.len() {
            seq![strip_cr(s.take(n as int))] + lines_of(s.skip(n as int + 1))
        } else {
            seq![s]
        }
    }
}

/// The lines of `s`.
pub fn split_lines(s: &str) -> (r: Vec<String>)
    ensures
        texts(r@) == lines_of(s@),
{
    let v = chars_of(s);
    let mut out: Vec<String> = Vec::new();
    let mut i: usize = 0;
    assert(v@.skip(0) == v@);
    assert(texts(out@) + lines_of(v@.skip(0)) == lines_of(v@));
    while i < v.len()
        invariant
            i <= v.len(),
            v@ == s@,
            texts(out@) + lines_of(v@.skip(i as int)) == lines_of(v@),
        decreases v.len() - i,
    {
        let ghost rest: Seq<char> = v@.skip(i as int);
        let mut j: usize = i;
        while j < v.len() && v[j] != '\n'
            invariant
                i <= j <= v.len(),
                rest == v@.skip(i as int),
                forall|k: int| 0 <= k < j - i ==> rest[k] != '\n',
            decreases v.len() - j,
        {
            j = j + 1;
        }
        proof {
            lemma_find_char_at(rest, '\n', j - i);
        }
        let ghost before: Seq<String> = out@;
        if j < v.len() {
            let mut end: usize = j;
            if j > i && v[j - 1] == '\r' {
                end = j - 1;
            }
            let line = text_of(&copy_range(&v, i, end));
            assert(line@ == strip_cr(rest.take(j - i))) by {
                assert(rest.take(j - i) == v@.subrange(i as int, j as int));
                if end < j {
                    assert(rest.take(j - i).drop_last() == v@.subrange(i as int, end as int));
                }
            }
            out.push(line);
            assert(rest.skip(j - i + 1) == v@.skip(j + 1));
            assert(texts(out@) == texts(before).push(line@));
            assert(texts(out@) + lines_of(v@.skip(j + 1)) == texts(before) + (seq![line@]
                + lines_of(v@.skip(j + 1))));
            i = j + 1;
        } else {
            let line = text_of(&copy_range(&v, i, j));
            assert(line@ == rest);
            out.push(line);
            assert(texts(out@) == texts(before).push(line@));
            assert(lines_of(v@.skip(j as int)) == Seq::<Seq<char>>::empty());
            assert(texts(out@) + lines_of(v@.skip(j as int)) == texts(before) + seq![line@]);
            i = j;
        }
    }
    assert(texts(out@) == lines_of(v@));
    out
}

// ── Replacing and repeating ──────────────────────────────────────────────────

/// `s` with every `c` replaced by `with`.
pub open spec fn replace_char(s: Seq<char>, c: char, with: Seq<char>) -> Seq<char>
    decreases s.len(),
{
    if s.len() == 0 {
        Seq::empty()
    } else if s.last() == c {
        replace_char(s.drop_last(), c, with) + with
    } else {
        replace_char(s.drop_last(), c, with).push(s.last())
    }
}

/// Where there is no `c`, nothing is replaced.
pub proof fn lemma_replace_absent(s: Seq<char>, c: char, with: Seq<char>)
    requires
        forall|i: int| 0 <= i < s.len() ==> s[i] != c,
    ensures
        replace_char(s, c, with) == s,
    decreases s.len(),
{
    if s.len() > 0 {
        lemma_replace_absent(s.drop_last(), c, with);
        assert(s.drop_last().push(s.last()) =~= s);
    }
}

/// Replacing in two texts is replacing in both together.
pub proof fn lemma_replace_both(a: Seq<char>, b: Seq<char>, c: char, with: Seq<char>)
    ensures
        replace_char(a + b, c, with) == replace_char(a, c, with) + replace_char(b, c, with),
    decreases b.len(),
{
    if b.len() == 0 {
        assert(a + b =~= a);
        assert(replace_char(a, c, with) + Seq::<char>::empty() =~= replace_char(a, c, with));
    } else {
        lemma_replace_both(a, b.drop_last(), c, with);
        assert((a + b).drop_last() =~= a + b.drop_last());
        assert(replace_char(a + b, c, with) =~= replace_char(a, c, with) + replace_char(
            b,
            c,
            with,
        ));
    }
}

/// `v` with every `c` replaced by `with`.
pub fn substitute(v: &Vec<char>, c: char, with: &str) -> (r: Vec<char>)
    ensures
        r@ == replace_char(v@, c, with@),
{
    let w = chars_of(with);
    let mut out: Vec<char> = Vec::new();
    let mut i: usize = 0;
    while i < v.len()
        invariant
            i <= v.len(),
            w@ == with@,
            out@ == replace_char(v@.take(i as int), c, with@),
        decreases v.len() - i,
    {
        assert(v@.take(i + 1).drop_last() == v@.take(i as int));
        if v[i] == c {
            let mut j: usize = 0;
            let ghost base: Seq<char> = out@;
            while j < w.len()
                invariant
                    j <= w.len(),
                    out@ == base + w@.take(j as int),
                decreases w.len() - j,
            {
                out.push(w[j]);
                j = j + 1;
            }
            assert(w@.take(w.len() as int) == w@);
        } else {
            out.push(v[i]);
        }
        i = i + 1;
    }
    assert(v@.take(v.len() as int) == v@);
    out
}

/// `n` times `c`.
pub open spec fn repeat(c: char, n: nat) -> Seq<char> {
    Seq::new(n, |i: int| c)
}

/// Appends `n` times `c`.
pub fn push_repeated(out: &mut String, c: char, n: usize)
    ensures
        final(out)@ == old(out)@ + repeat(c, n as nat),
{
    let mut i: usize = 0;
    while i < n
        invariant
            i <= n,
            out@ == old(out)@ + repeat(c, i as nat),
        decreases n - i,
    {
        out.push(c);
        i = i + 1;
    }
}

// ── Laws ─────────────────────────────────────────────────────────────────────

/// Parts that are joined stand in the whole.
pub proof fn law_joined_parts_are_there(parts: Seq<Seq<char>>, sep: Seq<char>, i: int)
    requires
        0 <= i < parts.len(),
    ensures
        has_text(join(parts, sep), parts[i]),
    decreases parts.len(),
{
    let whole: Seq<char> = join(parts, sep);
    if parts.len() == 1 {
        assert(whole.subrange(0, whole.len() as int) =~= parts[0]);
        assert(stands_at(whole, parts[i], 0));
    } else if i == parts.len() - 1 {
        let k: int = whole.len() - parts[i].len();
        assert(whole.subrange(k, whole.len() as int) =~= parts[i]);
        assert(stands_at(whole, parts[i], k));
    } else {
        let head: Seq<char> = join(parts.drop_last(), sep);
        law_joined_parts_are_there(parts.drop_last(), sep, i);
        let k: int = choose|k: int| stands_at(head, parts.drop_last()[i], k);
        assert(whole.subrange(k, k + parts[i].len()) =~= head.subrange(k, k + parts[i].len()));
        assert(stands_at(whole, parts[i], k));
    }
}

/// Joining puts the separator between neighbours and nowhere else: two lists
/// that are joined are the joined lists with one separator between them.
pub proof fn law_joining_splits_anywhere(
    a: Seq<Seq<char>>,
    b: Seq<Seq<char>>,
    sep: Seq<char>,
)
    requires
        a.len() > 0,
        b.len() > 0,
    ensures
        join(a + b, sep) == join(a, sep) + sep + join(b, sep),
    decreases b.len(),
{
    assert((a + b).drop_last() =~= a + b.drop_last());
    if b.len() == 1 {
        assert(a + b.drop_last() =~= a);
    } else {
        law_joining_splits_anywhere(a, b.drop_last(), sep);
        assert(join(a, sep) + sep + join(b.drop_last(), sep) + sep + b.last() =~= join(a, sep) + sep
            + (join(b.drop_last(), sep) + sep + b.last()));
    }
}

/// Whether a line may be one of several: it holds no line feed, and no carriage
/// return at its end.
pub open spec fn is_line(s: Seq<char>) -> bool {
    !s.contains('\n') && (s.len() > 0 ==> s.last() != '\r')
}

/// Lines that are joined by line feeds are read back as they were, where the
/// last one is not empty.
pub proof fn law_joined_lines_read_back(lines: Seq<Seq<char>>)
    requires
        lines.len() > 0 ==> lines.last().len() > 0,
        forall|i: int| 0 <= i < lines.len() ==> is_line(#[trigger] lines[i]),
    ensures
        lines_of(join(lines, "\n"@)) == lines,
    decreases lines.len(),
{
    reveal_strlit("\n");
    let text: Seq<char> = join(lines, "\n"@);
    if lines.len() == 0 {
    } else if lines.len() == 1 {
        lemma_find_char(text, '\n');
        assert(is_line(lines[0]));
        assert(lines_of(text) =~= seq![text]);
        assert(seq![text] =~= lines);
    } else {
        let rest: Seq<Seq<char>> = lines.skip(1);
        let first: Seq<char> = lines[0];
        assert(is_line(first));
        assert(lines =~= seq![first] + rest);
        law_joining_splits_anywhere(seq![first], rest, "\n"@);
        assert forall|i: int| 0 <= i < rest.len() implies is_line(#[trigger] rest[i]) by {
            assert(rest[i] == lines[i + 1]);
        }
        assert(rest.last() == lines.last());
        law_joined_lines_read_back(rest);
        let n: int = first.len() as int;
        assert forall|i: int| 0 <= i < n implies text[i] != '\n' by {
            assert(text[i] == first[i]);
            assert(first.contains(first[i]));
        }
        lemma_find_char_at(text, '\n', n);
        assert(text.take(n) =~= first);
        assert(text.skip(n + 1) =~= join(rest, "\n"@));
        assert(seq![first] + rest =~= lines);
    }
}

/// Trimming takes nothing but white space, and all of it: what is left neither
/// begins nor ends in white space, and stands between the white space that was
/// taken.
pub proof fn law_trimming_takes_white_space(s: Seq<char>) -> (parts: (Seq<char>, Seq<char>))
    ensures
        s == parts.0 + trimmed(s) + parts.1,
        forall|i: int| 0 <= i < parts.0.len() ==> is_white(#[trigger] parts.0[i]),
        forall|i: int| 0 <= i < parts.1.len() ==> is_white(#[trigger] parts.1[i]),
        trimmed(s).len() > 0 ==> !is_white(trimmed(s)[0]) && !is_white(trimmed(s).last()),
{
    lemma_trimmed_ends(s);
    let before: Seq<char> = lemma_trimmed_start(s);
    let rest: Seq<char> = trim_start_of(s, CharClass::White);
    let after: Seq<char> = lemma_trimmed_end(rest);
    assert(s =~= before + trimmed(s) + after);
    (before, after)
}

proof fn lemma_trimmed_start(s: Seq<char>) -> (before: Seq<char>)
    ensures
        s == before + trim_start_of(s, CharClass::White),
        forall|i: int| 0 <= i < before.len() ==> is_white(#[trigger] before[i]),
    decreases s.len(),
{
    if s.len() > 0 && is_white(s[0]) {
        let more: Seq<char> = lemma_trimmed_start(s.skip(1));
        let before: Seq<char> = seq![s[0]] + more;
        assert(s.skip(1) == more + trim_start_of(s, CharClass::White));
        assert(s =~= seq![s[0]] + s.skip(1));
        assert(s =~= before + trim_start_of(s, CharClass::White));
        before
    } else {
        assert(s =~= Seq::<char>::empty() + s);
        Seq::empty()
    }
}

proof fn lemma_trimmed_end(s: Seq<char>) -> (after: Seq<char>)
    ensures
        s == trim_end_of(s, CharClass::White) + after,
        forall|i: int| 0 <= i < after.len() ==> is_white(#[trigger] after[i]),
    decreases s.len(),
{
    if s.len() > 0 && is_white(s.last()) {
        let more: Seq<char> = lemma_trimmed_end(s.drop_last());
        let after: Seq<char> = more.push(s.last());
        assert(s.drop_last() == trim_end_of(s, CharClass::White) + more);
        assert(s =~= s.drop_last().push(s.last()));
        assert(s =~= trim_end_of(s, CharClass::White) + after);
        after
    } else {
        assert(s =~= s + Seq::<char>::empty());
        Seq::empty()
    }
}

/// White space around a text whose ends are none is trimmed.
pub proof fn lemma_trimmed_of(before: Seq<char>, body: Seq<char>, after: Seq<char>)
    requires
        body.len() > 0,
        !is_white(body[0]),
        !is_white(body.last()),
        forall|i: int| 0 <= i < before.len() ==> is_white(#[trigger] before[i]),
        forall|i: int| 0 <= i < after.len() ==> is_white(#[trigger] after[i]),
    ensures
        trimmed(before + body + after) == body,
{
    let s: Seq<char> = before + body + after;
    let (a, b) = law_trimming_takes_white_space(s);
    let t: Seq<char> = trimmed(s);
    assert(t.len() > 0) by {
        if t.len() == 0 {
            let k: int = before.len() as int;
            assert(s[k] == body[0]);
            if k < a.len() {
                assert(s[k] == a[k]);
            } else {
                assert(s[k] == b[k - a.len()]);
            }
        }
    }
    if a.len() < before.len() {
        assert(s[a.len() as int] == t[0]);
        assert(s[a.len() as int] == before[a.len() as int]);
    } else if a.len() > before.len() {
        assert(s[before.len() as int] == a[before.len() as int]);
        assert(s[before.len() as int] == body[0]);
    }
    let end: int = s.len() - b.len();
    let want: int = (before.len() + body.len()) as int;
    if end > want {
        assert(s[end - 1] == t.last());
        assert(s[end - 1] == after[end - 1 - want]);
    } else if end < want {
        assert(s[want - 1] == body.last());
        assert(s[want - 1] == b[want - 1 - end]);
    }
    assert(s.len() == a.len() + t.len() + b.len());
    assert forall|i: int| 0 <= i < body.len() implies t[i] == body[i] by {
        assert(s[a.len() + i] == t[i]);
        assert(s[before.len() + i] == body[i]);
    }
    assert(t =~= body);
}

} // verus!
