//! What showing an answer as a title keeps.

use vstd::prelude::*;

use crate::letters::{
    ascii_lower, is_ascii, is_ascii_char, is_ascii_letter, is_letter, is_upper, lowered,
};
use crate::text::{
    find_char, is_white, join, lemma_find_char, lemma_find_char_at, lemma_nothing_to_trim,
    lemma_trim_end_part, lemma_trimmed_ends, trim_start_of, trimmed, CharClass,
};
use crate::triviaqa::cleanup::{
    is_small_word, letters_of, shouts, shown_answer, split_spaces, title_word,
};

verus! {

/// A text with its ASCII letters in lower case.
pub open spec fn small(s: Seq<char>) -> Seq<char> {
    s.map_values(|c: char| ascii_lower(c))
}

// ── White space ──────────────────────────────────────────────────────────────

proof fn lemma_ascii_trimmed(s: Seq<char>)
    requires
        is_ascii(s),
    ensures
        is_ascii(trimmed(s)),
{
    lemma_ascii_trim_start(s);
    let t: Seq<char> = trim_start_of(s, CharClass::White);
    lemma_trim_end_part(t);
}

proof fn lemma_ascii_trim_start(s: Seq<char>)
    requires
        is_ascii(s),
    ensures
        is_ascii(trim_start_of(s, CharClass::White)),
    decreases s.len(),
{
    if s.len() > 0 && is_white(s[0]) {
        assert forall|i: int| 0 <= i < s.skip(1).len() implies is_ascii_char(
            #[trigger] s.skip(1)[i],
        ) by {
            assert(s.skip(1)[i] == s[i + 1]);
        }
        lemma_ascii_trim_start(s.skip(1));
    }
}

// ── Parts ────────────────────────────────────────────────────────────────────

/// The first of the parts of a joined text stands in front.
proof fn lemma_join_front(first: Seq<char>, rest: Seq<Seq<char>>)
    requires
        rest.len() > 0,
    ensures
        join(seq![first] + rest, " "@) == first + " "@ + join(rest, " "@),
    decreases rest.len(),
{
    let all: Seq<Seq<char>> = seq![first] + rest;
    if rest.len() == 1 {
        assert(all.drop_last() =~= seq![first]);
        assert(join(seq![first], " "@) == first);
        assert(all.last() == rest[0]);
    } else {
        lemma_join_front(first, rest.drop_last());
        assert(all.drop_last() =~= seq![first] + rest.drop_last());
        assert(all.last() == rest.last());
        let head: Seq<char> = join(rest.drop_last(), " "@);
        assert((first + " "@ + head) + " "@ + rest.last() =~= first + " "@ + (head + " "@
            + rest.last()));
    }
}

/// Whether no part holds a space.
spec fn are_spaceless(parts: Seq<Seq<char>>) -> bool {
    forall|i: int| 0 <= i < parts.len() ==> !(#[trigger] parts[i]).contains(' ')
}

/// The parts between spaces hold none, and make up the text.
proof fn lemma_split_parts(s: Seq<char>)
    ensures
        split_spaces(s).len() > 0,
        are_spaceless(split_spaces(s)),
        join(split_spaces(s), " "@) == s,
        is_ascii(s) ==> forall|i: int|
            0 <= i < split_spaces(s).len() ==> is_ascii(#[trigger] split_spaces(s)[i]),
    decreases s.len(),
{
    reveal_strlit(" ");
    let n: int = find_char(s, ' ') as int;
    lemma_find_char(s, ' ');
    let parts: Seq<Seq<char>> = split_spaces(s);
    if n < s.len() {
        let first: Seq<char> = s.take(n);
        let rest: Seq<char> = s.skip(n + 1);
        lemma_split_parts(rest);
        lemma_join_front(first, split_spaces(rest));
        assert(parts == seq![first] + split_spaces(rest));
        assert(first + " "@ + rest =~= s);
        assert forall|i: int| 0 <= i < parts.len() implies !(#[trigger] parts[i]).contains(' ') by {
            if i == 0 {
                assert(parts[0] == first);
            } else {
                assert(parts[i] == split_spaces(rest)[i - 1]);
            }
        }
        if is_ascii(s) {
            assert(is_ascii(first));
            assert(is_ascii(rest)) by {
                assert forall|i: int| 0 <= i < rest.len() implies is_ascii_char(
                    #[trigger] rest[i],
                ) by {
                    assert(rest[i] == s[n + 1 + i]);
                }
            }
            assert forall|i: int| 0 <= i < parts.len() implies is_ascii(#[trigger] parts[i]) by {
                if i == 0 {
                    assert(parts[0] == first);
                } else {
                    assert(parts[i] == split_spaces(rest)[i - 1]);
                }
            }
        }
    } else {
        assert(parts == seq![s]);
        assert forall|i: int| 0 <= i < parts.len() implies !(#[trigger] parts[i]).contains(' ') by {
            assert(parts[i] == s);
        }
    }
}

/// Parts without spaces come out of their joined text again.
proof fn lemma_split_of_join(parts: Seq<Seq<char>>)
    requires
        parts.len() > 0,
        are_spaceless(parts),
    ensures
        split_spaces(join(parts, " "@)) == parts,
    decreases parts.len(),
{
    reveal_strlit(" ");
    let first: Seq<char> = parts[0];
    assert(!first.contains(' '));
    if parts.len() == 1 {
        lemma_find_char_at(first, ' ', first.len() as int);
        assert(seq![first] =~= parts);
    } else {
        let rest: Seq<Seq<char>> = parts.skip(1);
        assert forall|i: int| 0 <= i < rest.len() implies !(#[trigger] rest[i]).contains(' ') by {
            assert(rest[i] == parts[i + 1]);
        }
        lemma_split_of_join(rest);
        lemma_join_front(first, rest);
        assert(seq![first] + rest =~= parts);
        let whole: Seq<char> = join(parts, " "@);
        assert(whole == first + " "@ + join(rest, " "@));
        assert forall|i: int| 0 <= i < first.len() implies whole[i] != ' ' by {
            assert(first.contains(first[i]));
        }
        lemma_find_char_at(whole, ' ', first.len() as int);
        assert(whole.take(first.len() as int) =~= first);
        assert(whole.skip(first.len() as int + 1) =~= join(rest, " "@));
    }
}

/// Parts that are the same in lower case make up texts that are.
proof fn lemma_small_join(a: Seq<Seq<char>>, b: Seq<Seq<char>>)
    requires
        a.len() == b.len(),
        forall|i: int| 0 <= i < a.len() ==> small(#[trigger] a[i]) == small(b[i]),
    ensures
        small(join(a, " "@)) == small(join(b, " "@)),
    decreases a.len(),
{
    if a.len() == 1 {
        assert(small(a[0]) == small(b[0]));
    } else if a.len() > 1 {
        let (x, y) = (a.drop_last(), b.drop_last());
        assert forall|i: int| 0 <= i < x.len() implies small(#[trigger] x[i]) == small(y[i]) by {
            assert(x[i] == a[i] && y[i] == b[i]);
        }
        lemma_small_join(x, y);
        let last: int = a.len() - 1;
        assert(small(a[last]) == small(b[last]));
        assert(small(join(a, " "@)) =~= small(join(x, " "@)) + small(" "@) + small(a[last]));
        assert(small(join(b, " "@)) =~= small(join(y, " "@)) + small(" "@) + small(b[last]));
    }
}

// ── Titles ───────────────────────────────────────────────────────────────────

/// Texts that are the same in lower case have the same length, and white space
/// in the same places.
proof fn lemma_same_small(a: Seq<char>, b: Seq<char>)
    requires
        small(a) == small(b),
    ensures
        a.len() == b.len(),
        forall|i: int| 0 <= i < a.len() ==> is_white(#[trigger] a[i]) == is_white(b[i]),
        is_ascii(b) ==> is_ascii(a),
{
    assert(small(a).len() == a.len());
    assert(small(b).len() == b.len());
    assert forall|i: int| 0 <= i < a.len() implies is_white(#[trigger] a[i]) == is_white(b[i]) && (
    is_ascii_char(b[i]) ==> is_ascii_char(a[i])) by {
        assert(small(a)[i] == ascii_lower(a[i]));
        assert(small(b)[i] == ascii_lower(b[i]));
    }
    if is_ascii(b) {
        assert forall|i: int| 0 <= i < a.len() implies is_ascii_char(#[trigger] a[i]) by {
            assert(is_ascii_char(b[i]));
            assert(is_white(a[i]) == is_white(b[i]));
        }
    }
}

/// A word of a title is the same word in other case, and stays when it is made
/// one again.
proof fn lemma_title_word(i: int, word: Seq<char>)
    requires
        is_ascii(word),
    ensures
        small(title_word(i, word)) == small(word),
        title_word(i, title_word(i, word)) == title_word(i, word),
        !word.contains(' ') ==> !title_word(i, word).contains(' '),
{
    let low: Seq<char> = lowered(word);
    let t: Seq<char> = title_word(i, word);
    assert(low == small(word));
    assert forall|k: int| 0 <= k < low.len() implies ascii_lower(#[trigger] low[k]) == low[k]
        && is_ascii_char(low[k]) by {
        assert(is_ascii_char(word[k]));
        assert(low[k] == ascii_lower(word[k]));
    }
    assert(small(low) =~= low);
    if !(i > 0 && is_small_word(low)) && low.len() > 0 {
        assert(is_ascii_char(low[0]));
        assert(t.len() == low.len());
        assert forall|k: int| 0 <= k < t.len() implies ascii_lower(#[trigger] t[k]) == low[k] by {
            if k > 0 {
                assert(t[k] == low[k]);
            }
        }
        assert(small(t) =~= low);
    }
    assert(small(t) =~= small(word));
    lemma_same_small(t, word);
    assert(lowered(t) == low);
    if !word.contains(' ') && t.contains(' ') {
        let k: int = t.index_of(' ');
        assert(small(t)[k] == small(word)[k]);
        assert(ascii_lower(word[k]) == ' ');
        assert(word[k] == ' ');
    }
}

/// The parts of an answer as words of a title.
spec fn title_parts(s: Seq<char>) -> Seq<Seq<char>> {
    split_spaces(s).map(|i: int, w: Seq<char>| title_word(i, w))
}

proof fn lemma_title_parts(s: Seq<char>)
    requires
        is_ascii(s),
    ensures
        small(join(title_parts(s), " "@)) == small(s),
        split_spaces(join(title_parts(s), " "@)) == title_parts(s),
        title_parts(join(title_parts(s), " "@)) == title_parts(s),
{
    lemma_split_parts(s);
    let parts: Seq<Seq<char>> = split_spaces(s);
    let titles: Seq<Seq<char>> = title_parts(s);
    assert forall|i: int| 0 <= i < titles.len() implies small(#[trigger] titles[i]) == small(
        parts[i],
    ) && !titles[i].contains(' ') && title_word(i, titles[i]) == titles[i] by {
        assert(titles[i] == title_word(i, parts[i]));
        assert(is_ascii(parts[i]));
        assert(!parts[i].contains(' '));
        lemma_title_word(i, parts[i]);
    }
    lemma_small_join(titles, parts);
    lemma_split_of_join(titles);
    assert(title_parts(join(titles, " "@)) =~= titles);
}

// ── Laws ─────────────────────────────────────────────────────────────────────

/// Showing an ASCII answer changes the case of letters at most.
pub proof fn law_only_case_changes(raw: Seq<char>)
    requires
        is_ascii(raw),
    ensures
        lowered(shown_answer(raw)) == lowered(trimmed(raw)),
{
    lemma_ascii_trimmed(raw);
    let s: Seq<char> = trimmed(raw);
    if shouts(s) {
        lemma_title_parts(s);
        assert(shown_answer(raw) == join(title_parts(s), " "@));
        lemma_same_small(shown_answer(raw), s);
    }
}

/// An ASCII answer that is shown already is shown as it is.
pub proof fn law_shown_answers_stay(raw: Seq<char>)
    requires
        is_ascii(raw),
    ensures
        shown_answer(shown_answer(raw)) == shown_answer(raw),
{
    lemma_ascii_trimmed(raw);
    lemma_trimmed_ends(raw);
    let s: Seq<char> = trimmed(raw);
    let shown: Seq<char> = shown_answer(raw);
    if shouts(s) {
        lemma_title_parts(s);
        assert(shown == join(title_parts(s), " "@));
        lemma_same_small(shown, s);
        if shown.len() > 0 {
            assert(is_white(shown[0]) == is_white(s[0]));
            assert(is_white(shown[shown.len() - 1]) == is_white(s[s.len() - 1]));
        }
        lemma_nothing_to_trim(shown);
        assert(title_parts(shown) == title_parts(s));
    } else {
        lemma_nothing_to_trim(s);
    }
}

/// An ASCII answer in capitals with more than four letters is written as a
/// title: of each word the first letter is a capital and the others are not,
/// but for small words further on.
pub proof fn law_shouted_answers_become_titles(raw: Seq<char>, k: int)
    requires
        is_ascii(raw),
        trimmed(raw).filter(|c: char| is_ascii_letter(c)).len() > 4,
        forall|i: int| 0 <= i < trimmed(raw).len() ==> !('a' <= #[trigger] trimmed(raw)[i] <= 'z'),
        0 <= k < split_spaces(shown_answer(raw)).len(),
    ensures
        ({
            let w: Seq<char> = split_spaces(shown_answer(raw))[k];
            &&& forall|i: int| 0 < i < w.len() ==> !('A' <= #[trigger] w[i] <= 'Z')
            &&& w.len() > 0 && 'a' <= w[0] <= 'z' ==> k > 0 && (w == "of"@ || w == "the"@ || w
                == "and"@ || w == "in"@ || w == "on"@ || w == "de"@ || w == "la"@)
            &&& k > 0 && w.len() > 0 && 'A' <= w[0] <= 'Z' ==> {
                let low: Seq<char> = w.update(0, ascii_lower(w[0]));
                low != "of"@ && low != "the"@ && low != "and"@ && low != "in"@ && low != "on"@
                    && low != "de"@ && low != "la"@
            }
        }),
{
    lemma_ascii_trimmed(raw);
    let s: Seq<char> = trimmed(raw);
    assert(shouts(s)) by {
        let letters: Seq<char> = letters_of(s);
        lemma_same_letters(s);
        assert forall|i: int| 0 <= i < letters.len() implies is_upper(#[trigger] letters[i]) by {
            s.lemma_filter_pred(|c: char| is_letter(c), i);
            let c: char = letters[i];
            assert(letters.contains(c));
            s.lemma_filter_contains_rev(|c: char| is_letter(c), c);
            let j: int = choose|j: int| 0 <= j < s.len() && s[j] == c;
            assert(is_ascii_char(s[j]));
        }
    }
    lemma_title_parts(s);
    lemma_split_parts(s);
    assert(shown_answer(raw) == join(title_parts(s), " "@));
    let word: Seq<char> = split_spaces(s)[k];
    let w: Seq<char> = title_parts(s)[k];
    assert(w == title_word(k, word));
    assert(is_ascii(word));
    let low: Seq<char> = lowered(word);
    assert forall|i: int| 0 <= i < low.len() implies !('A' <= #[trigger] low[i] <= 'Z')
        && is_ascii_char(low[i]) by {
        assert(is_ascii_char(word[i]));
        assert(low[i] == ascii_lower(word[i]));
    }
    if !(k > 0 && is_small_word(low)) && low.len() > 0 {
        assert(is_ascii_char(low[0]));
        assert forall|i: int| 0 < i < w.len() implies !('A' <= #[trigger] w[i] <= 'Z') by {
            assert(w[i] == low[i]);
        }
        assert(w.update(0, ascii_lower(w[0])) =~= low);
    }
}

proof fn lemma_same_letters(s: Seq<char>)
    requires
        is_ascii(s),
    ensures
        letters_of(s) == s.filter(|c: char| is_ascii_letter(c)),
    decreases s.len(),
{
    reveal(Seq::filter);
    if s.len() > 0 {
        assert(is_ascii_char(s[s.len() - 1]));
        assert forall|i: int| 0 <= i < s.drop_last().len() implies is_ascii_char(
            #[trigger] s.drop_last()[i],
        ) by {
            assert(s.drop_last()[i] == s[i]);
        }
        lemma_same_letters(s.drop_last());
    }
}

} // verus!
