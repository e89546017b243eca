//! How category names match: in any case, with "&" or "and", and whatever
//! space is around the words.

use vstd::prelude::*;

use crate::fetcher::categories::{
    active_table, find_id, group_of, group_table, is_excluded, kept_groups, lemma_normalised_start,
    normalised,
};
use crate::letters::{ascii_lower, is_ascii, is_ascii_char, lowered};
use crate::text::{
    is_white, join, lemma_replace_absent, lemma_replace_both, lemma_word_len, replace_char, trim_end_of,
    trim_start_of, trimmed, word_len, words, CharClass,
};

verus! {

// ── Words ────────────────────────────────────────────────────────────────────

proof fn lemma_word_at(s: Seq<char>, n: int)
    requires
        0 <= n <= s.len(),
        forall|i: int| 0 <= i < n ==> !is_white(s[i]),
        n < s.len() ==> is_white(s[n]),
    ensures
        word_len(s) == n,
{
    lemma_word_len(s);
    if word_len(s) < n {
        assert(is_white(s[word_len(s) as int]));
    } else if word_len(s) > n {
        assert(!is_white(s[n]));
    }
}

/// White space between two texts parts their words.
proof fn lemma_words_split(x: Seq<char>, c: char, y: Seq<char>)
    requires
        is_white(c),
    ensures
        words(x + seq![c] + y) == words(x) + words(y),
    decreases x.len(),
{
    let whole: Seq<char> = x + seq![c] + y;
    if x.len() == 0 {
        assert(whole.skip(1) =~= y);
    } else if is_white(x[0]) {
        lemma_words_split(x.skip(1), c, y);
        assert(whole.skip(1) =~= x.skip(1) + seq![c] + y);
    } else {
        lemma_word_len(x);
        let n: int = word_len(x) as int;
        lemma_word_at(whole, n);
        lemma_words_split(x.skip(n), c, y);
        assert(whole.take(n) =~= x.take(n));
        assert(whole.skip(n) =~= x.skip(n) + seq![c] + y);
        assert(words(whole) =~= words(x) + words(y));
    }
}

/// White space before a text adds no word.
proof fn lemma_words_after_white(w: Seq<char>, t: Seq<char>)
    requires
        forall|i: int| 0 <= i < w.len() ==> is_white(w[i]),
    ensures
        words(w + t) == words(t),
    decreases w.len(),
{
    if w.len() == 0 {
        assert(w + t =~= t);
    } else {
        lemma_words_after_white(w.skip(1), t);
        assert((w + t).skip(1) =~= w.skip(1) + t);
    }
}

/// White space behind a text adds no word.
proof fn lemma_words_before_white(t: Seq<char>, w: Seq<char>)
    requires
        forall|i: int| 0 <= i < w.len() ==> is_white(w[i]),
    ensures
        words(t + w) == words(t),
{
    if w.len() == 0 {
        assert(t + w =~= t);
    } else {
        lemma_words_split(t, w[0], w.skip(1));
        assert(t + w =~= t + seq![w[0]] + w.skip(1));
        lemma_words_after_white(w.skip(1), Seq::empty());
        assert(w.skip(1) + Seq::<char>::empty() =~= w.skip(1));
        assert(words(Seq::<char>::empty()) == Seq::<Seq<char>>::empty());
    }
}

/// A text without white space is one word.
proof fn lemma_one_word(y: Seq<char>)
    requires
        y.len() > 0,
        forall|i: int| 0 <= i < y.len() ==> !is_white(y[i]),
    ensures
        words(y) == seq![y],
{
    lemma_word_at(y, y.len() as int);
    assert(y.take(y.len() as int) =~= y);
    assert(words(y.skip(y.len() as int)) == Seq::<Seq<char>>::empty());
}

/// Whether `w` is a word that `ok` holds of every character of.
spec fn word_of(w: Seq<char>, ok: spec_fn(char) -> bool) -> bool {
    w.len() > 0 && forall|k: int| 0 <= k < w.len() ==> !is_white(w[k]) && ok(#[trigger] w[k])
}

/// The words of a text hold its characters.
proof fn lemma_words_hold(s: Seq<char>, ok: spec_fn(char) -> bool)
    requires
        forall|i: int| 0 <= i < s.len() ==> ok(#[trigger] s[i]),
    ensures
        forall|i: int| 0 <= i < words(s).len() ==> word_of(#[trigger] words(s)[i], ok),
    decreases s.len(),
{
    if s.len() > 0 {
        if is_white(s[0]) {
            assert forall|i: int| 0 <= i < s.skip(1).len() implies ok(#[trigger] s.skip(1)[i]) by {
                assert(s.skip(1)[i] == s[i + 1]);
            }
            lemma_words_hold(s.skip(1), ok);
            assert(words(s) == words(s.skip(1)));
        } else {
            lemma_word_len(s);
            let n: int = word_len(s) as int;
            assert forall|i: int| 0 <= i < s.skip(n).len() implies ok(#[trigger] s.skip(n)[i]) by {
                assert(s.skip(n)[i] == s[i + n]);
            }
            lemma_words_hold(s.skip(n), ok);
            assert forall|i: int| 0 <= i < words(s).len() implies word_of(
                #[trigger] words(s)[i],
                ok,
            ) by {
                if i == 0 {
                    let w: Seq<char> = s.take(n);
                    assert(words(s)[0] == w);
                    assert forall|k: int| 0 <= k < w.len() implies !is_white(w[k]) && ok(
                        #[trigger] w[k],
                    ) by {
                        assert(w[k] == s[k]);
                    }
                } else {
                    assert(words(s)[i] == words(s.skip(n))[i - 1]);
                }
            }
        }
    }
}

/// Words come out of their joined text again.
proof fn lemma_words_of_join(ws: Seq<Seq<char>>, ok: spec_fn(char) -> bool)
    requires
        forall|i: int| 0 <= i < ws.len() ==> word_of(#[trigger] ws[i], ok),
        ok(' '),
    ensures
        words(join(ws, " "@)) == ws,
        forall|k: int| 0 <= k < join(ws, " "@).len() ==> ok(#[trigger] join(ws, " "@)[k]),
    decreases ws.len(),
{
    reveal_strlit(" ");
    assert(" "@ =~= seq![' ']);
    if ws.len() == 0 {
        assert(words(Seq::<char>::empty()) == Seq::<Seq<char>>::empty());
    } else if ws.len() == 1 {
        assert(word_of(ws[0], ok));
        lemma_one_word(ws[0]);
        assert(seq![ws[0]] =~= ws);
    } else {
        let head: Seq<Seq<char>> = ws.drop_last();
        assert forall|i: int| 0 <= i < head.len() implies word_of(#[trigger] head[i], ok) by {
            assert(head[i] == ws[i]);
        }
        lemma_words_of_join(head, ok);
        assert(word_of(ws[ws.len() - 1], ok));
        lemma_one_word(ws.last());
        lemma_words_split(join(head, " "@), ' ', ws.last());
        assert(head + seq![ws.last()] =~= ws);
    }
}

// ── Spelling out ─────────────────────────────────────────────────────────────

/// A text in lower case and with "and" for "&", space left as it is.
spec fn spelled(s: Seq<char>) -> Seq<char> {
    replace_char(s.map_values(|c: char| ascii_lower(c)), '&', " and "@)
}

proof fn lemma_spelled_both(a: Seq<char>, b: Seq<char>)
    ensures
        spelled(a + b) == spelled(a) + spelled(b),
{
    let low = |c: char| ascii_lower(c);
    assert((a + b).map_values(low) =~= a.map_values(low) + b.map_values(low));
    lemma_replace_both(a.map_values(low), b.map_values(low), '&', " and "@);
}

proof fn lemma_spelled_white(w: Seq<char>)
    requires
        forall|i: int| 0 <= i < w.len() ==> is_white(w[i]),
    ensures
        spelled(w) == w,
{
    assert(w.map_values(|c: char| ascii_lower(c)) =~= w);
    lemma_replace_absent(w, '&', " and "@);
}

/// What is trimmed at the start is white space.
proof fn lemma_trim_start(s: Seq<char>) -> (k: int)
    ensures
        0 <= k <= s.len(),
        trim_start_of(s, CharClass::White) == s.skip(k),
        forall|i: int| 0 <= i < k ==> is_white(s[i]),
    decreases s.len(),
{
    if s.len() > 0 && CharClass::White.has(s[0]) {
        let k: int = lemma_trim_start(s.skip(1));
        assert(s.skip(1).skip(k) =~= s.skip(k + 1));
        assert forall|i: int| 0 <= i < k + 1 implies is_white(s[i]) by {
            if i > 0 {
                assert(s.skip(1)[i - 1] == s[i]);
            }
        }
        k + 1
    } else {
        assert(s.skip(0) =~= s);
        0
    }
}

/// What is trimmed at the end is white space.
proof fn lemma_trim_end(s: Seq<char>) -> (k: int)
    ensures
        0 <= k <= s.len(),
        trim_end_of(s, CharClass::White) == s.take(k),
        forall|i: int| k <= i < s.len() ==> is_white(s[i]),
    decreases s.len(),
{
    if s.len() > 0 && CharClass::White.has(s.last()) {
        let k: int = lemma_trim_end(s.drop_last());
        assert(s.drop_last().take(k) =~= s.take(k));
        assert forall|i: int| k <= i < s.len() implies is_white(s[i]) by {
            if i < s.len() - 1 {
                assert(s.drop_last()[i] == s[i]);
            }
        }
        k
    } else {
        assert(s.take(s.len() as int) =~= s);
        s.len() as int
    }
}

/// White space at the ends of a text adds no word to it, spelled out or not.
proof fn lemma_trim_keeps_words(t: Seq<char>)
    ensures
        words(replace_char(trimmed(t), '&', " and "@)) == words(replace_char(t, '&', " and "@)),
{
    let and: Seq<char> = " and "@;
    let a: int = lemma_trim_start(t);
    let rest: Seq<char> = t.skip(a);
    let b: int = lemma_trim_end(rest);
    let mid: Seq<char> = rest.take(b);
    let before: Seq<char> = t.take(a);
    let after: Seq<char> = rest.skip(b);
    assert(trimmed(t) == mid);
    assert(t =~= before + (mid + after));
    lemma_replace_both(before, mid + after, '&', and);
    lemma_replace_both(mid, after, '&', and);
    lemma_replace_absent(before, '&', and);
    lemma_replace_absent(after, '&', and);
    lemma_words_after_white(before, replace_char(mid, '&', and) + after);
    lemma_words_before_white(replace_char(mid, '&', and), after);
}

/// The words of an ASCII name, lower-cased and spelled out, are what it is
/// matched by.
proof fn lemma_normalised_ascii(s: Seq<char>)
    requires
        is_ascii(s),
    ensures
        normalised(s) == join(words(spelled(s)), " "@),
{
    let a: int = lemma_trim_start(s);
    let rest: Seq<char> = s.skip(a);
    let b: int = lemma_trim_end(rest);
    let t: Seq<char> = rest.take(b);
    assert(trimmed(s) == t);
    assert(is_ascii(t)) by {
        assert forall|i: int| 0 <= i < t.len() implies is_ascii_char(#[trigger] t[i]) by {
            assert(t[i] == s[a + i]);
        }
    }
    assert(lowered(t) == t.map_values(|c: char| ascii_lower(c)));
    let before: Seq<char> = s.take(a);
    let after: Seq<char> = rest.skip(b);
    assert(s =~= before + (t + after));
    lemma_spelled_both(before, t + after);
    lemma_spelled_both(t, after);
    lemma_spelled_white(before);
    lemma_spelled_white(after);
    lemma_words_after_white(before, spelled(t) + after);
    lemma_words_before_white(spelled(t), after);
}

proof fn lemma_ascii_both(a: Seq<char>, b: Seq<char>)
    requires
        is_ascii(a),
        is_ascii(b),
    ensures
        is_ascii(a + b),
{
    assert forall|i: int| 0 <= i < (a + b).len() implies is_ascii_char(#[trigger] (a + b)[i]) by {
        if i < a.len() {
            assert((a + b)[i] == a[i]);
        } else {
            assert((a + b)[i] == b[i - a.len()]);
        }
    }
}

// ── Laws ─────────────────────────────────────────────────────────────────────

/// Case makes no difference: names that are the same in lower case, once
/// trimmed, match the same.
pub proof fn law_names_match_in_any_case(a: Seq<char>, b: Seq<char>)
    requires
        lowered(trimmed(a)) == lowered(trimmed(b)),
    ensures
        normalised(a) == normalised(b),
{
}

/// ASCII names that are the same in lower case match the same, trimmed or not.
pub proof fn law_ascii_names_match_in_any_case(a: Seq<char>, b: Seq<char>)
    requires
        is_ascii(a),
        is_ascii(b),
        lowered(a) == lowered(b),
    ensures
        normalised(a) == normalised(b),
{
    lemma_normalised_ascii(a);
    lemma_normalised_ascii(b);
}

/// "&" and "and" make no difference in any name whose lower case is that of its
/// parts: `p` before and `q` behind the "&" or "and", with white space at the
/// ends left out.
pub proof fn law_ampersand_reads_as_and_between(
    a: Seq<char>,
    b: Seq<char>,
    p: Seq<char>,
    q: Seq<char>,
)
    requires
        lowered(trimmed(a + seq!['&'] + b)) == trimmed(p + seq!['&'] + q),
        lowered(trimmed(a + " and "@ + b)) == trimmed(p + " and "@ + q),
    ensures
        normalised(a + seq!['&'] + b) == normalised(a + " and "@ + b),
{
    reveal_strlit(" and ");
    let amp: Seq<char> = seq!['&'];
    let and: Seq<char> = " and "@;
    lemma_trim_keeps_words(p + amp + q);
    lemma_trim_keeps_words(p + and + q);
    lemma_replace_both(p, amp, '&', and);
    lemma_replace_both(p + amp, q, '&', and);
    lemma_replace_both(p, and, '&', and);
    lemma_replace_both(p + and, q, '&', and);
    lemma_replace_absent(and, '&', and);
    assert(replace_char(amp, '&', and) == and) by {
        assert(amp.drop_last() =~= Seq::<char>::empty());
        assert(replace_char(Seq::<char>::empty(), '&', and) == Seq::<char>::empty());
        assert(Seq::<char>::empty() + and =~= and);
    }
}

/// "&" and "and" make no difference, with or without space around the "&".
pub proof fn law_ampersand_reads_as_and(a: Seq<char>, b: Seq<char>)
    requires
        is_ascii(a),
        is_ascii(b),
    ensures
        normalised(a + seq!['&'] + b) == normalised(a + " and "@ + b),
        normalised(a + " & "@ + b) == normalised(a + " and "@ + b),
{
    reveal_strlit(" and ");
    reveal_strlit(" & ");
    let amp: Seq<char> = seq!['&'];
    let spaced: Seq<char> = " & "@;
    let and: Seq<char> = " and "@;
    assert(is_ascii(amp) && is_ascii(spaced) && is_ascii(and));
    lemma_ascii_both(a, amp);
    lemma_ascii_both(a + amp, b);
    lemma_ascii_both(a, spaced);
    lemma_ascii_both(a + spaced, b);
    lemma_ascii_both(a, and);
    lemma_ascii_both(a + and, b);
    lemma_normalised_ascii(a + amp + b);
    lemma_normalised_ascii(a + spaced + b);
    lemma_normalised_ascii(a + and + b);
    lemma_spelled_both(a, amp);
    lemma_spelled_both(a + amp, b);
    lemma_spelled_both(a, spaced);
    lemma_spelled_both(a + spaced, b);
    lemma_spelled_both(a, and);
    lemma_spelled_both(a + and, b);
    assert(spelled(and) == and) by {
        assert(and.map_values(|c: char| ascii_lower(c)) =~= and);
        lemma_replace_absent(and, '&', and);
    }
    let low: Seq<char> = amp.map_values(|c: char| ascii_lower(c));
    assert(spelled(amp) == and) by {
        assert(low =~= amp);
        assert(amp.drop_last() =~= Seq::<char>::empty());
        assert(replace_char(Seq::<char>::empty(), '&', and) == Seq::<char>::empty());
        assert(Seq::<char>::empty() + and =~= and);
    }
    let space: Seq<char> = seq![' '];
    assert(spelled(spaced) == space + and + space) by {
        lemma_spelled_white(space);
        assert(spaced =~= space + (amp + space));
        lemma_spelled_both(space, amp + space);
        lemma_spelled_both(amp, space);
        assert(space + (and + space) =~= space + and + space);
    }
    let x: Seq<char> = spelled(a);
    let y: Seq<char> = spelled(b);
    let mid: Seq<char> = seq!['a', 'n', 'd'];
    lemma_words_split(x, ' ', mid + space + y);
    assert(x + space + (mid + space + y) =~= x + and + y);
    lemma_words_split(mid, ' ', y);
    let wide: Seq<char> = space + mid + space + space + y;
    lemma_words_split(x, ' ', wide);
    assert(x + space + wide =~= x + (space + and + space) + y);
    lemma_words_after_white(space, mid + space + (space + y));
    assert(wide =~= space + (mid + space + (space + y)));
    lemma_words_split(mid, ' ', space + y);
    lemma_words_after_white(space, y);
}

/// Words joined by spaces: no white space but single spaces between them.
proof fn lemma_join_has_single_spaces(ws: Seq<Seq<char>>, ok: spec_fn(char) -> bool)
    requires
        forall|i: int| 0 <= i < ws.len() ==> word_of(#[trigger] ws[i], ok),
    ensures
        has_single_spaces(join(ws, " "@)),
        ws.len() > 0 ==> join(ws, " "@).len() > 0,
    decreases ws.len(),
{
    reveal_strlit(" ");
    assert(" "@ =~= seq![' ']);
    let n: Seq<char> = join(ws, " "@);
    if ws.len() == 1 {
        assert(word_of(ws[0], ok));
        assert(n == ws[0]);
    } else if ws.len() > 1 {
        let head: Seq<Seq<char>> = ws.drop_last();
        assert forall|i: int| 0 <= i < head.len() implies word_of(#[trigger] head[i], ok) by {
            assert(head[i] == ws[i]);
        }
        lemma_join_has_single_spaces(head, ok);
        let h: Seq<char> = join(head, " "@);
        let w: Seq<char> = ws.last();
        assert(word_of(ws[ws.len() - 1], ok));
        assert(n =~= h + seq![' '] + w);
        assert(!is_white(w[0]));
        assert(!is_white(h[h.len() - 1]));
        assert forall|i: int| 0 <= i < n.len() && is_white(#[trigger] n[i]) implies n[i] == ' ' && 0
            < i < n.len() - 1 && !is_white(n[i - 1]) && !is_white(n[i + 1]) by {
            if i < h.len() {
                assert(n[i] == h[i]);
                assert(n[i - 1] == h[i - 1]);
                assert(n[i + 1] == h[i + 1]);
            } else if i > h.len() {
                assert(n[i] == w[i - h.len() - 1]);
            } else {
                assert(n[i - 1] == h[h.len() - 1]);
                assert(n[i + 1] == w[0]);
            }
        }
    }
}

/// Whether the only white space in a text are single spaces between its words.
pub open spec fn has_single_spaces(s: Seq<char>) -> bool {
    forall|i: int|
        0 <= i < s.len() && is_white(#[trigger] s[i]) ==> s[i] == ' ' && 0 < i < s.len() - 1
            && !is_white(s[i - 1]) && !is_white(s[i + 1])
}

/// A normalised name has no "&", and no white space but single spaces between
/// its words.
pub proof fn law_normalised_names_are_tidy(s: Seq<char>)
    ensures
        !normalised(s).contains('&'),
        has_single_spaces(normalised(s)),
{
    let low: Seq<char> = lowered(trimmed(s));
    let ok = |c: char| c != '&';
    lemma_replace_holds(low, ok);
    let ws: Seq<Seq<char>> = words(replace_char(low, '&', " and "@));
    lemma_words_hold(replace_char(low, '&', " and "@), ok);
    lemma_words_of_join(ws, ok);
    lemma_join_has_single_spaces(ws, ok);
    assert forall|i: int| 0 <= i < normalised(s).len() implies normalised(s)[i] != '&' by {
        assert(ok(normalised(s)[i]));
    }
}

/// A name that has been normalised stays as it is, where its lower case does:
/// normalising reads a name no further than that.
pub proof fn law_normalised_names_stay(s: Seq<char>)
    requires
        lowered(normalised(s)) == normalised(s),
    ensures
        normalised(normalised(s)) == normalised(s),
{
    law_normalised_names_are_tidy(s);
    let n: Seq<char> = normalised(s);
    let low: Seq<char> = lowered(trimmed(s));
    let ok = |c: char| c != '&';
    lemma_replace_holds(low, ok);
    let ws: Seq<Seq<char>> = words(replace_char(low, '&', " and "@));
    lemma_words_hold(replace_char(low, '&', " and "@), ok);
    lemma_words_of_join(ws, ok);
    assert(trimmed(n) == n) by {
        if n.len() > 0 {
            assert(!is_white(n[0]));
            assert(!is_white(n[n.len() - 1]));
        }
    }
    lemma_replace_absent(n, '&', " and "@);
}

/// An ASCII name that has been normalised is in lower case.
proof fn lemma_normalised_ascii_is_lower(s: Seq<char>)
    requires
        is_ascii(s),
    ensures
        lowered(normalised(s)) == normalised(s),
{
    lemma_normalised_ascii(s);
    let ok = |c: char| is_ascii_char(c) && ascii_lower(c) == c && c != '&';
    let low: Seq<char> = s.map_values(|c: char| ascii_lower(c));
    assert forall|i: int| 0 <= i < low.len() implies is_ascii_char(#[trigger] low[i]) && ascii_lower(
        low[i],
    ) == low[i] by {
        assert(is_ascii_char(s[i]));
        assert(low[i] == ascii_lower(s[i]));
    }
    lemma_replace_holds(low, ok);
    lemma_words_hold(spelled(s), ok);
    lemma_words_of_join(words(spelled(s)), ok);
    let n: Seq<char> = normalised(s);
    assert forall|i: int| 0 <= i < n.len() implies is_ascii_char(#[trigger] n[i]) && ascii_lower(
        n[i],
    ) == n[i] by {
        assert(ok(n[i]));
    }
    assert(n.map_values(|c: char| ascii_lower(c)) =~= n);
}

/// An ASCII name that has been normalised stays as it is.
pub proof fn law_normalised_ascii_names_stay(s: Seq<char>)
    requires
        is_ascii(s),
    ensures
        normalised(normalised(s)) == normalised(s),
{
    lemma_normalised_ascii_is_lower(s);
    law_normalised_names_stay(s);
}

proof fn lemma_replace_holds(s: Seq<char>, ok: spec_fn(char) -> bool)
    requires
        forall|i: int| 0 <= i < s.len() && s[i] != '&' ==> ok(#[trigger] s[i]),
        ok(' '),
        ok('a'),
        ok('n'),
        ok('d'),
    ensures
        forall|i: int|
            0 <= i < replace_char(s, '&', " and "@).len() ==> ok(
                #[trigger] replace_char(s, '&', " and "@)[i],
            ),
    decreases s.len(),
{
    reveal_strlit(" and ");
    if s.len() > 0 {
        let head: Seq<char> = s.drop_last();
        assert forall|i: int| 0 <= i < head.len() && head[i] != '&' implies ok(
            #[trigger] head[i],
        ) by {
            assert(head[i] == s[i]);
        }
        lemma_replace_holds(head, ok);
        let done: Seq<char> = replace_char(head, '&', " and "@);
        let whole: Seq<char> = replace_char(s, '&', " and "@);
        assert forall|i: int| 0 <= i < whole.len() implies ok(#[trigger] whole[i]) by {
            if i < done.len() {
                assert(whole[i] == done[i]);
            } else if s.last() == '&' {
                assert(whole[i] == " and "@[i - done.len()]);
            } else {
                assert(whole[i] == s[s.len() - 1]);
            }
        }
    }
}

/// An excluded group is not drawn from, unless all groups are excluded.
pub proof fn law_excluded_groups_are_left_out(excluded: Seq<Seq<char>>, i: int, j: int)
    requires
        0 <= i < group_table().len(),
        !is_excluded(group_table()[i].0, excluded),
        0 <= j < active_table(excluded).len(),
    ensures
        !is_excluded(active_table(excluded)[j].0, excluded),
        group_table().contains(active_table(excluded)[j]),
        active_table(excluded).contains(group_table()[i]),
{
    let keep = |g: (Seq<char>, Seq<u32>)| !is_excluded(g.0, excluded);
    group_table().lemma_filter_contains(keep, i);
    assert(kept_groups(excluded).contains(group_table()[i]));
    let g: (Seq<char>, Seq<u32>) = kept_groups(excluded)[j];
    assert(kept_groups(excluded).contains(g));
    group_table().lemma_filter_contains_rev(keep, g);
    group_table().lemma_filter_pred(keep, j);
}

// ── OpenTDB's categories ─────────────────────────────────────────────────────

/// The name of a category of OpenTDB, by its number.
pub open spec fn opentdb_name(id: u32) -> Option<Seq<char>> {
    match id {
        9 => Some("General Knowledge"@),
        10 => Some("Entertainment: Books"@),
        11 => Some("Entertainment: Film"@),
        12 => Some("Entertainment: Music"@),
        13 => Some("Entertainment: Musicals & Theatres"@),
        14 => Some("Entertainment: Television"@),
        15 => Some("Entertainment: Video Games"@),
        16 => Some("Entertainment: Board Games"@),
        17 => Some("Science & Nature"@),
        18 => Some("Science: Computers"@),
        19 => Some("Science: Mathematics"@),
        20 => Some("Mythology"@),
        21 => Some("Sports"@),
        22 => Some("Geography"@),
        23 => Some("History"@),
        24 => Some("Politics"@),
        25 => Some("Art"@),
        26 => Some("Celebrities"@),
        27 => Some("Animals"@),
        28 => Some("Vehicles"@),
        29 => Some("Entertainment: Comics"@),
        30 => Some("Science: Gadgets"@),
        31 => Some("Entertainment: Japanese Anime & Manga"@),
        32 => Some("Entertainment: Cartoon & Animations"@),
        _ => None,
    }
}

/// A single ASCII word is matched by its lower case.
proof fn lemma_word_matches(w: Seq<char>)
    requires
        w.len() > 0,
        is_ascii(w),
        forall|i: int| 0 <= i < w.len() ==> !is_white(w[i]) && w[i] != '&',
    ensures
        normalised(w) == w.map_values(|c: char| ascii_lower(c)),
{
    let low: Seq<char> = w.map_values(|c: char| ascii_lower(c));
    lemma_normalised_ascii(w);
    lemma_replace_absent(low, '&', " and "@);
    lemma_one_word(low);
}

/// ASCII words with a space between them are matched by their lower case.
proof fn lemma_two_words_match(a: Seq<char>, b: Seq<char>)
    requires
        is_ascii(a),
        is_ascii(b),
        a.len() > 0,
        b.len() > 0,
        forall|i: int| 0 <= i < a.len() ==> !is_white(a[i]) && a[i] != '&',
        forall|i: int| 0 <= i < b.len() ==> !is_white(b[i]) && b[i] != '&',
    ensures
        normalised(a + seq![' '] + b) == (a + seq![' '] + b).map_values(|c: char| ascii_lower(c)),
{
    let f = |c: char| ascii_lower(c);
    let s: Seq<char> = a + seq![' '] + b;
    lemma_ascii_both(a, seq![' ']);
    lemma_ascii_both(a + seq![' '], b);
    lemma_normalised_ascii(s);
    let low: Seq<char> = s.map_values(f);
    assert(low =~= a.map_values(f) + seq![' '] + b.map_values(f));
    lemma_replace_absent(low, '&', " and "@);
    lemma_words_split(a.map_values(f), ' ', b.map_values(f));
    lemma_one_word(a.map_values(f));
    lemma_one_word(b.map_values(f));
    reveal_strlit(" ");
    let ws: Seq<Seq<char>> = seq![a.map_values(f), b.map_values(f)];
    assert(words(low) =~= ws);
    assert(ws.drop_last() =~= seq![a.map_values(f)]);
    assert(join(ws.drop_last(), " "@) == a.map_values(f));
    assert(join(ws, " "@) =~= low);
}

/// A name that begins with "Entertainment:" is of that group.
proof fn lemma_entertainment(rest: Seq<char>)
    requires
        is_ascii(rest),
    ensures
        group_of("Entertainment:"@ + rest) == Some("Entertainment"@),
{
    reveal_strlit("Entertainment:");
    reveal_strlit("entertainment:");
    reveal_strlit("general knowledge");
    reveal_strlit("science and nature");
    reveal_strlit("science: computers");
    reveal_strlit("science: mathematics");
    reveal_strlit("science: gadgets");
    reveal_strlit("mythology");
    reveal_strlit("sports");
    reveal_strlit("geography");
    reveal_strlit("history");
    reveal_strlit("politics");
    reveal_strlit("art");
    reveal_strlit("celebrities");
    reveal_strlit("animals");
    reveal_strlit("vehicles");
    let s: Seq<char> = "Entertainment:"@ + rest;
    lemma_ascii_both("Entertainment:"@, rest);
    lemma_normalised_start(s, 14);
    let n: Seq<char> = normalised(s);
    assert forall|i: int| 0 <= i < 14 implies n[i] == "entertainment:"@[i] by {
        assert(s[i] == "Entertainment:"@[i]);
    }
    assert(n[0] == 'e');
}

proof fn lemma_entertainment_names(id: u32)
    requires
        10 <= id <= 16 || id == 29 || id == 31 || id == 32,
    ensures
        group_of(opentdb_name(id)->0) == Some("Entertainment"@),
{
    reveal_strlit("Entertainment:");
    reveal_strlit("Entertainment: Books");
    reveal_strlit("Entertainment: Film");
    reveal_strlit("Entertainment: Music");
    reveal_strlit("Entertainment: Musicals & Theatres");
    reveal_strlit("Entertainment: Television");
    reveal_strlit("Entertainment: Video Games");
    reveal_strlit("Entertainment: Board Games");
    reveal_strlit("Entertainment: Comics");
    reveal_strlit("Entertainment: Japanese Anime & Manga");
    reveal_strlit("Entertainment: Cartoon & Animations");
    let name: Seq<char> = opentdb_name(id)->0;
    let rest: Seq<char> = name.skip(14);
    assert("Entertainment:"@ + rest =~= name);
    assert(is_ascii(rest)) by {
        assert forall|i: int| 0 <= i < rest.len() implies is_ascii_char(#[trigger] rest[i]) by {
            assert(rest[i] == name[i + 14]);
        }
    }
    lemma_entertainment(rest);
}

proof fn lemma_science_names(id: u32)
    requires
        id == 9 || 17 <= id <= 19 || id == 30,
    ensures
        group_of(opentdb_name(id)->0) == Some(
            if id == 9 {
                "General Knowledge"@
            } else {
                "Science & Technology"@
            },
        ),
{
    reveal_strlit("general knowledge");
    reveal_strlit("science and nature");
    reveal_strlit("science: computers");
    reveal_strlit("science: mathematics");
    reveal_strlit("science: gadgets");
    reveal_strlit("General Knowledge");
    reveal_strlit("Science & Nature");
    reveal_strlit("Science: Computers");
    reveal_strlit("Science: Mathematics");
    reveal_strlit("Science: Gadgets");
    let f = |c: char| ascii_lower(c);
    let name: Seq<char> = opentdb_name(id)->0;
    if id == 17 {
        reveal_strlit(" & ");
        reveal_strlit(" and ");
        let a: Seq<char> = seq!['S', 'c', 'i', 'e', 'n', 'c', 'e'];
        let b: Seq<char> = seq!['N', 'a', 't', 'u', 'r', 'e'];
        assert(name =~= a + " & "@ + b);
        law_ampersand_reads_as_and(a, b);
        let s: Seq<char> = a + " and "@ + b;
        lemma_ascii_both(a, " and "@);
        lemma_ascii_both(a + " and "@, b);
        lemma_normalised_ascii(s);
        let low: Seq<char> = s.map_values(f);
        assert(low =~= "science and nature"@);
        lemma_replace_absent(low, '&', " and "@);
        let x: Seq<char> = a.map_values(f);
        let y: Seq<char> = b.map_values(f);
        let and: Seq<char> = seq!['a', 'n', 'd'];
        assert(low =~= x + seq![' '] + (and + seq![' '] + y));
        lemma_words_split(x, ' ', and + seq![' '] + y);
        lemma_words_split(and, ' ', y);
        lemma_one_word(x);
        lemma_one_word(and);
        lemma_one_word(y);
        let ws: Seq<Seq<char>> = seq![x, and, y];
        assert(words(low) =~= ws);
        reveal_strlit(" ");
        assert(ws.drop_last() =~= seq![x, and]);
        assert(ws.drop_last().drop_last() =~= seq![x]);
        assert(join(seq![x], " "@) == x);
        assert(seq![x, and].drop_last() =~= seq![x]);
        assert(join(seq![x, and], " "@) =~= x + " "@ + and);
        assert(join(ws, " "@) =~= low);
    } else {
        let n: int = if id == 9 {
            7
        } else {
            8
        };
        let a: Seq<char> = name.take(n);
        let b: Seq<char> = name.skip(n + 1);
        assert(name =~= a + seq![' '] + b);
        lemma_two_words_match(a, b);
        let low: Seq<char> = name.map_values(f);
        if id == 9 {
            assert(low =~= "general knowledge"@);
        } else if id == 18 {
            assert(low =~= "science: computers"@);
        } else if id == 19 {
            assert(low =~= "science: mathematics"@);
        } else {
            assert(low =~= "science: gadgets"@);
        }
    }
    assert(normalised(name)[0] == 'g' || normalised(name)[0] == 's');
}

proof fn lemma_single_names(id: u32)
    requires
        20 <= id <= 28,
    ensures
        group_of(opentdb_name(id)->0) == opentdb_name(id),
{
    reveal_strlit("general knowledge");
    reveal_strlit("science and nature");
    reveal_strlit("science: computers");
    reveal_strlit("science: mathematics");
    reveal_strlit("science: gadgets");
    reveal_strlit("mythology");
    reveal_strlit("sports");
    reveal_strlit("geography");
    reveal_strlit("history");
    reveal_strlit("politics");
    reveal_strlit("art");
    reveal_strlit("celebrities");
    reveal_strlit("animals");
    reveal_strlit("vehicles");
    reveal_strlit("Mythology");
    reveal_strlit("Sports");
    reveal_strlit("Geography");
    reveal_strlit("History");
    reveal_strlit("Politics");
    reveal_strlit("Art");
    reveal_strlit("Celebrities");
    reveal_strlit("Animals");
    reveal_strlit("Vehicles");
    let name: Seq<char> = opentdb_name(id)->0;
    lemma_word_matches(name);
    let low: Seq<char> = name.map_values(|c: char| ascii_lower(c));
    if id == 20 {
        assert(low =~= "mythology"@);
    } else if id == 21 {
        assert(low =~= "sports"@);
    } else if id == 22 {
        assert(low =~= "geography"@);
    } else if id == 23 {
        assert(low =~= "history"@);
    } else if id == 24 {
        assert(low =~= "politics"@);
    } else if id == 25 {
        assert(low =~= "art"@);
    } else if id == 26 {
        assert(low =~= "celebrities"@);
    } else if id == 27 {
        assert(low =~= "animals"@);
    } else {
        assert(low =~= "vehicles"@);
    }
    assert("mythology"@[0] == 'm' && "sports"@[0] == 's' && "geography"@[0] == 'g');
    assert("history"@[0] == 'h' && "politics"@[0] == 'p' && "celebrities"@[0] == 'c');
    assert("vehicles"@[0] == 'v' && "art"@[1] == 'r' && "animals"@[1] == 'n');
}

/// Where a group of the table holds a number, the number's group is that one.
proof fn lemma_find_id(groups: Seq<(Seq<char>, Seq<u32>)>, id: u32, k: int)
    requires
        0 <= k < groups.len(),
        groups[k].1.contains(id),
        forall|j: int| 0 <= j < k ==> !(#[trigger] groups[j]).1.contains(id),
    ensures
        find_id(groups, id) == Some(groups[k].0),
    decreases k,
{
    if k > 0 {
        let rest: Seq<(Seq<char>, Seq<u32>)> = groups.skip(1);
        assert(!groups[0].1.contains(id));
        assert forall|j: int| 0 <= j < k - 1 implies !(#[trigger] rest[j]).1.contains(id) by {
            assert(rest[j] == groups[j + 1]);
        }
        lemma_find_id(rest, id, k - 1);
    }
}

proof fn lemma_no_id(groups: Seq<(Seq<char>, Seq<u32>)>, id: u32)
    requires
        forall|j: int| 0 <= j < groups.len() ==> !(#[trigger] groups[j]).1.contains(id),
    ensures
        find_id(groups, id) is None,
    decreases groups.len(),
{
    if groups.len() > 0 {
        let rest: Seq<(Seq<char>, Seq<u32>)> = groups.skip(1);
        assert forall|j: int| 0 <= j < rest.len() implies !(#[trigger] rest[j]).1.contains(id) by {
            assert(rest[j] == groups[j + 1]);
        }
        lemma_no_id(rest, id);
    }
}

/// The place of a number of OpenTDB's in the table.
proof fn lemma_place_of_id(id: u32) -> (k: int)
    requires
        9 <= id <= 32,
    ensures
        0 <= k < 12,
        group_table()[k].1.contains(id),
        forall|j: int| 0 <= j < 12 && j != k ==> !(#[trigger] group_table()[j]).1.contains(id),
        id == 9 ==> k == 0,
        10 <= id <= 16 || id == 29 || id == 31 || id == 32 ==> k == 1,
        17 <= id <= 19 || id == 30 ==> k == 2,
        20 <= id <= 28 ==> k == id - 17,
{
    let t: Seq<(Seq<char>, Seq<u32>)> = group_table();
    let films: Seq<u32> = t[1].1;
    let sciences: Seq<u32> = t[2].1;
    let k: int = if id == 9 {
        0
    } else if 10 <= id <= 16 || id == 29 || id == 31 || id == 32 {
        1
    } else if 17 <= id <= 19 || id == 30 {
        2
    } else {
        id - 17
    };
    if k == 1 {
        let i: int = if id <= 16 {
            id - 10
        } else if id == 29 {
            7
        } else {
            id - 23
        };
        assert(films[i] == id);
    } else if k == 2 {
        let i: int = if id <= 19 {
            id - 17
        } else {
            3
        };
        assert(sciences[i] == id);
    } else {
        assert(t[k].1[0] == id);
    }
    k
}

/// The groups hold OpenTDB's categories by what they are: the group that holds
/// the number of a category is the group of its name. A number that OpenTDB does
/// not have is in no group.
pub proof fn law_groups_hold_their_categories(id: u32)
    ensures
        opentdb_name(id) is Some ==> find_id(group_table(), id) is Some && find_id(
            group_table(),
            id,
        ) == group_of(opentdb_name(id)->0),
        opentdb_name(id) is None ==> find_id(group_table(), id) is None,
{
    let t: Seq<(Seq<char>, Seq<u32>)> = group_table();
    if 9 <= id <= 32 {
        let k: int = lemma_place_of_id(id);
        lemma_find_id(t, id, k);
        if 20 <= id <= 28 {
            lemma_single_names(id);
        } else if k == 1 {
            lemma_entertainment_names(id);
        } else {
            lemma_science_names(id);
        }
    } else {
        assert forall|j: int| 0 <= j < t.len() implies !(#[trigger] t[j]).1.contains(id) by {
            if t[j].1.contains(id) {
                let i: int = t[j].1.index_of(id);
                assert(t[j].1[i] == id);
            }
        }
        lemma_no_id(t, id);
    }
}

/// Every number in the table is the number of a category of OpenTDB, and stands
/// in the one group that its name belongs to.
pub proof fn law_every_category_has_its_group(j: int, id: u32)
    requires
        0 <= j < group_table().len(),
        group_table()[j].1.contains(id),
    ensures
        opentdb_name(id) is Some,
        group_of(opentdb_name(id)->0) == Some(group_table()[j].0),
        find_id(group_table(), id) == Some(group_table()[j].0),
{
    let t: Seq<(Seq<char>, Seq<u32>)> = group_table();
    let i: int = t[j].1.index_of(id);
    assert(t[j].1[i] == id);
    assert(9 <= id <= 32);
    let k: int = lemma_place_of_id(id);
    assert(j == k);
    lemma_find_id(t, id, k);
    law_groups_hold_their_categories(id);
}

} // verus!
