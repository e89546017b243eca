//! Questions and answers of the dataset as they are shown.

use vstd::prelude::*;

use crate::letters::{
    is_letter, is_letter_or_number, is_upper, letter, letter_or_number, lower, lowered, upper,
    upper_case, uppered,
};
use crate::text::{
    char_texts, chars_of, copy_range, find_char, join, join_texts, lemma_find_char_at,
    lemma_replace_both, replace_char, same, split_words, text_of, texts, trim, trimmed, words,
};

verus! {

// ── Questions ────────────────────────────────────────────────────────────────

/// A text with one quote for every two in a row.
pub open spec fn halved_quotes(s: Seq<char>) -> Seq<char>
    decreases s.len(),
{
    if s.len() == 0 {
        Seq::empty()
    } else if s.len() >= 2 && s[0] == '"' && s[1] == '"' {
        seq!['"'] + halved_quotes(s.skip(2))
    } else {
        seq![s[0]] + halved_quotes(s.skip(1))
    }
}

fn halve_quotes(v: &Vec<char>) -> (r: Vec<char>)
    ensures
        r@ == halved_quotes(v@),
{
    let mut out: Vec<char> = Vec::new();
    let mut i: usize = 0;
    assert(v@.skip(0) =~= v@);
    assert(out@ + halved_quotes(v@) =~= halved_quotes(v@));
    while i < v.len()
        invariant
            i <= v.len(),
            halved_quotes(v@) == out@ + halved_quotes(v@.skip(i as int)),
        decreases v.len() - i,
    {
        let ghost s: Seq<char> = v@.skip(i as int);
        let ghost before: Seq<char> = out@;
        let c: char = v[i];
        out.push(c);
        if c == '"' && i + 1 < v.len() && v[i + 1] == '"' {
            assert(s.skip(2) =~= v@.skip(i + 2));
            assert(before + (seq!['"'] + halved_quotes(s.skip(2))) =~= out@ + halved_quotes(
                s.skip(2),
            ));
            i = i + 2;
        } else {
            assert(s.skip(1) =~= v@.skip(i + 1));
            assert(before + (seq![c] + halved_quotes(s.skip(1))) =~= out@ + halved_quotes(
                s.skip(1),
            ));
            i = i + 1;
        }
    }
    assert(v@.skip(i as int) =~= Seq::<char>::empty());
    assert(out@ =~= halved_quotes(v@));
    out
}

/// A text without the pair of quotes around it.
pub open spec fn unquoted(s: Seq<char>) -> Seq<char> {
    if s.len() > 2 && s[0] == '"' && s.last() == '"' {
        trimmed(s.subrange(1, s.len() - 1))
    } else {
        s
    }
}

/// Words with which a question begins.
pub open spec fn question_words() -> Seq<Seq<char>> {
    seq![
        "what"@,
        "which"@,
        "who"@,
        "whose"@,
        "whom"@,
        "where"@,
        "when"@,
        "why"@,
        "how"@,
        "in"@,
        "on"@,
        "at"@,
        "of"@,
        "for"@,
        "from"@,
        "by"@,
        "to"@,
        "is"@,
        "are"@,
        "was"@,
        "were"@,
        "did"@,
        "does"@,
        "do"@,
        "can"@,
    ]
}

fn is_question_word(w: &str) -> (r: bool)
    ensures
        r == question_words().contains(w@),
{
    let list: Vec<&'static str> = vec![
        "what", "which", "who", "whose", "whom", "where", "when", "why", "how", "in", "on", "at",
        "of", "for", "from", "by", "to", "is", "are", "was", "were", "did", "does", "do", "can",
    ];
    let mut i: usize = 0;
    while i < list.len()
        invariant
            i <= list.len(),
            list.len() == question_words().len(),
            forall|k: int|
                0 <= k < list.len() ==> (#[trigger] list@[k])@ == question_words()[k],
            forall|k: int| 0 <= k < i ==> question_words()[k] != w@,
        decreases list.len() - i,
    {
        assert(list@[i as int]@ == question_words()[i as int]);
        if same(list[i], w) {
            return true;
        }
        i = i + 1;
    }
    false
}

/// The first word of a text in lower case, or nothing.
pub open spec fn first_word(s: Seq<char>) -> Seq<char> {
    if words(s).len() == 0 {
        Seq::empty()
    } else {
        lowered(words(s)[0])
    }
}

/// Whether a question mark is missing: the text begins as a question does, and
/// ends in a letter or a number.
pub open spec fn lacks_mark(s: Seq<char>) -> bool {
    s.len() > 0 && is_letter_or_number(s.last()) && question_words().contains(first_word(s))
}

/// A question as it is shown.
pub open spec fn shown_question(raw: Seq<char>) -> Seq<char> {
    let q: Seq<char> = unquoted(halved_quotes(trimmed(raw)));
    if lacks_mark(q) {
        q.push('?')
    } else {
        q
    }
}

/// Tidies a question: quotes doubled as in a table, quotes around the whole,
/// and a missing question mark.
pub fn clean_question(raw: &str) -> (r: String)
    ensures
        r@ == shown_question(raw@),
{
    let halved = halve_quotes(&trim(&chars_of(raw)));
    let mut q: Vec<char> = if halved.len() > 2 && halved[0] == '"' && halved[halved.len() - 1]
        == '"' {
        trim(&copy_range(&halved, 1, halved.len() - 1))
    } else {
        halved
    };
    if q.len() > 0 && letter_or_number(q[q.len() - 1]) {
        let list = split_words(&q);
        let first: String = if list.len() > 0 {
            assert(char_texts(list@)[0] == list@[0]@);
            lower(text_of(&list[0]).as_str())
        } else {
            String::new()
        };
        assert(char_texts(list@).len() == list.len());
        assert(first@ =~= first_word(q@));
        if is_question_word(first.as_str()) {
            q.push('?');
        }
    }
    text_of(&q)
}

/// Only the quotes, the ends and the question mark of a question are touched:
/// without quotes it is the trimmed text, with a question mark at most.
pub proof fn law_questions_without_quotes_stay(raw: Seq<char>)
    requires
        !trimmed(raw).contains('"'),
    ensures
        shown_question(raw) == trimmed(raw) || shown_question(raw) == trimmed(raw).push('?'),
{
    let s: Seq<char> = trimmed(raw);
    lemma_no_quotes(s);
    if s.len() > 0 {
        assert(s.contains(s[0]));
    }
}

proof fn lemma_no_quotes(s: Seq<char>)
    requires
        !s.contains('"'),
    ensures
        halved_quotes(s) == s,
    decreases s.len(),
{
    if s.len() > 0 {
        assert(s.contains(s[0]));
        assert forall|c: char| s.skip(1).contains(c) implies s.contains(c) by {
            let i: int = s.skip(1).index_of(c);
            assert(s[i + 1] == c);
        }
        lemma_no_quotes(s.skip(1));
        assert(seq![s[0]] + s.skip(1) =~= s);
    } else {
        assert(halved_quotes(s) =~= s);
    }
}

// ── Answers ──────────────────────────────────────────────────────────────────

/// The letters of a text.
pub open spec fn letters_of(s: Seq<char>) -> Seq<char> {
    s.filter(|c: char| is_letter(c))
}

/// Whether a text is written in capitals, and long enough to be no acronym.
pub open spec fn shouts(s: Seq<char>) -> bool {
    &&& letters_of(s).len() > 4
    &&& forall|i: int| 0 <= i < letters_of(s).len() ==> is_upper(#[trigger] letters_of(s)[i])
}

fn is_shouting(v: &Vec<char>) -> (r: bool)
    ensures
        r == shouts(v@),
{
    let ghost keep = |c: char| is_letter(c);
    let mut count: usize = 0;
    let mut all_upper: bool = true;
    let mut i: usize = 0;
    assert(v@.take(0).filter(keep) =~= Seq::<char>::empty()) by {
        reveal(Seq::filter);
    }
    while i < v.len()
        invariant
            i <= v.len(),
            keep == (|c: char| is_letter(c)),
            count == v@.take(i as int).filter(keep).len(),
            count <= i,
            all_upper == (forall|k: int|
                0 <= k < v@.take(i as int).filter(keep).len() ==> is_upper(
                    #[trigger] v@.take(i as int).filter(keep)[k],
                )),
        decreases v.len() - i,
    {
        let c: char = v[i];
        let ghost before: Seq<char> = v@.take(i as int).filter(keep);
        let ghost after: Seq<char> = v@.take(i + 1).filter(keep);
        proof {
            assert(v@.take(i + 1).drop_last() =~= v@.take(i as int));
            assert(v@.take(i + 1).last() == c);
            reveal(Seq::filter);
        }
        if letter(c) {
            assert(after == before.push(c));
            count = count + 1;
            let up: bool = upper_case(c);
            proof {
                let good: bool = forall|k: int|
                    0 <= k < after.len() ==> is_upper(#[trigger] after[k]);
                if good {
                    assert(is_upper(after[before.len() as int]));
                    assert forall|k: int| 0 <= k < before.len() implies is_upper(
                        #[trigger] before[k],
                    ) by {
                        assert(after[k] == before[k]);
                    }
                }
            }
            all_upper = all_upper && up;
        }
        i = i + 1;
    }
    assert(v@.take(v.len() as int) =~= v@);
    count > 4 && all_upper
}

/// The parts of a text between single spaces.
pub open spec fn split_spaces(s: Seq<char>) -> Seq<Seq<char>>
    decreases s.len(),
{
    let n: nat = find_char(s, ' ');
    if n < s.len() {
        seq![s.take(n as int)] + split_spaces(s.skip(n as int + 1))
    } else {
        seq![s]
    }
}

fn split_at_spaces(v: &Vec<char>) -> (r: Vec<Vec<char>>)
    ensures
        char_texts(r@) == split_spaces(v@),
{
    let mut out: Vec<Vec<char>> = Vec::new();
    let mut start: usize = 0;
    let mut i: usize = 0;
    assert(v@.skip(0) =~= v@);
    assert(char_texts(out@) + split_spaces(v@) =~= split_spaces(v@));
    while i < v.len()
        invariant
            start <= i <= v.len(),
            split_spaces(v@) == char_texts(out@) + split_spaces(v@.skip(start as int)),
            forall|k: int| start <= k < i ==> v@[k] != ' ',
        decreases v.len() - i,
    {
        if v[i] == ' ' {
            let ghost s: Seq<char> = v@.skip(start as int);
            let ghost before: Seq<Vec<char>> = out@;
            let part = copy_range(v, start, i);
            proof {
                lemma_find_char_at(s, ' ', i - start);
                assert(part@ =~= s.take(i - start));
                assert(s.skip(i - start + 1) =~= v@.skip(i + 1));
            }
            out.push(part);
            proof {
                assert(char_texts(out@) =~= char_texts(before).push(part@));
                assert(char_texts(before) + (seq![part@] + split_spaces(v@.skip(i + 1)))
                    =~= char_texts(out@) + split_spaces(v@.skip(i + 1)));
            }
            start = i + 1;
        }
        i = i + 1;
    }
    let ghost s: Seq<char> = v@.skip(start as int);
    let ghost before: Seq<Vec<char>> = out@;
    let part = copy_range(v, start, v.len());
    proof {
        lemma_find_char_at(s, ' ', s.len() as int);
        assert(part@ =~= s);
    }
    out.push(part);
    assert(char_texts(out@) =~= char_texts(before) + seq![s]);
    out
}

/// Whether a word stays small within a title.
pub open spec fn is_small_word(w: Seq<char>) -> bool {
    w == "of"@ || w == "the"@ || w == "and"@ || w == "in"@ || w == "on"@ || w == "de"@ || w == "la"@
}

/// A word of a title: its first letter is a capital, unless it is a small word
/// further on.
pub open spec fn title_word(i: int, word: Seq<char>) -> Seq<char> {
    let low: Seq<char> = lowered(word);
    if i > 0 && is_small_word(low) {
        low
    } else if low.len() > 0 {
        uppered(low[0]) + low.skip(1)
    } else {
        Seq::empty()
    }
}

/// An answer as it is shown.
pub open spec fn shown_answer(raw: Seq<char>) -> Seq<char> {
    let answer: Seq<char> = trimmed(raw);
    if shouts(answer) {
        join(split_spaces(answer).map(|i: int, w: Seq<char>| title_word(i, w)), " "@)
    } else {
        answer
    }
}

fn titled(i: usize, word: &Vec<char>) -> (r: String)
    ensures
        r@ == title_word(i as int, word@),
{
    let low = lower(text_of(word).as_str());
    let l: &str = low.as_str();
    if i > 0 && (same(l, "of") || same(l, "the") || same(l, "and") || same(l, "in") || same(l, "on")
        || same(l, "de") || same(l, "la")) {
        return low;
    }
    let chars = chars_of(l);
    if chars.len() == 0 {
        let empty = String::new();
        assert(empty@ =~= Seq::<char>::empty());
        return empty;
    }
    let mut out = text_of(&upper(chars[0]));
    let rest = copy_range(&chars, 1, chars.len());
    assert(rest@ =~= low@.skip(1));
    out.append(text_of(&rest).as_str());
    out
}

/// Writes an answer in capitals as a title: next to others it would give
/// itself away. Short ones stay, as they are likely acronyms.
pub fn display_answer(raw: &str) -> (r: String)
    ensures
        r@ == shown_answer(raw@),
{
    let answer = trim(&chars_of(raw));
    if !is_shouting(&answer) {
        return text_of(&answer);
    }
    let parts = split_at_spaces(&answer);
    let ghost all: Seq<Seq<char>> = char_texts(parts@);
    let mut out: Vec<String> = Vec::new();
    let mut i: usize = 0;
    while i < parts.len()
        invariant
            i <= parts.len(),
            all == char_texts(parts@),
            out.len() == i,
            forall|k: int| 0 <= k < i ==> (#[trigger] out@[k])@ == title_word(k, all[k]),
        decreases parts.len() - i,
    {
        assert(all[i as int] == parts@[i as int]@);
        out.push(titled(i, &parts[i]));
        i = i + 1;
    }
    assert(texts(out@) =~= all.map(|k: int, w: Seq<char>| title_word(k, w)));
    join_texts(&out, " ")
}

/// An answer with a letter that is no capital, or with four letters at most,
/// is shown as it is.
pub proof fn law_ordinary_answers_stay(raw: Seq<char>, i: int)
    requires
        letters_of(trimmed(raw)).len() <= 4 || 0 <= i < letters_of(trimmed(raw)).len() && !is_upper(
            letters_of(trimmed(raw))[i],
        ),
    ensures
        shown_answer(raw) == trimmed(raw),
{
}

// ── Laws ─────────────────────────────────────────────────────────────────────

/// Only a pair of quotes around the whole question is removed. Where the text
/// does not both begin and end with a quote, it stays, with a question mark at
/// most; where it does, what stands between the quotes is shown.
pub proof fn law_only_quotes_around_the_whole_are_removed(raw: Seq<char>)
    ensures
        ({
            let text: Seq<char> = halved_quotes(trimmed(raw));
            let inside: Seq<char> = trimmed(text.subrange(1, text.len() - 1));
            let shown: Seq<char> = shown_question(raw);
            &&& text.len() <= 2 || text[0] != '"' || text.last() != '"' ==> shown == text || shown
                == text.push('?')
            &&& text.len() > 2 && text[0] == '"' && text.last() == '"' ==> shown == inside || shown
                == inside.push('?')
        }),
{
}

/// A text in which every quote was doubled is read as the text itself.
pub proof fn law_doubled_quotes_read_back(s: Seq<char>)
    ensures
        halved_quotes(replace_char(s, '"', "\"\""@)) == s,
    decreases s.len(),
{
    reveal_strlit("\"\"");
    let two: Seq<char> = "\"\""@;
    if s.len() > 0 {
        let rest: Seq<char> = s.skip(1);
        law_doubled_quotes_read_back(rest);
        assert(s =~= seq![s[0]] + rest);
        lemma_replace_both(seq![s[0]], rest, '"', two);
        let r: Seq<char> = replace_char(rest, '"', two);
        let whole: Seq<char> = replace_char(s, '"', two);
        let one: Seq<char> = seq![s[0]];
        assert(one.drop_last() =~= Seq::<char>::empty());
        assert(replace_char(Seq::<char>::empty(), '"', two) == Seq::<char>::empty());
        if s[0] == '"' {
            assert(replace_char(one, '"', two) =~= two);
            assert(whole.skip(2) =~= r);
            assert(seq!['"'] + rest =~= s);
        } else {
            assert(replace_char(one, '"', two) =~= one);
            assert(whole.skip(1) =~= r);
            assert(seq![s[0]] + rest =~= s);
        }
    } else {
        assert(replace_char(s, '"', two) =~= Seq::<char>::empty());
        assert(halved_quotes(s) =~= s);
    }
}

/// Quotes that are not doubled stay.
pub proof fn law_single_quotes_stay(s: Seq<char>)
    requires
        forall|i: int| 0 <= i < s.len() - 1 && s[i] == '"' ==> #[trigger] s[i + 1] != '"',
    ensures
        halved_quotes(s) == s,
    decreases s.len(),
{
    if s.len() > 0 {
        let rest: Seq<char> = s.skip(1);
        assert forall|i: int| 0 <= i < rest.len() - 1 && rest[i] == '"' implies #[trigger] rest[i
            + 1] != '"' by {
            assert(s[i + 2] != '"' || s[i + 1] != '"') by {
                if s[i + 1] == '"' {
                    assert(s[(i + 1) + 1] != '"');
                }
            }
        }
        law_single_quotes_stay(rest);
        if s.len() >= 2 && s[0] == '"' {
            let i: int = 0;
            assert(s[i + 1] != '"');
        }
        assert(seq![s[0]] + rest =~= s);
    } else {
        assert(halved_quotes(s) =~= s);
    }
}

/// Whether a word opens a question.
pub open spec fn opens_question(w: Seq<char>) -> bool {
    ||| w == "what"@ || w == "which"@ || w == "who"@ || w == "whose"@ || w == "whom"@
    ||| w == "where"@ || w == "when"@ || w == "why"@ || w == "how"@
    ||| w == "in"@ || w == "on"@ || w == "at"@ || w == "of"@ || w == "for"@ || w == "from"@
    ||| w == "by"@ || w == "to"@
    ||| w == "is"@ || w == "are"@ || w == "was"@ || w == "were"@
    ||| w == "did"@ || w == "does"@ || w == "do"@ || w == "can"@
}

proof fn lemma_question_words(w: Seq<char>)
    ensures
        question_words().contains(w) == opens_question(w),
{
    let list: Seq<Seq<char>> = question_words();
    if opens_question(w) {
        assert(list[0] == "what"@ && list[1] == "which"@ && list[2] == "who"@ && list[3]
            == "whose"@ && list[4] == "whom"@ && list[5] == "where"@ && list[6] == "when"@
            && list[7] == "why"@ && list[8] == "how"@ && list[9] == "in"@ && list[10] == "on"@
            && list[11] == "at"@ && list[12] == "of"@ && list[13] == "for"@ && list[14] == "from"@
            && list[15] == "by"@ && list[16] == "to"@ && list[17] == "is"@ && list[18] == "are"@
            && list[19] == "was"@ && list[20] == "were"@ && list[21] == "did"@ && list[22]
            == "does"@ && list[23] == "do"@ && list[24] == "can"@);
    }
    if list.contains(w) {
        let i: int = list.index_of(w);
        assert(list[i] == w);
    }
}

/// A question mark is added exactly where it is missing: the text opens with a
/// word that asks, in whatever case, and ends in a letter or a number.
pub proof fn law_missing_question_marks_are_added(raw: Seq<char>)
    requires
        !trimmed(raw).contains('"'),
    ensures
        ({
            let text: Seq<char> = trimmed(raw);
            let asks: bool = words(text).len() > 0 && opens_question(lowered(words(text)[0]));
            &&& asks && is_letter_or_number(text.last()) ==> shown_question(raw) == text.push('?')
            &&& !asks || !is_letter_or_number(text.last()) ==> shown_question(raw) == text
        }),
{
    let text: Seq<char> = trimmed(raw);
    law_questions_without_quotes_stay(raw);
    lemma_no_quotes(text);
    if text.len() > 0 {
        assert(text.contains(text[0]));
    }
    lemma_question_words(first_word(text));
    if words(text).len() == 0 {
        reveal_strlit("what");
        reveal_strlit("which");
        reveal_strlit("who");
        reveal_strlit("whose");
        reveal_strlit("whom");
        reveal_strlit("where");
        reveal_strlit("when");
        reveal_strlit("why");
        reveal_strlit("how");
        reveal_strlit("in");
        reveal_strlit("on");
        reveal_strlit("at");
        reveal_strlit("of");
        reveal_strlit("for");
        reveal_strlit("from");
        reveal_strlit("by");
        reveal_strlit("to");
        reveal_strlit("is");
        reveal_strlit("are");
        reveal_strlit("was");
        reveal_strlit("were");
        reveal_strlit("did");
        reveal_strlit("does");
        reveal_strlit("do");
        reveal_strlit("can");
        assert(!opens_question(Seq::<char>::empty()));
    }
    if text.len() == 0 {
        assert(words(text).len() == 0);
    }
}

} // verus!
