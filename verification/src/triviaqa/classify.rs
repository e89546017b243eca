//! Having a language model prepare questions: what it is asked, and what is
//! taken of its reply.

use vstd::prelude::*;
use vstd::utf8::encode_utf8;

use crate::fetcher::categories::{category_groups, group_table, group_views, normalise, normalised};
use crate::letters::{ascii_lower, is_ascii, lower, lowered};
use crate::text::{
    chars_of, contains_text, copy_range, find_char, has_text, is_white, join, join_texts,
    law_joined_parts_are_there, lemma_find_char_at, lemma_nothing_to_trim, lemma_trimmed_of,
    opt_str, position_of, same, stands_at, text_of, texts, trim, trim_both, trim_end_of, trim_of,
    trim_start, trim_start_of, trim_text, trimmed, CharClass,
};
use crate::triviaqa::cleanup::{clean_question, display_answer, shown_answer, shown_question};

verus! {

/// The version of the prompt. Questions prepared under an older one are
/// prepared again.
pub const GENERATION_VERSION: i64 = 2;

/// How many questions are prepared at once.
pub const BATCH_SIZE: usize = 10;

/// How long the reply may be.
pub const REPLY_TOKENS: u32 = 6000;

// ── The prompt ───────────────────────────────────────────────────────────────

/// What a category group covers.
pub open spec fn description_of(name: Seq<char>) -> Seq<char> {
    if name == "General Knowledge"@ {
        "everyday facts, words and language, food and drink, customs, mixed trivia that fits no other group"@
    } else if name == "Entertainment"@ {
        "film, TV, music, books and literature (incl. authors, characters, settings), theatre, video and board games, comics, anime"@
    } else if name == "Science & Technology"@ {
        "physics, chemistry, biology, medicine, the human body, space, maths, computing, inventions, gadgets"@
    } else if name == "Mythology"@ {
        "myths, legends, gods and heroes, folklore, religious stories"@
    } else if name == "Sports"@ {
        "sports, athletes, teams, competitions, rules of games, the Olympics"@
    } else if name == "Geography"@ {
        "countries, capitals, cities, rivers, mountains, flags, where places or landmarks are"@
    } else if name == "History"@ {
        "past events, wars, rulers, historical figures, eras, discoveries"@
    } else if name == "Politics"@ {
        "governments, politicians, elections, political systems, international organisations"@
    } else if name == "Art"@ {
        "painting, sculpture, architecture, artists, art movements, design"@
    } else if name == "Celebrities"@ {
        "famous people's lives, nicknames, relationships and scandals (not their works)"@
    } else if name == "Animals"@ {
        "animals, pets, breeds, zoology"@
    } else if name == "Vehicles"@ {
        "cars, trains, ships, aircraft, their makers, models and logos"@
    } else {
        ""@
    }
}

/// What a category group covers. By the names alone a model would file the
/// setting of a novel under Geography.
pub fn group_description(name: &str) -> (r: &'static str)
    ensures
        r@ == description_of(name@),
{
    if same(name, "General Knowledge") {
        "everyday facts, words and language, food and drink, customs, mixed trivia that fits no other group"
    } else if same(name, "Entertainment") {
        "film, TV, music, books and literature (incl. authors, characters, settings), theatre, video and board games, comics, anime"
    } else if same(name, "Science & Technology") {
        "physics, chemistry, biology, medicine, the human body, space, maths, computing, inventions, gadgets"
    } else if same(name, "Mythology") {
        "myths, legends, gods and heroes, folklore, religious stories"
    } else if same(name, "Sports") {
        "sports, athletes, teams, competitions, rules of games, the Olympics"
    } else if same(name, "Geography") {
        "countries, capitals, cities, rivers, mountains, flags, where places or landmarks are"
    } else if same(name, "History") {
        "past events, wars, rulers, historical figures, eras, discoveries"
    } else if same(name, "Politics") {
        "governments, politicians, elections, political systems, international organisations"
    } else if same(name, "Art") {
        "painting, sculpture, architecture, artists, art movements, design"
    } else if same(name, "Celebrities") {
        "famous people's lives, nicknames, relationships and scandals (not their works)"
    } else if same(name, "Animals") {
        "animals, pets, breeds, zoology"
    } else if same(name, "Vehicles") {
        "cars, trains, ships, aircraft, their makers, models and logos"
    } else {
        ""
    }
}

/// The part of the prompt before the category groups.
pub const PROMPT_HEAD: &'static str = "\
    You prepare trivia questions for a multiple-choice quiz played by adults in a Matrix \
    chat. For each ITEM (id, question, correct answer) decide:\n\
    \n\
    1. suitable — false if the question should not be asked: its answer is time-bound or may \
    be outdated (\"currently\", \"this year\", future tense, records, holders), the question \
    is ambiguous, incomplete or garbled, the answer looks wrong, it needs an image or audio, \
    or the question gives the answer away. Give a short reason.\n\
    2. category — exactly one of these names, by what the question is about:\n\
    ";

/// The part of the prompt after the category groups.
pub const PROMPT_TAIL: &'static str = "\
    \n\
    3. difficulty — for a quiz-interested adult who sees 4 options:\n\
    \x20\x20\x20easy: most people know it; medium: needs some general knowledge; hard: \
    specialist or obscure knowledge.\n\
    4. wrong_answers — 3 answers that are clearly wrong but plausible to someone unsure: \
    same kind of thing as the correct answer (person/place/year/number/title), similar \
    length and formatting, clearly different from each other, never the correct answer, a \
    synonym or a partial form of it.\n\
    \n\
    Never change the question or the correct answer.\n\
    Reply with one JSON object only:\n\
    {\"items\": [{\"id\": <id>, \"suitable\": true, \"reason\": \"\", \"category\": \
    \"<name>\", \"difficulty\": \"easy|medium|hard\", \"wrong_answers\": [\"…\", \"…\", \
    \"…\"]}]}";

/// The line of the prompt for a category group.
pub open spec fn group_line(name: Seq<char>) -> Seq<char> {
    "- \""@ + name + "\": "@ + description_of(name)
}

/// The prompt that has questions prepared.
pub open spec fn prompt() -> Seq<char> {
    PROMPT_HEAD@ + join(
        group_table().map_values(|g: (Seq<char>, Seq<u32>)| group_line(g.0)),
        "\n"@,
    ) + PROMPT_TAIL@
}

/// The prompt that has questions prepared. It names every category group.
pub fn generation_system_prompt() -> (r: String)
    ensures
        r@ == prompt(),
{
    let groups = category_groups();
    let ghost table: Seq<(Seq<char>, Seq<u32>)> = group_views(groups@);
    let mut lines: Vec<String> = Vec::new();
    let mut i: usize = 0;
    while i < groups.len()
        invariant
            i <= groups.len(),
            table == group_views(groups@),
            lines.len() == i,
            forall|k: int| 0 <= k < i ==> (#[trigger] lines@[k])@ == group_line(table[k].0),
        decreases groups.len() - i,
    {
        assert(table[i as int].0 == groups@[i as int].name@);
        let mut line = "- \"".to_owned();
        line.append(groups[i].name);
        line.append("\": ");
        line.append(group_description(groups[i].name));
        lines.push(line);
        i = i + 1;
    }
    assert(texts(lines@) =~= group_table().map_values(
        |g: (Seq<char>, Seq<u32>)| group_line(g.0),
    ));
    let mut out = PROMPT_HEAD.to_owned();
    out.append(join_texts(&lines, "\n").as_str());
    out.append(PROMPT_TAIL);
    out
}

/// Every category group is described.
pub proof fn law_every_group_is_described(i: int)
    requires
        0 <= i < group_table().len(),
    ensures
        description_of(group_table()[i].0).len() > 0,
{
    reveal_strlit("everyday facts, words and language, food and drink, customs, mixed trivia that fits no other group");
    reveal_strlit("film, TV, music, books and literature (incl. authors, characters, settings), theatre, video and board games, comics, anime");
    reveal_strlit("physics, chemistry, biology, medicine, the human body, space, maths, computing, inventions, gadgets");
    reveal_strlit("myths, legends, gods and heroes, folklore, religious stories");
    reveal_strlit("sports, athletes, teams, competitions, rules of games, the Olympics");
    reveal_strlit("countries, capitals, cities, rivers, mountains, flags, where places or landmarks are");
    reveal_strlit("past events, wars, rulers, historical figures, eras, discoveries");
    reveal_strlit("governments, politicians, elections, political systems, international organisations");
    reveal_strlit("painting, sculpture, architecture, artists, art movements, design");
    reveal_strlit("famous people's lives, nicknames, relationships and scandals (not their works)");
    reveal_strlit("animals, pets, breeds, zoology");
    reveal_strlit("cars, trains, ships, aircraft, their makers, models and logos");
    reveal_strlit("General Knowledge");
    reveal_strlit("Entertainment");
    reveal_strlit("Science & Technology");
    reveal_strlit("Mythology");
    reveal_strlit("Sports");
    reveal_strlit("Geography");
    reveal_strlit("History");
    reveal_strlit("Politics");
    reveal_strlit("Art");
    reveal_strlit("Celebrities");
    reveal_strlit("Animals");
    reveal_strlit("Vehicles");
}

// ── Items ────────────────────────────────────────────────────────────────────

/// A question of the pool.
pub struct TriviaQaRow {
    pub id: i64,
    pub question_text: String,
    pub correct_answer: String,
    pub aliases: Vec<String>,
    /// What was prepared, once it was.
    pub category_group: Option<String>,
    pub difficulty: Option<String>,
    pub distractors: Option<Vec<String>>,
}

/// A question as it is handed to the model.
pub struct BatchItem {
    pub id: i64,
    pub question: String,
    pub correct_answer: String,
}

/// The questions of a batch as they are handed to the model: as they will be
/// shown.
pub fn batch_items(rows: &Vec<TriviaQaRow>) -> (r: Vec<BatchItem>)
    ensures
        r.len() == rows.len(),
        forall|i: int|
            0 <= i < r.len() ==> (#[trigger] r@[i]).id == rows@[i].id && r@[i].question@
                == shown_question(rows@[i].question_text@) && r@[i].correct_answer@
                == shown_answer(rows@[i].correct_answer@),
{
    let mut out: Vec<BatchItem> = Vec::new();
    let mut i: usize = 0;
    while i < rows.len()
        invariant
            i <= rows.len(),
            out.len() == i,
            forall|k: int|
                0 <= k < i ==> (#[trigger] out@[k]).id == rows@[k].id && out@[k].question@
                    == shown_question(rows@[k].question_text@) && out@[k].correct_answer@
                    == shown_answer(rows@[k].correct_answer@),
        decreases rows.len() - i,
    {
        out.push(
            BatchItem {
                id: rows[i].id,
                question: clean_question(rows[i].question_text.as_str()),
                correct_answer: display_answer(rows[i].correct_answer.as_str()),
            },
        );
        i = i + 1;
    }
    out
}

/// What the model says of a question.
pub struct ItemReply {
    pub id: i64,
    pub suitable: bool,
    pub reason: String,
    pub category: String,
    pub difficulty: String,
    pub wrong_answers: Vec<String>,
}

/// A question is suitable where nothing is said.
pub fn yes() -> (r: bool)
    ensures
        r,
{
    true
}

// ── Names ────────────────────────────────────────────────────────────────────

/// The name of the first group from `from` on that a text matches.
pub open spec fn group_named(raw: Seq<char>, from: int) -> Option<Seq<char>>
    decreases group_table().len() - from,
{
    if from >= group_table().len() {
        None
    } else if normalised(group_table()[from].0) == normalised(raw) {
        Some(group_table()[from].0)
    } else {
        group_named(raw, from + 1)
    }
}

/// The category group that a text names.
pub fn canonicalize_category_group(raw: &str) -> (r: Option<&'static str>)
    ensures
        opt_str(r) == group_named(raw@, 0),
{
    let groups = category_groups();
    let key = normalise(raw);
    let mut i: usize = 0;
    while i < groups.len()
        invariant
            i <= groups.len(),
            groups.len() == group_table().len(),
            group_views(groups@) == group_table(),
            key@ == normalised(raw@),
            group_named(raw@, 0) == group_named(raw@, i as int),
        decreases groups.len() - i,
    {
        assert(group_views(groups@)[i as int].0 == groups@[i as int].name@);
        if same(normalise(groups[i].name).as_str(), key.as_str()) {
            return Some(groups[i].name);
        }
        i = i + 1;
    }
    None
}

/// A difficulty that is known.
pub open spec fn difficulty_named(raw: Seq<char>) -> Option<Seq<char>> {
    let d: Seq<char> = lowered(trimmed(raw));
    if d == "easy"@ || d == "medium"@ || d == "hard"@ {
        Some(d)
    } else {
        None
    }
}

/// The difficulty that a text names.
pub fn canonicalize_difficulty(raw: &str) -> (r: Option<&'static str>)
    ensures
        opt_str(r) == difficulty_named(raw@),
{
    let d = lower(trim_text(raw).as_str());
    if same(d.as_str(), "easy") {
        Some("easy")
    } else if same(d.as_str(), "medium") {
        Some("medium")
    } else if same(d.as_str(), "hard") {
        Some("hard")
    } else {
        None
    }
}

// ── Wrong answers ────────────────────────────────────────────────────────────

/// How many wrong answers a question has.
pub const DISTRACTORS: usize = 3;

/// How many bytes a wrong answer may have.
pub const MAX_DISTRACTOR_LEN: usize = 200;

/// A line without numbering, quotes and blanks around it.
pub open spec fn bare_line(line: Seq<char>) -> Seq<char> {
    trimmed(
        trim_of(trim_start_of(trimmed(line), CharClass::ListMark), CharClass::Quote),
    )
}

/// Whether a text can be a wrong answer, given the answers that are right and
/// the wrong ones that are there.
pub open spec fn is_new_wrong(
    c: Seq<char>,
    right: Seq<Seq<char>>,
    taken: Seq<Seq<char>>,
) -> bool {
    &&& c.len() > 0
    &&& encode_utf8(c).len() <= MAX_DISTRACTOR_LEN
    &&& forall|i: int| 0 <= i < right.len() ==> normalised(#[trigger] right[i]) != normalised(c)
    &&& forall|i: int| 0 <= i < taken.len() ==> normalised(#[trigger] taken[i]) != normalised(c)
}

/// The wrong answers in a list of lines: the first three that can be one.
pub open spec fn wrong_answers_in(lines: Seq<Seq<char>>, right: Seq<Seq<char>>) -> Seq<Seq<char>>
    decreases lines.len(),
{
    if lines.len() == 0 {
        Seq::empty()
    } else {
        let taken: Seq<Seq<char>> = wrong_answers_in(lines.drop_last(), right);
        if taken.len() < DISTRACTORS && is_new_wrong(bare_line(lines.last()), right, taken) {
            taken.push(bare_line(lines.last()))
        } else {
            taken
        }
    }
}

/// The answers that are right: the answer itself and its other names.
pub open spec fn right_answers(correct: Seq<char>, aliases: Seq<Seq<char>>) -> Seq<Seq<char>> {
    seq![correct] + aliases
}

proof fn lemma_wrong_answers_full(lines: Seq<Seq<char>>, right: Seq<Seq<char>>, n: int)
    requires
        0 <= n <= lines.len(),
        wrong_answers_in(lines.take(n), right).len() >= DISTRACTORS,
    ensures
        wrong_answers_in(lines, right) == wrong_answers_in(lines.take(n), right),
    decreases lines.len() - n,
{
    if n < lines.len() {
        assert(lines.take(n + 1).drop_last() =~= lines.take(n));
        lemma_wrong_answers_full(lines, right, n + 1);
    } else {
        assert(lines.take(n) =~= lines);
    }
}

/// Takes up to three wrong answers from lines, see `wrong_answers_in`.
pub fn parse_distractor_lines(
    lines: &Vec<String>,
    correct_answer: &str,
    aliases: &Vec<String>,
) -> (r: Vec<String>)
    ensures
        texts(r@) == wrong_answers_in(
            texts(lines@),
            right_answers(correct_answer@, texts(aliases@)),
        ),
{
    let ghost right: Seq<Seq<char>> = right_answers(correct_answer@, texts(aliases@));
    let ghost all: Seq<Seq<char>> = texts(lines@);
    let mut forbidden: Vec<String> = Vec::new();
    forbidden.push(normalise(correct_answer));
    let mut a: usize = 0;
    while a < aliases.len()
        invariant
            a <= aliases.len(),
            right == right_answers(correct_answer@, texts(aliases@)),
            forbidden.len() == a + 1,
            forall|k: int|
                0 <= k < forbidden.len() ==> (#[trigger] forbidden@[k])@ == normalised(right[k]),
        decreases aliases.len() - a,
    {
        assert(right[a + 1] == aliases@[a as int]@);
        forbidden.push(normalise(aliases[a].as_str()));
        a = a + 1;
    }
    let mut keys: Vec<String> = Vec::new();
    let mut out: Vec<String> = Vec::new();
    let mut i: usize = 0;
    assert(all.take(0).len() == 0);
    assert(texts(out@) =~= wrong_answers_in(all.take(0), right));
    while i < lines.len() && out.len() < DISTRACTORS
        invariant
            i <= lines.len(),
            all == texts(lines@),
            out.len() <= DISTRACTORS,
            forbidden.len() == right.len(),
            forall|k: int|
                0 <= k < forbidden.len() ==> (#[trigger] forbidden@[k])@ == normalised(right[k]),
            keys.len() == out.len(),
            forall|k: int|
                0 <= k < keys.len() ==> (#[trigger] keys@[k])@ == normalised(out@[k]@),
            texts(out@) == wrong_answers_in(all.take(i as int), right),
        decreases lines.len() - i,
    {
        proof {
            assert(all.take(i + 1).drop_last() =~= all.take(i as int));
            assert(all.take(i + 1).last() == lines@[i as int]@);
        }
        let stripped = trim_start(&trim(&chars_of(lines[i].as_str())), &CharClass::ListMark);
        let cleaned = trim(&trim_both(&stripped, &CharClass::Quote));
        let text = text_of(&cleaned);
        assert(text@ == bare_line(lines@[i as int]@));
        if cleaned.len() > 0 && text.as_str().as_bytes().len() <= MAX_DISTRACTOR_LEN {
            let key = normalise(text.as_str());
            let known: bool = contains_text(&forbidden, key.as_str());
            let seen: bool = contains_text(&keys, key.as_str());
            proof {
                let f: Seq<Seq<char>> = texts(forbidden@);
                let s: Seq<Seq<char>> = texts(keys@);
                let taken: Seq<Seq<char>> = texts(out@);
                if known {
                    let k: int = f.index_of(key@);
                    assert(forbidden@[k]@ == key@);
                    assert(normalised(right[k]) == normalised(text@));
                } else {
                    assert forall|k: int| 0 <= k < right.len() implies normalised(
                        #[trigger] right[k],
                    ) != normalised(text@) by {
                        assert(f[k] == forbidden@[k]@);
                        assert(f.contains(f[k]));
                    }
                }
                if seen {
                    let k: int = s.index_of(key@);
                    assert(keys@[k]@ == key@);
                    assert(taken[k] == out@[k]@);
                } else {
                    assert forall|k: int| 0 <= k < taken.len() implies normalised(
                        #[trigger] taken[k],
                    ) != normalised(text@) by {
                        assert(taken[k] == out@[k]@);
                        assert(s[k] == keys@[k]@);
                        assert(s.contains(s[k]));
                    }
                }
            }
            if !known && !seen {
                let ghost before: Seq<String> = out@;
                let ghost t: Seq<char> = text@;
                keys.push(key);
                out.push(text);
                assert(texts(out@) =~= texts(before).push(t));
            }
        }
        i = i + 1;
    }
    proof {
        assert(texts(out@).len() == out.len());
        if out.len() >= DISTRACTORS {
            lemma_wrong_answers_full(all, right, i as int);
        } else {
            assert(all.take(i as int) =~= all);
        }
    }
    out
}

/// There are at most three wrong answers. None is empty, too long or right,
/// and no two are the same.
pub proof fn law_wrong_answers_are_wrong(lines: Seq<Seq<char>>, right: Seq<Seq<char>>)
    ensures
        wrong_answers_in(lines, right).len() <= DISTRACTORS,
        forall|i: int|
            0 <= i < wrong_answers_in(lines, right).len() ==> (#[trigger] wrong_answers_in(
                lines,
                right,
            )[i]).len() > 0 && encode_utf8(wrong_answers_in(lines, right)[i]).len()
                <= MAX_DISTRACTOR_LEN,
        forall|i: int, k: int|
            0 <= i < wrong_answers_in(lines, right).len() && 0 <= k < right.len() ==> normalised(
                #[trigger] wrong_answers_in(lines, right)[i],
            ) != normalised(#[trigger] right[k]),
        forall|i: int, j: int|
            0 <= i < j < wrong_answers_in(lines, right).len() ==> normalised(
                #[trigger] wrong_answers_in(lines, right)[i],
            ) != normalised(#[trigger] wrong_answers_in(lines, right)[j]),
    decreases lines.len(),
{
    if lines.len() > 0 {
        law_wrong_answers_are_wrong(lines.drop_last(), right);
    }
}

// ── Verdicts ─────────────────────────────────────────────────────────────────

/// What becomes of a question.
#[derive(Debug)]
pub enum Verdict {
    /// It can be asked.
    Ready {
        category_group: &'static str,
        difficulty: &'static str,
        distractors: Vec<String>,
    },
    /// It is not asked, for the reason given.
    Unsuitable(String),
    /// The reply is of no use. The question is tried again.
    Invalid,
}

/// What a `Verdict` stands for.
#[verifier::ext_equal]
pub enum VerdictView {
    Ready { category_group: Seq<char>, difficulty: Seq<char>, distractors: Seq<Seq<char>> },
    Unsuitable { reason: Seq<char> },
    Invalid,
}

impl View for Verdict {
    type V = VerdictView;

    open spec fn view(&self) -> VerdictView {
        match self {
            Verdict::Ready { category_group, difficulty, distractors } => VerdictView::Ready {
                category_group: category_group@,
                difficulty: difficulty@,
                distractors: texts(distractors@),
            },
            Verdict::Unsuitable(reason) => VerdictView::Unsuitable { reason: reason@ },
            Verdict::Invalid => VerdictView::Invalid,
        }
    }
}

/// How many characters of a reason are kept.
pub const MAX_REASON_LEN: usize = 200;

/// A reason as it is kept.
pub open spec fn kept_reason(reason: Seq<char>) -> Seq<char> {
    let r: Seq<char> = trimmed(reason);
    if r.len() == 0 {
        "unsuitable"@
    } else if r.len() <= MAX_REASON_LEN {
        r
    } else {
        r.take(MAX_REASON_LEN as int)
    }
}

/// What becomes of a question, given what the model says of it.
pub open spec fn verdict_on(item: ItemReply, row: TriviaQaRow) -> VerdictView {
    if !item.suitable {
        VerdictView::Unsuitable { reason: kept_reason(item.reason@) }
    } else {
        let group: Option<Seq<char>> = group_named(item.category@, 0);
        let difficulty: Option<Seq<char>> = difficulty_named(item.difficulty@);
        let wrong: Seq<Seq<char>> = wrong_answers_in(
            texts(item.wrong_answers@),
            right_answers(shown_answer(row.correct_answer@), texts(row.aliases@)),
        );
        if group is Some && difficulty is Some && wrong.len() >= DISTRACTORS {
            VerdictView::Ready {
                category_group: group->0,
                difficulty: difficulty->0,
                distractors: wrong,
            }
        } else {
            VerdictView::Invalid
        }
    }
}

/// What becomes of a question, see `verdict_on`.
pub fn validate_item(item: &ItemReply, row: &TriviaQaRow) -> (r: Verdict)
    ensures
        r@ == verdict_on(*item, *row),
{
    if !item.suitable {
        let reason = trim(&chars_of(item.reason.as_str()));
        if reason.len() == 0 {
            return Verdict::Unsuitable("unsuitable".to_owned());
        }
        if reason.len() <= MAX_REASON_LEN {
            return Verdict::Unsuitable(text_of(&reason));
        }
        let cut = copy_range(&reason, 0, MAX_REASON_LEN);
        assert(cut@ =~= reason@.take(MAX_REASON_LEN as int));
        return Verdict::Unsuitable(text_of(&cut));
    }
    let category_group: &'static str = match canonicalize_category_group(item.category.as_str()) {
        Some(g) => g,
        None => {
            return Verdict::Invalid;
        },
    };
    let difficulty: &'static str = match canonicalize_difficulty(item.difficulty.as_str()) {
        Some(d) => d,
        None => {
            return Verdict::Invalid;
        },
    };
    let answer = display_answer(row.correct_answer.as_str());
    let distractors = parse_distractor_lines(&item.wrong_answers, answer.as_str(), &row.aliases);
    assert(texts(distractors@).len() == distractors.len());
    if distractors.len() < DISTRACTORS {
        return Verdict::Invalid;
    }
    Verdict::Ready { category_group, difficulty, distractors }
}

/// A question that can be asked is of a group that there is, of a difficulty
/// that there is, and has three wrong answers, none of them right.
pub proof fn law_ready_questions_are_complete(item: ItemReply, row: TriviaQaRow)
    requires
        verdict_on(item, row) is Ready,
    ensures
        exists|i: int|
            0 <= i < group_table().len() && (#[trigger] group_table()[i]).0 == verdict_on(
                item,
                row,
            )->category_group,
        verdict_on(item, row)->difficulty == "easy"@ || verdict_on(item, row)->difficulty
            == "medium"@ || verdict_on(item, row)->difficulty == "hard"@,
        verdict_on(item, row)->distractors.len() == DISTRACTORS,
        forall|i: int|
            0 <= i < DISTRACTORS ==> normalised(
                #[trigger] verdict_on(item, row)->distractors[i],
            ) != normalised(shown_answer(row.correct_answer@)),
{
    lemma_group_named(item.category@, 0);
    let right: Seq<Seq<char>> = right_answers(
        shown_answer(row.correct_answer@),
        texts(row.aliases@),
    );
    law_wrong_answers_are_wrong(texts(item.wrong_answers@), right);
    assert(right[0] == shown_answer(row.correct_answer@));
}

proof fn lemma_group_named(raw: Seq<char>, from: int)
    requires
        0 <= from,
        group_named(raw, from) is Some,
    ensures
        exists|i: int|
            0 <= i < group_table().len() && (#[trigger] group_table()[i]).0 == group_named(
                raw,
                from,
            )->0,
    decreases group_table().len() - from,
{
    if from < group_table().len() && normalised(group_table()[from].0) != normalised(raw) {
        lemma_group_named(raw, from + 1);
    }
}

// ── Batches ──────────────────────────────────────────────────────────────────

/// Where a character last stands in a text, or nothing.
pub open spec fn find_last(s: Seq<char>, c: char) -> Option<int>
    decreases s.len(),
{
    if s.len() == 0 {
        None
    } else if s.last() == c {
        Some(s.len() - 1)
    } else {
        find_last(s.drop_last(), c)
    }
}

/// The JSON object in a reply: from the first opening brace to the last
/// closing one.
pub open spec fn json_in(raw: Seq<char>) -> Option<Seq<char>> {
    let start: int = find_char(raw, '{') as int;
    match find_last(raw, '}') {
        Some(end) => if start < end {
            Some(raw.subrange(start, end + 1))
        } else {
            None
        },
        None => None,
    }
}

/// The JSON object in a reply, which may stand in prose or in a fence.
pub fn json_span(raw: &str) -> (r: Option<String>)
    ensures
        crate::text::opt_text(r) == json_in(raw@),
{
    let v = chars_of(raw);
    let start: usize = position_of(&v, '{');
    let mut i: usize = v.len();
    assert(v@.take(i as int) =~= v@);
    while i > 0
        invariant
            i <= v.len(),
            v@ == raw@,
            start <= v.len(),
            start == find_char(v@, '{'),
            find_last(v@, '}') == find_last(v@.take(i as int), '}'),
        decreases i,
    {
        assert(v@.take(i as int).drop_last() =~= v@.take(i - 1));
        if v[i - 1] == '}' {
            if start < i - 1 {
                return Some(text_of(&copy_range(&v, start, i)));
            }
            return None;
        }
        i = i - 1;
    }
    None
}

/// The row with an id, from `from` on.
pub open spec fn row_index(rows: Seq<TriviaQaRow>, id: i64, from: int) -> Option<int>
    decreases rows.len() - from,
{
    if from >= rows.len() {
        None
    } else if rows[from].id == id {
        Some(from)
    } else {
        row_index(rows, id, from + 1)
    }
}

fn find_row(rows: &Vec<TriviaQaRow>, id: i64) -> (r: Option<usize>)
    ensures
        r is Some ==> row_index(rows@, id, 0) == Some(r->0 as int) && r->0 < rows.len(),
        r is None ==> row_index(rows@, id, 0) is None,
{
    let mut i: usize = 0;
    while i < rows.len()
        invariant
            i <= rows.len(),
            row_index(rows@, id, 0) == row_index(rows@, id, i as int),
        decreases rows.len() - i,
    {
        if rows[i].id == id {
            return Some(i);
        }
        i = i + 1;
    }
    None
}

/// The verdicts on the items that belong to a row.
pub open spec fn verdicts_on(items: Seq<ItemReply>, rows: Seq<TriviaQaRow>) -> Seq<
    (i64, VerdictView),
>
    decreases items.len(),
{
    if items.len() == 0 {
        Seq::empty()
    } else {
        let before: Seq<(i64, VerdictView)> = verdicts_on(items.drop_last(), rows);
        match row_index(rows, items.last().id, 0) {
            Some(i) => before.push((items.last().id, verdict_on(items.last(), rows[i]))),
            None => before,
        }
    }
}

/// What a list of verdicts stands for.
pub open spec fn verdict_views(v: Seq<(i64, Verdict)>) -> Seq<(i64, VerdictView)> {
    v.map_values(|x: (i64, Verdict)| (x.0, x.1@))
}

/// The verdicts on a reply, see `verdicts_on`. Items of unknown rows are left
/// out.
pub fn judge_batch(items: &Vec<ItemReply>, rows: &Vec<TriviaQaRow>) -> (r: Vec<(i64, Verdict)>)
    ensures
        verdict_views(r@) == verdicts_on(items@, rows@),
{
    let mut out: Vec<(i64, Verdict)> = Vec::new();
    let mut i: usize = 0;
    assert(verdict_views(out@) =~= verdicts_on(items@.take(0), rows@));
    while i < items.len()
        invariant
            i <= items.len(),
            verdict_views(out@) == verdicts_on(items@.take(i as int), rows@),
        decreases items.len() - i,
    {
        proof {
            assert(items@.take(i + 1).drop_last() =~= items@.take(i as int));
            assert(items@.take(i + 1).last() == items@[i as int]);
        }
        match find_row(rows, items[i].id) {
            Some(k) => {
                let ghost before: Seq<(i64, Verdict)> = out@;
                let verdict = validate_item(&items[i], &rows[k]);
                let ghost view: VerdictView = verdict@;
                out.push((items[i].id, verdict));
                assert(verdict_views(out@) =~= verdict_views(before).push(
                    (items@[i as int].id, view),
                ));
            },
            None => {},
        }
        i = i + 1;
    }
    assert(items@.take(items.len() as int) =~= items@);
    out
}

/// What came of a batch.
#[derive(Clone, Copy, Debug, PartialEq, Eq, Structural)]
pub struct BatchOutcome {
    pub ready: usize,
    pub rejected: usize,
    pub failed: usize,
}

impl Default for BatchOutcome {
    fn default() -> (r: BatchOutcome)
        ensures
            r == (BatchOutcome { ready: 0, rejected: 0, failed: 0 }),
    {
        BatchOutcome { ready: 0, rejected: 0, failed: 0 }
    }
}

/// The first verdict on a row, from `from` on.
pub open spec fn verdict_index(verdicts: Seq<(i64, VerdictView)>, id: i64, from: int) -> Option<int>
    decreases verdicts.len() - from,
{
    if from >= verdicts.len() {
        None
    } else if verdicts[from].0 == id {
        Some(from)
    } else {
        verdict_index(verdicts, id, from + 1)
    }
}

/// The first verdict on a row, which counts.
pub fn verdict_of(verdicts: &Vec<(i64, Verdict)>, id: i64) -> (r: Option<&Verdict>)
    ensures
        ({
            let i: Option<int> = verdict_index(verdict_views(verdicts@), id, 0);
            &&& i is Some ==> r is Some && r->0@ == verdict_views(verdicts@)[i->0].1
            &&& i is None ==> r is None
        }),
{
    let ghost all: Seq<(i64, VerdictView)> = verdict_views(verdicts@);
    let mut i: usize = 0;
    while i < verdicts.len()
        invariant
            i <= verdicts.len(),
            all == verdict_views(verdicts@),
            verdict_index(all, id, 0) == verdict_index(all, id, i as int),
        decreases verdicts.len() - i,
    {
        assert(all[i as int] == (verdicts@[i as int].0, verdicts@[i as int].1@));
        if verdicts[i].0 == id {
            return Some(&verdicts[i].1);
        }
        i = i + 1;
    }
    None
}

/// How many of the rows got which verdict. A row without one has failed.
pub open spec fn outcome_of(rows: Seq<TriviaQaRow>, verdicts: Seq<(i64, VerdictView)>) -> (
    nat,
    nat,
    nat,
)
    decreases rows.len(),
{
    if rows.len() == 0 {
        (0, 0, 0)
    } else {
        let (ready, rejected, failed) = outcome_of(rows.drop_last(), verdicts);
        match verdict_index(verdicts, rows.last().id, 0) {
            Some(i) => match verdicts[i].1 {
                VerdictView::Ready { .. } => (ready + 1, rejected, failed),
                VerdictView::Unsuitable { .. } => (ready, rejected + 1, failed),
                VerdictView::Invalid => (ready, rejected, failed + 1),
            },
            None => (ready, rejected, failed + 1),
        }
    }
}

/// Every row of a batch is counted once.
pub proof fn law_batch_outcome_counts_every_row(
    rows: Seq<TriviaQaRow>,
    verdicts: Seq<(i64, VerdictView)>,
)
    ensures
        ({
            let (ready, rejected, failed) = outcome_of(rows, verdicts);
            ready + rejected + failed == rows.len()
        }),
    decreases rows.len(),
{
    if rows.len() > 0 {
        law_batch_outcome_counts_every_row(rows.drop_last(), verdicts);
    }
}

/// Counts the verdicts on the rows of a batch, see `outcome_of`.
pub fn tally_batch(rows: &Vec<TriviaQaRow>, verdicts: &Vec<(i64, Verdict)>) -> (r: BatchOutcome)
    ensures
        (r.ready as nat, r.rejected as nat, r.failed as nat) == outcome_of(
            rows@,
            verdict_views(verdicts@),
        ),
{
    let ghost all: Seq<(i64, VerdictView)> = verdict_views(verdicts@);
    let mut outcome = BatchOutcome { ready: 0, rejected: 0, failed: 0 };
    let mut i: usize = 0;
    while i < rows.len()
        invariant
            i <= rows.len(),
            all == verdict_views(verdicts@),
            (outcome.ready as nat, outcome.rejected as nat, outcome.failed as nat) == outcome_of(
                rows@.take(i as int),
                all,
            ),
        decreases rows.len() - i,
    {
        proof {
            assert(rows@.take(i + 1).drop_last() =~= rows@.take(i as int));
            assert(rows@.take(i + 1).last() == rows@[i as int]);
            law_batch_outcome_counts_every_row(rows@.take(i as int), all);
        }
        match verdict_of(verdicts, rows[i].id) {
            Some(v) => match v {
                Verdict::Ready { category_group, difficulty, distractors } => {
                    outcome.ready = outcome.ready + 1;
                },
                Verdict::Unsuitable(reason) => {
                    outcome.rejected = outcome.rejected + 1;
                },
                Verdict::Invalid => {
                    outcome.failed = outcome.failed + 1;
                },
            },
            None => {
                outcome.failed = outcome.failed + 1;
            },
        }
        i = i + 1;
    }
    assert(rows@.take(rows.len() as int) =~= rows@);
    outcome
}

// ── Laws ─────────────────────────────────────────────────────────────────────

/// A text names the first group that it matches, by that group's own name, and
/// none where it matches none.
pub proof fn law_groups_are_named_as_they_are(raw: Seq<char>, from: int)
    requires
        0 <= from,
    ensures
        match group_named(raw, from) {
            Some(g) => exists|i: int|
                from <= i < group_table().len() && g == (#[trigger] group_table()[i]).0
                    && normalised(group_table()[i].0) == normalised(raw) && forall|j: int|
                    from <= j < i ==> normalised((#[trigger] group_table()[j]).0) != normalised(
                        raw,
                    ),
            None => forall|j: int|
                from <= j < group_table().len() ==> normalised((#[trigger] group_table()[j]).0)
                    != normalised(raw),
        },
    decreases group_table().len() - from,
{
    let t: Seq<(Seq<char>, Seq<u32>)> = group_table();
    if from < t.len() {
        if normalised(t[from].0) == normalised(raw) {
            assert(t[from].0 == group_named(raw, from)->0);
        } else {
            law_groups_are_named_as_they_are(raw, from + 1);
            if group_named(raw, from) is Some {
                let g: Seq<char> = group_named(raw, from)->0;
                let i: int = choose|i: int|
                    from + 1 <= i < t.len() && g == (#[trigger] t[i]).0 && normalised(t[i].0)
                        == normalised(raw) && forall|j: int|
                        from + 1 <= j < i ==> normalised((#[trigger] t[j]).0) != normalised(raw);
                assert(g == t[i].0);
            }
        }
    }
}

/// A difficulty is read in any case and with white space around it, and written
/// in small letters.
pub proof fn law_difficulties_are_read(
    before: Seq<char>,
    word: Seq<char>,
    after: Seq<char>,
)
    requires
        word.len() > 0,
        is_ascii(word),
        !is_white(word[0]),
        !is_white(word.last()),
        forall|i: int| 0 <= i < before.len() ==> is_white(#[trigger] before[i]),
        forall|i: int| 0 <= i < after.len() ==> is_white(#[trigger] after[i]),
    ensures
        ({
            let low: Seq<char> = word.map_values(|c: char| ascii_lower(c));
            difficulty_named(before + word + after) == (if low == "easy"@ || low == "medium"@ || low
                == "hard"@ {
                Some(low)
            } else {
                None
            })
        }),
{
    lemma_trimmed_of(before, word, after);
}

/// Whether a character may number or bullet a line.
pub open spec fn numbers_a_line(c: char) -> bool {
    '0' <= c <= '9' || c == '.' || c == ')' || c == '-' || c == '*' || c == ' '
}

/// A wrong answer is freed of what numbers its line and of quotes around it, and
/// otherwise stays.
pub proof fn law_lines_are_freed_of_numbering(marks: Seq<char>, text: Seq<char>)
    requires
        marks.len() > 0 ==> !is_white(marks[0]),
        forall|i: int| 0 <= i < marks.len() ==> numbers_a_line(#[trigger] marks[i]),
        text.len() > 0,
        !is_white(text[0]),
        !is_white(text.last()),
        !numbers_a_line(text[0]),
        text[0] != '"' && text[0] != '\'' && text.last() != '"' && text.last() != '\'',
    ensures
        bare_line(marks + text) == text,
        bare_line(marks + (seq!['"'] + text + seq!['"'])) == text,
{
    let quote: Seq<char> = seq!['"'];
    let inner: Seq<char> = quote + text + quote;
    let none: Seq<char> = Seq::empty();
    lemma_nothing_to_trim(marks + text);
    lemma_nothing_to_trim(marks + inner);
    lemma_nothing_to_trim(text);
    lemma_marks_go(marks, text);
    lemma_marks_go(marks, inner);
    assert(trim_of(text, CharClass::Quote) == text);
    assert(inner.skip(1) =~= text + quote);
    assert(trim_start_of(text + quote, CharClass::Quote) == text + quote);
    assert((text + quote).drop_last() =~= text);
    assert(trim_end_of(text, CharClass::Quote) == text);
}

proof fn lemma_marks_go(marks: Seq<char>, rest: Seq<char>)
    requires
        forall|i: int| 0 <= i < marks.len() ==> numbers_a_line(#[trigger] marks[i]),
        rest.len() > 0,
        !numbers_a_line(rest[0]),
    ensures
        trim_start_of(marks + rest, CharClass::ListMark) == rest,
    decreases marks.len(),
{
    let s: Seq<char> = marks + rest;
    if marks.len() > 0 {
        assert(numbers_a_line(marks[0]));
        assert forall|i: int| 0 <= i < marks.skip(1).len() implies numbers_a_line(
            #[trigger] marks.skip(1)[i],
        ) by {
            assert(marks.skip(1)[i] == marks[i + 1]);
        }
        lemma_marks_go(marks.skip(1), rest);
        assert(s.skip(1) =~= marks.skip(1) + rest);
    } else {
        assert(s =~= rest);
    }
}

/// No wrong answer is passed over without a reason: a line is taken unless it is
/// empty, too long, right, the same as one that was taken, or three were.
pub proof fn law_wrong_answers_are_taken(
    lines: Seq<Seq<char>>,
    right: Seq<Seq<char>>,
    k: int,
)
    requires
        0 <= k < lines.len(),
        wrong_answers_in(lines, right).len() < 3,
        bare_line(lines[k]).len() > 0,
        encode_utf8(bare_line(lines[k])).len() <= 200,
        forall|i: int|
            0 <= i < right.len() ==> normalised(#[trigger] right[i]) != normalised(
                bare_line(lines[k]),
            ),
    ensures
        exists|i: int|
            0 <= i < wrong_answers_in(lines, right).len() && normalised(
                #[trigger] wrong_answers_in(lines, right)[i],
            ) == normalised(bare_line(lines[k])),
    decreases lines.len(),
{
    let all: Seq<Seq<char>> = wrong_answers_in(lines, right);
    let taken: Seq<Seq<char>> = wrong_answers_in(lines.drop_last(), right);
    let c: Seq<char> = bare_line(lines[k]);
    if k == lines.len() - 1 {
        assert(lines.last() == lines[k]);
        if is_new_wrong(c, right, taken) {
            assert(all == taken.push(c));
            assert(normalised(all[taken.len() as int]) == normalised(c));
        } else {
            let i: int = choose|i: int|
                0 <= i < taken.len() && normalised(#[trigger] taken[i]) == normalised(c);
            assert(all[i] == taken[i]);
        }
    } else {
        assert(lines.drop_last()[k] == lines[k]);
        assert(taken.len() <= all.len());
        law_wrong_answers_are_taken(lines.drop_last(), right, k);
        let i: int = choose|i: int|
            0 <= i < taken.len() && normalised(#[trigger] taken[i]) == normalised(c);
        assert(all[i] == taken[i]);
    }
}

/// Every wrong answer is one of the lines.
pub proof fn law_wrong_answers_come_from_lines(
    lines: Seq<Seq<char>>,
    right: Seq<Seq<char>>,
    i: int,
)
    requires
        0 <= i < wrong_answers_in(lines, right).len(),
    ensures
        exists|k: int|
            0 <= k < lines.len() && bare_line(#[trigger] lines[k]) == wrong_answers_in(
                lines,
                right,
            )[i],
    decreases lines.len(),
{
    let head: Seq<Seq<char>> = lines.drop_last();
    let taken: Seq<Seq<char>> = wrong_answers_in(head, right);
    let all: Seq<Seq<char>> = wrong_answers_in(lines, right);
    if i < taken.len() {
        law_wrong_answers_come_from_lines(head, right, i);
        let k: int = choose|k: int| 0 <= k < head.len() && bare_line(#[trigger] head[k]) == taken[i];
        assert(bare_line(lines[k]) == all[i]);
    } else {
        assert(bare_line(lines[lines.len() - 1]) == all[i]);
    }
}

/// A reason is kept up to two hundred characters, without white space at its
/// ends; where there is none, it says so.
pub proof fn law_reasons_are_kept(reason: Seq<char>)
    ensures
        trimmed(reason).len() == 0 ==> kept_reason(reason) == "unsuitable"@,
        0 < trimmed(reason).len() <= 200 ==> kept_reason(reason) == trimmed(reason),
        trimmed(reason).len() > 200 ==> kept_reason(reason).len() == 200 && kept_reason(
            reason,
        ).is_prefix_of(trimmed(reason)),
{
    if trimmed(reason).len() > 200 {
        assert(trimmed(reason).take(200) =~= kept_reason(reason));
    }
}

/// The JSON object of a reply is found in whatever prose is around it.
pub proof fn law_json_is_found_in_prose(
    before: Seq<char>,
    inside: Seq<char>,
    after: Seq<char>,
)
    requires
        !before.contains('{'),
        !after.contains('}'),
    ensures
        json_in(before + seq!['{'] + inside + seq!['}'] + after) == Some(
            seq!['{'] + inside + seq!['}'],
        ),
{
    let object: Seq<char> = seq!['{'] + inside + seq!['}'];
    let raw: Seq<char> = before + seq!['{'] + inside + seq!['}'] + after;
    let n: int = before.len() as int;
    assert forall|i: int| 0 <= i < n implies raw[i] != '{' by {
        assert(raw[i] == before[i]);
        assert(before.contains(before[i]));
    }
    assert(raw[n] == '{');
    lemma_find_char_at(raw, '{', n);
    let m: int = n + 1 + inside.len();
    assert(raw[m] == '}');
    assert forall|i: int| m < i < raw.len() implies raw[i] != '}' by {
        assert(raw[i] == after[i - m - 1]);
        assert(after.contains(after[i - m - 1]));
    }
    lemma_find_last_at(raw, '}', m);
    assert(raw.subrange(n, m + 1) =~= object);
}

proof fn lemma_find_last_at(s: Seq<char>, c: char, n: int)
    requires
        0 <= n < s.len(),
        s[n] == c,
        forall|i: int| n < i < s.len() ==> s[i] != c,
    ensures
        find_last(s, c) == Some(n),
    decreases s.len(),
{
    if n < s.len() - 1 {
        assert(s[s.len() - 1] != c);
        lemma_find_last_at(s.drop_last(), c, n);
    }
}

/// Every item of a reply is judged on the row with its number, and items of no
/// row are left out.
pub proof fn law_items_are_judged_on_their_rows(
    items: Seq<ItemReply>,
    rows: Seq<TriviaQaRow>,
    k: int,
    i: int,
)
    requires
        0 <= k < items.len(),
        0 <= i < rows.len(),
        rows[i].id == items[k].id,
        forall|j: int| 0 <= j < i ==> (#[trigger] rows[j]).id != items[k].id,
    ensures
        verdicts_on(items, rows).contains((items[k].id, verdict_on(items[k], rows[i]))),
    decreases items.len(),
{
    let all: Seq<(i64, VerdictView)> = verdicts_on(items, rows);
    let before: Seq<(i64, VerdictView)> = verdicts_on(items.drop_last(), rows);
    if k == items.len() - 1 {
        lemma_row_index(rows, items[k].id, 0, i);
        assert(all[before.len() as int] == (items[k].id, verdict_on(items[k], rows[i])));
    } else {
        assert(items.drop_last()[k] == items[k]);
        law_items_are_judged_on_their_rows(items.drop_last(), rows, k, i);
        let at: int = before.index_of((items[k].id, verdict_on(items[k], rows[i])));
        assert(all[at] == before[at]);
    }
}

proof fn lemma_row_index(rows: Seq<TriviaQaRow>, id: i64, from: int, i: int)
    requires
        0 <= from <= i < rows.len(),
        rows[i].id == id,
        forall|j: int| from <= j < i ==> (#[trigger] rows[j]).id != id,
    ensures
        row_index(rows, id, from) == Some(i),
    decreases i - from,
{
    if from < i {
        assert(rows[from].id != id);
        lemma_row_index(rows, id, from + 1, i);
    }
}

/// Every verdict is on an item of the reply and the row with its number.
pub proof fn law_verdicts_are_on_items(
    items: Seq<ItemReply>,
    rows: Seq<TriviaQaRow>,
    v: (i64, VerdictView),
)
    requires
        verdicts_on(items, rows).contains(v),
    ensures
        exists|k: int, i: int|
            0 <= k < items.len() && 0 <= i < rows.len() && (#[trigger] items[k]).id == v.0 && (
            #[trigger] rows[i]).id == v.0 && v.1 == verdict_on(items[k], rows[i]),
    decreases items.len(),
{
    if items.len() > 0 {
        let head: Seq<ItemReply> = items.drop_last();
        let before: Seq<(i64, VerdictView)> = verdicts_on(head, rows);
        if before.contains(v) {
            law_verdicts_are_on_items(head, rows, v);
            let (k, i) = choose|k: int, i: int|
                0 <= k < head.len() && 0 <= i < rows.len() && (#[trigger] head[k]).id == v.0 && (
                #[trigger] rows[i]).id == v.0 && v.1 == verdict_on(head[k], rows[i]);
            assert(items[k] == head[k]);
            assert(rows[i].id == v.0);
        } else {
            let all: Seq<(i64, VerdictView)> = verdicts_on(items, rows);
            let at: int = all.index_of(v);
            if at < before.len() {
                assert(before[at] == v);
            }
            let last: int = items.len() - 1;
            lemma_row_index_is(rows, items[last].id, 0);
            let i: int = row_index(rows, items[last].id, 0)->0;
            assert(items[last].id == v.0 && rows[i].id == v.0);
        }
    }
}

proof fn lemma_row_index_is(rows: Seq<TriviaQaRow>, id: i64, from: int)
    requires
        0 <= from,
        row_index(rows, id, from) is Some,
    ensures
        from <= row_index(rows, id, from)->0 < rows.len(),
        rows[row_index(rows, id, from)->0].id == id,
    decreases rows.len() - from,
{
    if rows[from].id != id {
        lemma_row_index_is(rows, id, from + 1);
    }
}

/// The first verdict on a row, which counts.
pub open spec fn counting_verdict(verdicts: Seq<(i64, VerdictView)>, id: i64) -> VerdictView {
    match verdict_index(verdicts, id, 0) {
        Some(i) => verdicts[i].1,
        None => VerdictView::Invalid,
    }
}

/// Rows count as ready, as rejected or as failed by their first verdict.
pub proof fn law_rows_count_by_their_verdict(
    rows: Seq<TriviaQaRow>,
    verdicts: Seq<(i64, VerdictView)>,
)
    ensures
        outcome_of(rows, verdicts).0 == rows.filter(
            |r: TriviaQaRow| counting_verdict(verdicts, r.id) is Ready,
        ).len(),
        outcome_of(rows, verdicts).1 == rows.filter(
            |r: TriviaQaRow| counting_verdict(verdicts, r.id) is Unsuitable,
        ).len(),
        outcome_of(rows, verdicts).2 == rows.filter(
            |r: TriviaQaRow| counting_verdict(verdicts, r.id) is Invalid,
        ).len(),
    decreases rows.len(),
{
    reveal(Seq::filter);
    if rows.len() > 0 {
        law_rows_count_by_their_verdict(rows.drop_last(), verdicts);
    }
}

/// The verdict that counts for a row is the first with its number.
pub proof fn law_the_first_verdict_counts(
    verdicts: Seq<(i64, VerdictView)>,
    id: i64,
    from: int,
    i: int,
)
    requires
        0 <= from <= i < verdicts.len(),
        verdicts[i].0 == id,
        forall|j: int| from <= j < i ==> (#[trigger] verdicts[j]).0 != id,
    ensures
        verdict_index(verdicts, id, from) == Some(i),
    decreases i - from,
{
    if from < i {
        assert(verdicts[from].0 != id);
        law_the_first_verdict_counts(verdicts, id, from + 1, i);
    }
}

/// What the model says is followed: a question that it finds unsuitable is not
/// asked, for its reason; one that it finds suitable is asked where it names a
/// group and a difficulty that there are and three wrong answers, and tried again
/// otherwise.
pub proof fn law_verdicts_follow_the_model(item: ItemReply, row: TriviaQaRow)
    ensures
        !item.suitable ==> verdict_on(item, row) == (VerdictView::Unsuitable {
            reason: kept_reason(item.reason@),
        }),
        ({
            let wrong: Seq<Seq<char>> = wrong_answers_in(
                texts(item.wrong_answers@),
                seq![shown_answer(row.correct_answer@)] + texts(row.aliases@),
            );
            let group: Option<Seq<char>> = group_named(item.category@, 0);
            let difficulty: Option<Seq<char>> = difficulty_named(item.difficulty@);
            &&& item.suitable && group is Some && difficulty is Some && wrong.len() == 3
                ==> verdict_on(item, row) == (VerdictView::Ready {
                category_group: group->0,
                difficulty: difficulty->0,
                distractors: wrong,
            })
            &&& item.suitable && (group is None || difficulty is None || wrong.len() < 3)
                ==> verdict_on(item, row) is Invalid
        }),
{
}

/// The prompt names and describes every group on a line of its own.
pub proof fn law_prompt_names_every_group(i: int)
    requires
        0 <= i < group_table().len(),
    ensures
        has_text(
            prompt(),
            "- \""@ + group_table()[i].0 + "\": "@ + description_of(group_table()[i].0),
        ),
{
    let lines: Seq<Seq<char>> = group_table().map_values(
        |g: (Seq<char>, Seq<u32>)| group_line(g.0),
    );
    let list: Seq<char> = join(lines, "\n"@);
    let line: Seq<char> = lines[i];
    law_joined_parts_are_there(lines, "\n"@, i);
    let k: int = choose|k: int| stands_at(list, line, k);
    let at: int = PROMPT_HEAD@.len() + k;
    assert(prompt().subrange(at, at + line.len()) =~= list.subrange(k, k + line.len()));
    assert(stands_at(prompt(), line, at));
}

} // verus!
