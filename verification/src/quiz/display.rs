//! What the room reads while a round runs.

use vstd::prelude::*;

use crate::numbers::{decimal, push_nat};
use crate::quiz::answers::{choice_emoji, choice_of_emoji, emoji, law_emoji_reads_back};
use crate::state::{FetchedQuestion, QuestionView};
use crate::text::{
    has_text, join, join_texts, law_joined_parts_are_there, push_repeated, repeat, same, stands_at,
    texts,
};

verus! {

/// The mark of a difficulty.
pub open spec fn icon_of(d: Seq<char>) -> Seq<char> {
    if d == "easy"@ {
        "🟢"@
    } else if d == "medium"@ {
        "🟡"@
    } else if d == "hard"@ {
        "🔴"@
    } else {
        "⚪"@
    }
}

/// The mark of a difficulty.
pub fn difficulty_icon(d: &str) -> (r: &'static str)
    ensures
        r@ == icon_of(d@),
{
    if same(d, "easy") {
        "🟢"
    } else if same(d, "medium") {
        "🟡"
    } else if same(d, "hard") {
        "🔴"
    } else {
        "⚪"
    }
}

/// A time until something starts, in words.
pub open spec fn countdown_text(secs: nat) -> Seq<char> {
    let mins: nat = secs / 60;
    if mins >= 1 {
        decimal(mins) + " minute"@ + (if mins == 1 {
            ""@
        } else {
            "s"@
        })
    } else {
        decimal(secs) + " seconds"@
    }
}

/// A time until something starts, in words.
pub fn format_countdown(secs: u64) -> (r: String)
    ensures
        r@ == countdown_text(secs as nat),
{
    let mins: u64 = secs / 60;
    let mut out = String::new();
    if mins >= 1 {
        push_nat(&mut out, mins);
        out.append(" minute");
        out.append(if mins == 1 { "" } else { "s" });
    } else {
        push_nat(&mut out, secs);
        out.append(" seconds");
    }
    out
}

/// How many characters wide the time bar is.
pub const BAR_WIDTH: usize = 10;

/// How much of the time bar is filled.
pub open spec fn bar_filled(remaining: nat, total: nat) -> nat {
    if total > 0 {
        remaining * 10 / total
    } else {
        0
    }
}

/// A bar that shows how much time remains.
pub open spec fn bar_text(remaining: nat, total: nat) -> Seq<char> {
    repeat('█', bar_filled(remaining, total)) + repeat(
        '░',
        (BAR_WIDTH - bar_filled(remaining, total)) as nat,
    )
}

/// Whether a bar can show the time: it is not longer than the whole.
pub open spec fn bar_fits(remaining: nat, total: nat) -> bool {
    total > 0 ==> remaining * 10 <= u64::MAX && bar_filled(remaining, total) <= BAR_WIDTH
}

/// A bar that shows how much time remains.
pub fn time_bar(remaining: u64, total: u64) -> (r: String)
    requires
        bar_fits(remaining as nat, total as nat),
    ensures
        r@ == bar_text(remaining as nat, total as nat),
{
    let filled: usize = if total > 0 {
        (remaining * 10 / total) as usize
    } else {
        0
    };
    let mut out = String::new();
    push_repeated(&mut out, '█', filled);
    push_repeated(&mut out, '░', BAR_WIDTH - filled);
    out
}

/// Time that remains of a whole fits the bar, however long.
pub proof fn lemma_bar_fits(remaining: nat, total: nat)
    requires
        remaining <= total,
        total * 10 <= u64::MAX,
    ensures
        bar_fits(remaining, total),
{
    if total > 0 {
        assert(remaining * 10 / total <= 10) by (nonlinear_arith)
            requires
                remaining <= total,
                total > 0,
        ;
    }
}

/// The time bar always has the same width.
pub proof fn law_time_bar_width(remaining: nat, total: nat)
    requires
        bar_fits(remaining, total),
    ensures
        bar_text(remaining, total).len() == BAR_WIDTH,
        remaining == total && total > 0 ==> bar_text(remaining, total) == repeat('█', 10),
        remaining == 0 ==> bar_text(remaining, total) == repeat('░', 10),
{
    if total > 0 {
        if remaining == total {
            assert(remaining * 10 / total == 10) by (nonlinear_arith)
                requires
                    remaining == total,
                    total > 0,
            ;
        }
        if remaining == 0 {
            assert(0nat * 10 / total == 0) by (nonlinear_arith)
                requires
                    total > 0,
            ;
        }
    }
    assert(remaining == total && total > 0 ==> bar_text(remaining, total) =~= repeat('█', 10));
    assert(remaining == 0 ==> bar_text(remaining, total) =~= repeat('░', 10));
}

/// The line of a choice.
pub open spec fn choice_line(i: int, choice: Seq<char>) -> Seq<char> {
    emoji(i)->0 + "  "@ + choice
}

/// The lines of a question.
pub open spec fn question_lines(
    q_num: nat,
    n_questions: nat,
    q: QuestionView,
    choices: Seq<Seq<char>>,
    total: nat,
    remaining: nat,
) -> Seq<Seq<char>> {
    seq![
        "❓ Q"@ + decimal(q_num) + "/"@ + decimal(n_questions) + " | "@ + icon_of(q.difficulty)
            + " "@ + q.difficulty + " · "@ + q.category + " | ⏳ "@ + decimal(remaining) + "s "@
            + bar_text(remaining, total),
        ""@,
        q.question,
        ""@,
    ] + choices.map(|i: int, c: Seq<char>| choice_line(i, c))
}

/// The message that asks a question.
pub fn question_text(
    q_num: u32,
    n_questions: u32,
    fetched: &FetchedQuestion,
    choices: &Vec<String>,
    total_secs: u64,
    remaining_secs: u64,
) -> (r: String)
    requires
        choices.len() <= 4,
        bar_fits(remaining_secs as nat, total_secs as nat),
    ensures
        r@ == join(
            question_lines(
                q_num as nat,
                n_questions as nat,
                fetched@,
                texts(choices@),
                total_secs as nat,
                remaining_secs as nat,
            ),
            "\n"@,
        ),
{
    let ghost all: Seq<Seq<char>> = texts(choices@);
    let mut head = String::new();
    head.append("❓ Q");
    push_nat(&mut head, q_num as u64);
    head.append("/");
    push_nat(&mut head, n_questions as u64);
    head.append(" | ");
    head.append(difficulty_icon(fetched.difficulty.as_str()));
    head.append(" ");
    head.append(fetched.difficulty.as_str());
    head.append(" · ");
    head.append(fetched.category.as_str());
    head.append(" | ⏳ ");
    push_nat(&mut head, remaining_secs);
    head.append("s ");
    head.append(time_bar(remaining_secs, total_secs).as_str());
    let ghost first: Seq<char> = head@;
    let mut lines: Vec<String> = Vec::new();
    lines.push(head);
    lines.push("".to_owned());
    lines.push(fetched.question.clone());
    lines.push("".to_owned());
    let ghost top: Seq<Seq<char>> = seq![first, ""@, fetched.question@, ""@];
    assert(texts(lines@) =~= top);
    let mut i: usize = 0;
    while i < choices.len()
        invariant
            i <= choices.len(),
            choices.len() <= 4,
            all == texts(choices@),
            texts(lines@) == top + all.take(i as int).map(|j: int, c: Seq<char>| choice_line(j, c)),
        decreases choices.len() - i,
    {
        let ghost before: Seq<String> = lines@;
        let mut line = String::new();
        match choice_emoji(i) {
            Some(e) => line.append(e),
            None => {},
        }
        line.append("  ");
        line.append(choices[i].as_str());
        let ghost text: Seq<char> = line@;
        lines.push(line);
        proof {
            assert(text == choice_line(i as int, all[i as int]));
            assert(texts(lines@) =~= texts(before).push(text));
            assert(all.take(i + 1).map(|j: int, c: Seq<char>| choice_line(j, c)) =~= all.take(
                i as int,
            ).map(|j: int, c: Seq<char>| choice_line(j, c)).push(text));
        }
        i = i + 1;
    }
    assert(all.take(choices.len() as int) =~= all);
    assert(texts(lines@) =~= question_lines(
        q_num as nat,
        n_questions as nat,
        fetched@,
        all,
        total_secs as nat,
        remaining_secs as nat,
    ));
    join_texts(&lines, "\n")
}

/// The message that first asks a question: the first of a round calls the room.
pub fn opening_text(q_num: u32, text: &str) -> (r: String)
    ensures
        r@ == (if q_num == 1 {
            "@room\n"@ + text@
        } else {
            text@
        }),
{
    let mut out = String::new();
    if q_num == 1 {
        out.append("@room\n");
    }
    out.append(text);
    out
}

/// "question" or "questions".
pub open spec fn questions_word(n: nat) -> Seq<char> {
    if n == 1 {
        "question"@
    } else {
        "questions"@
    }
}

/// A reminder, plain.
pub open spec fn reminder_plain(secs_before: nat, n_questions: nat) -> Seq<char> {
    "🧠 Quiz starting in "@ + countdown_text(secs_before) + "! @room\n"@ + decimal(n_questions)
        + " "@ + questions_word(n_questions) + " incoming."@
}

/// A reminder, with markup.
pub open spec fn reminder_html(secs_before: nat, n_questions: nat) -> Seq<char> {
    "🧠 <strong>Quiz starting in "@ + countdown_text(secs_before) + "!</strong> @room<br>"@
        + decimal(n_questions) + " "@ + questions_word(n_questions) + " incoming."@
}

/// The message that reminds the room of a quiz: plain, and with markup.
pub fn reminder_text(secs_before: u64, n_questions: u32) -> (r: (String, String))
    ensures
        r.0@ == reminder_plain(secs_before as nat, n_questions as nat),
        r.1@ == reminder_html(secs_before as nat, n_questions as nat),
{
    let time = format_countdown(secs_before);
    let word: &str = if n_questions == 1 {
        "question"
    } else {
        "questions"
    };
    let mut plain = String::new();
    plain.append("🧠 Quiz starting in ");
    plain.append(time.as_str());
    plain.append("! @room\n");
    push_nat(&mut plain, n_questions as u64);
    plain.append(" ");
    plain.append(word);
    plain.append(" incoming.");
    let mut html = String::new();
    html.append("🧠 <strong>Quiz starting in ");
    html.append(time.as_str());
    html.append("!</strong> @room<br>");
    push_nat(&mut html, n_questions as u64);
    html.append(" ");
    html.append(word);
    html.append(" incoming.");
    (plain, html)
}

/// The message of a round for which no question could be had.
pub fn no_round_text() -> (r: String)
    ensures
        r@
            == "⚠️ Couldn't prepare any questions for this round (OpenTDB unavailable) — skipping."@,
{
    "⚠️ Couldn't prepare any questions for this round (OpenTDB unavailable) — skipping.".to_owned()
}

/// The message of a round that ends because a question could not be posted.
pub open spec fn lost_connection(q_num: nat, round_len: nat, asked: nat) -> Seq<char> {
    "⚠️ Lost connection to Matrix while posting Q"@ + decimal(q_num) + "/"@ + decimal(round_len)
        + " — ending round early ("@ + decimal(asked) + " question"@ + (if asked == 1 {
        ""@
    } else {
        "s"@
    }) + " completed)."@
}

/// The message of a round that ends because a question could not be posted.
pub fn lost_connection_text(q_num: u32, round_len: u32, asked: u32) -> (r: String)
    ensures
        r@ == lost_connection(q_num as nat, round_len as nat, asked as nat),
{
    let mut out = String::new();
    out.append("⚠️ Lost connection to Matrix while posting Q");
    push_nat(&mut out, q_num as u64);
    out.append("/");
    push_nat(&mut out, round_len as u64);
    out.append(" — ending round early (");
    push_nat(&mut out, asked as u64);
    out.append(" question");
    out.append(if asked == 1 { "" } else { "s" });
    out.append(" completed).");
    out
}

/// Who started a round: a slot of the schedule, or someone by hand.
pub fn triggered_by(slot_key: Option<&str>) -> (r: String)
    ensures
        r@ == (match slot_key {
            Some(k) => "scheduler:"@ + k@,
            None => "manual"@,
        }),
{
    match slot_key {
        Some(k) => {
            let mut out = "scheduler:".to_owned();
            out.append(k);
            out
        },
        None => "manual".to_owned(),
    }
}

// ── Laws ─────────────────────────────────────────────────────────────────────

/// Every choice has a line of its own, which shows it behind the mark that is
/// read back as that choice. So no two choices share a mark, and the mark beside
/// a choice is the reaction that answers with it. The question itself stands
/// before them.
pub proof fn law_choices_stand_behind_their_marks(
    q_num: nat,
    n_questions: nat,
    q: QuestionView,
    choices: Seq<Seq<char>>,
    total: nat,
    remaining: nat,
    k: int,
)
    requires
        choices.len() <= 4,
        0 <= k < choices.len(),
    ensures
        ({
            let lines: Seq<Seq<char>> = question_lines(
                q_num,
                n_questions,
                q,
                choices,
                total,
                remaining,
            );
            &&& lines.len() == 4 + choices.len()
            &&& lines[2] == q.question
            &&& exists|mark: Seq<char>| #[trigger]
                choice_of_emoji(mark) == Some(k as u8) && lines[4 + k] == mark + "  "@ + choices[k]
            &&& has_text(join(lines, "\n"@), choices[k])
            &&& has_text(join(lines, "\n"@), q.question)
        }),
{
    let lines: Seq<Seq<char>> = question_lines(q_num, n_questions, q, choices, total, remaining);
    let text: Seq<char> = join(lines, "\n"@);
    law_emoji_reads_back(k as u8);
    let mark: Seq<char> = emoji(k)->0;
    assert(lines[4 + k] == mark + "  "@ + choices[k]);
    assert(choice_of_emoji(mark) == Some(k as u8));
    law_joined_parts_are_there(lines, "\n"@, 2);
    law_joined_parts_are_there(lines, "\n"@, 4 + k);
    let line: Seq<char> = lines[4 + k];
    let at: int = choose|at: int| stands_at(text, line, at);
    let from: int = at + line.len() - choices[k].len();
    assert(text.subrange(from, from + choices[k].len()) =~= choices[k]) by {
        assert forall|i: int| 0 <= i < choices[k].len() implies text[from + i] == choices[k][i] by {
            assert(text.subrange(at, at + line.len())[from - at + i] == line[from - at + i]);
        }
    }
    assert(stands_at(text, choices[k], from));
}

/// The question is numbered, and says how hard it is, what it is about and how
/// much time is left.
pub proof fn law_questions_are_headed(
    q_num: nat,
    n_questions: nat,
    q: QuestionView,
    choices: Seq<Seq<char>>,
    total: nat,
    remaining: nat,
)
    ensures
        ({
            let head: Seq<char> = question_lines(
                q_num,
                n_questions,
                q,
                choices,
                total,
                remaining,
            )[0];
            &&& ("❓ Q"@ + decimal(q_num) + "/"@ + decimal(n_questions) + " | "@).is_prefix_of(head)
            &&& (" "@ + q.difficulty + " · "@ + q.category + " | ⏳ "@ + decimal(remaining) + "s "@
                + bar_text(remaining, total)).is_suffix_of(head)
        }),
{
    let head: Seq<char> = question_lines(q_num, n_questions, q, choices, total, remaining)[0];
    let front: Seq<char> = "❓ Q"@ + decimal(q_num) + "/"@ + decimal(n_questions) + " | "@;
    let back: Seq<char> = " "@ + q.difficulty + " · "@ + q.category + " | ⏳ "@ + decimal(remaining)
        + "s "@ + bar_text(remaining, total);
    assert(head =~= front + icon_of(q.difficulty) + back);
    assert(head.take(front.len() as int) =~= front);
    assert(head.skip(head.len() - back.len()) =~= back);
}

/// The bar is filled in proportion to the time that remains, rounded down, from
/// the left; more time never makes it shorter.
pub proof fn law_time_bar_is_proportional(remaining: nat, less: nat, total: nat)
    requires
        total > 0,
        less <= remaining <= total,
    ensures
        ({
            let filled: int = bar_filled(remaining, total) as int;
            &&& filled * total <= remaining * 10 < (filled + 1) * total
            &&& forall|i: int| 0 <= i < filled ==> #[trigger] bar_text(remaining, total)[i] == '█'
            &&& forall|i: int|
                filled <= i < BAR_WIDTH ==> #[trigger] bar_text(remaining, total)[i] == '░'
            &&& bar_filled(less, total) <= filled <= BAR_WIDTH
        }),
{
    let filled: int = bar_filled(remaining, total) as int;
    let t: int = total as int;
    let r: int = remaining as int;
    let l: int = less as int;
    assert(filled == r * 10 / t);
    assert((r * 10 / t) * t <= r * 10 < (r * 10 / t + 1) * t) by (nonlinear_arith)
        requires
            t > 0,
            r >= 0,
    ;
    assert(l * 10 / t <= r * 10 / t) by (nonlinear_arith)
        requires
            t > 0,
            0 <= l <= r,
    ;
    assert(r * 10 / t <= 10) by (nonlinear_arith)
        requires
            t > 0,
            0 <= r <= t,
    ;
}

/// Every difficulty has a mark of its own, and all others share a fourth.
pub proof fn law_difficulties_have_different_marks(d: Seq<char>)
    requires
        d != "easy"@,
        d != "medium"@,
        d != "hard"@,
    ensures
        icon_of("easy"@) != icon_of("medium"@),
        icon_of("easy"@) != icon_of("hard"@),
        icon_of("medium"@) != icon_of("hard"@),
        icon_of(d) != icon_of("easy"@),
        icon_of(d) != icon_of("medium"@),
        icon_of(d) != icon_of("hard"@),
        icon_of("easy"@) == "🟢"@,
        icon_of("medium"@) == "🟡"@,
        icon_of("hard"@) == "🔴"@,
        icon_of(d) == "⚪"@,
{
    reveal_strlit("easy");
    reveal_strlit("medium");
    reveal_strlit("hard");
    reveal_strlit("🟢");
    reveal_strlit("🟡");
    reveal_strlit("🔴");
    reveal_strlit("⚪");
    assert("easy"@[0] == 'e' && "medium"@[0] == 'm' && "hard"@[0] == 'h');
    assert("🟢"@[0] == '🟢' && "🟡"@[0] == '🟡' && "🔴"@[0] == '🔴' && "⚪"@[0] == '⚪');
}

/// A countdown in whole minutes names the number of minutes, one of under a
/// minute the number of seconds; seconds over the minutes are not named.
pub proof fn law_countdowns_name_the_time(minutes: nat, secs: nat)
    requires
        secs < 60,
    ensures
        minutes > 0 ==> countdown_text(60 * minutes + secs) == countdown_text(60 * minutes),
        minutes > 1 ==> countdown_text(60 * minutes) == decimal(minutes) + " minutes"@,
        countdown_text(60) == decimal(1) + " minute"@,
        countdown_text(secs) == decimal(secs) + " seconds"@,
{
    reveal_strlit(" minute");
    reveal_strlit(" minutes");
    reveal_strlit("s");
    reveal_strlit("");
    assert((60 * minutes + secs) / 60 == minutes);
    assert((60 * minutes) / 60 == minutes);
    assert(decimal(minutes) + " minute"@ + "s"@ =~= decimal(minutes) + " minutes"@);
    assert(decimal(1) + " minute"@ + ""@ =~= decimal(1) + " minute"@);
}

/// A reminder says in how much time the quiz starts and how many questions there
/// are, plain and with markup.
pub proof fn law_reminders_say_when(secs_before: nat, n_questions: nat)
    ensures
        has_text(reminder_plain(secs_before, n_questions), countdown_text(secs_before)),
        has_text(reminder_html(secs_before, n_questions), countdown_text(secs_before)),
        (decimal(n_questions) + (if n_questions == 1 {
            " question incoming."@
        } else {
            " questions incoming."@
        })).is_suffix_of(reminder_plain(secs_before, n_questions)),
        (decimal(n_questions) + (if n_questions == 1 {
            " question incoming."@
        } else {
            " questions incoming."@
        })).is_suffix_of(reminder_html(secs_before, n_questions)),
{
    reveal_strlit(" question incoming.");
    reveal_strlit(" questions incoming.");
    reveal_strlit(" ");
    reveal_strlit("question");
    reveal_strlit("questions");
    reveal_strlit(" incoming.");
    let time: Seq<char> = countdown_text(secs_before);
    let end: Seq<char> = decimal(n_questions) + (if n_questions == 1 {
        " question incoming."@
    } else {
        " questions incoming."@
    });
    let plain: Seq<char> = reminder_plain(secs_before, n_questions);
    let html: Seq<char> = reminder_html(secs_before, n_questions);
    assert(plain =~= "🧠 Quiz starting in "@ + time + "! @room\n"@ + end);
    assert(html =~= "🧠 <strong>Quiz starting in "@ + time + "!</strong> @room<br>"@ + end);
    let a: int = "🧠 Quiz starting in "@.len() as int;
    let b: int = "🧠 <strong>Quiz starting in "@.len() as int;
    assert(plain.subrange(a, a + time.len()) =~= time);
    assert(stands_at(plain, time, a));
    assert(html.subrange(b, b + time.len()) =~= time);
    assert(stands_at(html, time, b));
    assert(plain.skip(plain.len() - end.len()) =~= end);
    assert(html.skip(html.len() - end.len()) =~= end);
}

/// Where the connection is lost, the room reads at which question of how many,
/// and how many were asked until then.
pub proof fn law_lost_connections_tell_how_far(q_num: nat, round_len: nat, asked: nat)
    ensures
        has_text(
            lost_connection(q_num, round_len, asked),
            " Q"@ + decimal(q_num) + "/"@ + decimal(round_len) + " "@,
        ),
        asked == 1 ==> "(1 question completed)."@.is_suffix_of(
            lost_connection(q_num, round_len, asked),
        ),
        asked != 1 ==> ("("@ + decimal(asked) + " questions completed)."@).is_suffix_of(
            lost_connection(q_num, round_len, asked),
        ),
{
    reveal_strlit("⚠️ Lost connection to Matrix while posting Q");
    reveal_strlit(" Q");
    reveal_strlit(" ");
    reveal_strlit("(");
    reveal_strlit("s");
    reveal_strlit("");
    reveal_strlit(" — ending round early (");
    reveal_strlit(" question");
    reveal_strlit(" completed).");
    reveal_strlit("(1 question completed).");
    reveal_strlit(" questions completed).");
    let text: Seq<char> = lost_connection(q_num, round_len, asked);
    let head: Seq<char> = "⚠️ Lost connection to Matrix while posting Q"@;
    let part: Seq<char> = " Q"@ + decimal(q_num) + "/"@ + decimal(round_len) + " "@;
    let at: int = head.len() - 2;
    assert(text.subrange(at, at + part.len()) =~= part);
    assert(stands_at(text, part, at));
    let end: Seq<char> = if asked == 1 {
        "(1 question completed)."@
    } else {
        "("@ + decimal(asked) + " questions completed)."@
    };
    assert(decimal(1) =~= seq!['1']);
    assert(text.skip(text.len() - end.len()) =~= end);
}

} // verus!
