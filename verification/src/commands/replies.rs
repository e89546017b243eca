//! The replies to commands.

use vstd::prelude::*;

use crate::config::{ScheduleConfig, TriviaConfig};
use crate::db::{
    CategoryStat, LeaderboardEntry, SpeedEntry, SpeedNearEntry, UserCategoryStat, UserStatsRow,
};
use crate::fetcher::categories::{
    category_groups, group_table, group_views, groups_kept, is_excluded, kept_groups, normalise,
    normalise_all, normalised,
};
use crate::leaderboard::{percent, percentage};
use crate::numbers::{decimal, int_text, pad_left, push_int, push_nat, push_padded, signed};
use crate::text::{contains_text, join, join_texts, push_repeated, repeat, same, texts};

verus! {

/// A duration in words.
pub open spec fn duration_of(secs: nat) -> Seq<char> {
    let h: nat = secs / 3600;
    let m: nat = (secs % 3600) / 60;
    let s: nat = secs % 60;
    if h > 0 && m == 0 && s == 0 {
        decimal(h) + "h"@
    } else if h == 0 && m > 0 && s == 0 {
        decimal(m) + "m"@
    } else if h == 0 && m == 0 {
        decimal(s) + "s"@
    } else if s == 0 {
        decimal(h) + "h "@ + decimal(m) + "m"@
    } else if h == 0 {
        decimal(m) + "m "@ + decimal(s) + "s"@
    } else {
        decimal(h) + "h "@ + decimal(m) + "m "@ + decimal(s) + "s"@
    }
}

/// A duration in words, such as "1h 30m", "45m" or "30s".
pub fn format_duration(secs: u64) -> (r: String)
    ensures
        r@ == duration_of(secs as nat),
{
    let h: u64 = secs / 3600;
    let m: u64 = (secs % 3600) / 60;
    let s: u64 = secs % 60;
    let mut out = String::new();
    if h > 0 && m == 0 && s == 0 {
        push_nat(&mut out, h);
        out.append("h");
    } else if h == 0 && m > 0 && s == 0 {
        push_nat(&mut out, m);
        out.append("m");
    } else if h == 0 && m == 0 {
        push_nat(&mut out, s);
        out.append("s");
    } else if s == 0 {
        push_nat(&mut out, h);
        out.append("h ");
        push_nat(&mut out, m);
        out.append("m");
    } else if h == 0 {
        push_nat(&mut out, m);
        out.append("m ");
        push_nat(&mut out, s);
        out.append("s");
    } else {
        push_nat(&mut out, h);
        out.append("h ");
        push_nat(&mut out, m);
        out.append("m ");
        push_nat(&mut out, s);
        out.append("s");
    }
    out
}

// ── Where the database fails ─────────────────────────────────────────────────

/// The reply where the leaderboard cannot be read.
pub const NO_LEADERBOARD: &'static str = "❌ Could not read leaderboard from database.";

/// The reply where a user's results cannot be read.
pub const NO_STATS: &'static str = "❌ Could not read stats from database.";

/// The reply where the categories' counts cannot be read.
pub const NO_CATEGORY_STATS: &'static str = "❌ Could not read category stats from database.";

/// The reply where the answer times cannot be read.
pub const NO_SPEED_STATS: &'static str = "❌ Could not read speed stats from database.";

// ── Starting, fetching, resetting ────────────────────────────────────────────

/// The reply to a command that starts a quiz, and whether one starts: not
/// while a question is open.
pub fn start_reply(question_open: bool, answer_timeout_secs: u64) -> (r: (String, bool))
    ensures
        r.1 == !question_open,
        question_open ==> r.0@ == "⚠️ A quiz is already in progress!"@,
        !question_open ==> r.0@ == "🎯 Quiz starting · "@ + duration_of(
            answer_timeout_secs as nat,
        ) + " per question"@,
{
    if question_open {
        return ("⚠️ A quiz is already in progress!".to_owned(), false);
    }
    let mut out = "🎯 Quiz starting · ".to_owned();
    out.append(format_duration(answer_timeout_secs).as_str());
    out.append(" per question");
    (out, true)
}

/// The reply to a command that fetches questions: how many came, or why none
/// did.
pub fn prefetch_reply(result: Result<usize, String>, before: usize, total: usize) -> (r: String)
    ensures
        r@ == (match result {
            Ok(n) => "✅ Fetched "@ + decimal(n as nat) + " questions from OpenTDB.  Cache: "@
                + decimal(before as nat) + " → "@ + decimal(total as nat) + "."@,
            Err(e) => "❌ Prefetch failed: "@ + e@,
        }),
{
    match result {
        Ok(n) => {
            let mut out = "✅ Fetched ".to_owned();
            push_nat(&mut out, n as u64);
            out.append(" questions from OpenTDB.  Cache: ");
            push_nat(&mut out, before as u64);
            out.append(" → ");
            push_nat(&mut out, total as u64);
            out.append(".");
            out
        },
        Err(e) => {
            let mut out = "❌ Prefetch failed: ".to_owned();
            out.append(e.as_str());
            out
        },
    }
}

/// The reply to a reset that is not confirmed.
pub fn reset_warning() -> (r: String)
    ensures
        r@
            == "⚠️ Deletes ALL history: rounds, questions, answers, scores.\nConfirm: !resetstats confirm"@,
{
    "⚠️ Deletes ALL history: rounds, questions, answers, scores.\nConfirm: !resetstats confirm".to_owned()
}

/// The reply to a reset.
pub fn reset_reply(done: bool) -> (r: String)
    ensures
        r@ == (if done {
            "✅ Stats reset · leaderboard and history wiped."@
        } else {
            "❌ Reset failed — check the logs."@
        }),
{
    if done {
        "✅ Stats reset · leaderboard and history wiped.".to_owned()
    } else {
        "❌ Reset failed — check the logs.".to_owned()
    }
}

// ── Scores ───────────────────────────────────────────────────────────────────

/// The mark of a place in a reply.
pub open spec fn rank_mark(place: int) -> Seq<char> {
    if place == 0 {
        "🥇"@
    } else if place == 1 {
        "🥈"@
    } else if place == 2 {
        "🥉"@
    } else {
        "  "@
    }
}

fn mark(place: usize) -> (r: &'static str)
    ensures
        r@ == rank_mark(place as int),
{
    if place == 0 {
        "🥇"
    } else if place == 1 {
        "🥈"
    } else if place == 2 {
        "🥉"
    } else {
        "  "
    }
}

/// Whether a share can be computed.
pub open spec fn fits_percent(correct: int, total: int) -> bool {
    total > 0 ==> i64::MIN <= correct * 100 <= i64::MAX
}

/// The line of a player.
pub open spec fn score_line(place: int, e: LeaderboardEntry) -> Seq<char> {
    rank_mark(place) + " "@ + e.user_id@ + " · "@ + signed(e.total_correct as int) + "/"@ + signed(
        e.total_questions as int,
    ) + " · "@ + signed(percent(e.total_correct as int, e.total_questions as int)) + "% · "@
        + signed(e.rounds_played as int) + " rounds"@
}

/// The reply with the leaderboard.
pub open spec fn scores_of(board: Seq<LeaderboardEntry>, round_count: int) -> Seq<char> {
    if board.len() == 0 {
        "No scores yet."@
    } else {
        join(
            seq!["🏆 **Leaderboard** · "@ + signed(round_count) + " rounds"@, ""@] + board.map(
                |i: int, e: LeaderboardEntry| score_line(i, e),
            ),
            "\n"@,
        )
    }
}

/// The reply with the leaderboard.
pub fn scores_text(board: &Vec<LeaderboardEntry>, round_count: i64) -> (r: String)
    requires
        forall|i: int|
            0 <= i < board.len() ==> fits_percent(
                (#[trigger] board@[i]).total_correct as int,
                board@[i].total_questions as int,
            ),
    ensures
        r@ == scores_of(board@, round_count as int),
{
    if board.len() == 0 {
        return "No scores yet.".to_owned();
    }
    let mut head = "🏆 **Leaderboard** · ".to_owned();
    push_int(&mut head, round_count);
    head.append(" rounds");
    let ghost first: Seq<char> = head@;
    let mut lines: Vec<String> = Vec::new();
    lines.push(head);
    lines.push("".to_owned());
    let mut i: usize = 0;
    assert(texts(lines@) =~= seq![first, ""@] + board@.take(0).map(
        |k: int, e: LeaderboardEntry| score_line(k, e),
    ));
    while i < board.len()
        invariant
            i <= board.len(),
            forall|k: int|
                0 <= k < board.len() ==> fits_percent(
                    (#[trigger] board@[k]).total_correct as int,
                    board@[k].total_questions as int,
                ),
            texts(lines@) == seq![first, ""@] + board@.take(i as int).map(
                |k: int, e: LeaderboardEntry| score_line(k, e),
            ),
        decreases board.len() - i,
    {
        let ghost before: Seq<String> = lines@;
        let e: &LeaderboardEntry = &board[i];
        let mut line = mark(i).to_owned();
        line.append(" ");
        line.append(e.user_id.as_str());
        line.append(" · ");
        push_int(&mut line, e.total_correct);
        line.append("/");
        push_int(&mut line, e.total_questions);
        line.append(" · ");
        push_int(&mut line, percentage(e.total_correct, e.total_questions));
        line.append("% · ");
        push_int(&mut line, e.rounds_played);
        line.append(" rounds");
        let ghost text: Seq<char> = line@;
        lines.push(line);
        proof {
            assert(text == score_line(i as int, board@[i as int]));
            assert(texts(lines@) =~= texts(before).push(text));
            assert(board@.take(i + 1).map(|k: int, x: LeaderboardEntry| score_line(k, x))
                =~= board@.take(i as int).map(
                |k: int, x: LeaderboardEntry| score_line(k, x),
            ).push(text));
        }
        i = i + 1;
    }
    assert(board@.take(board.len() as int) =~= board@);
    join_texts(&lines, "\n")
}

/// The place of a user on a leaderboard, from `from` on.
pub open spec fn place_of(board: Seq<LeaderboardEntry>, user: Seq<char>, from: int) -> Option<int>
    decreases board.len() - from,
{
    if from >= board.len() {
        None
    } else if board[from].user_id@ == user {
        Some(from)
    } else {
        place_of(board, user, from + 1)
    }
}

fn find_place(board: &Vec<LeaderboardEntry>, user: &str) -> (r: Option<usize>)
    ensures
        r is Some ==> place_of(board@, user@, 0) == Some(r->0 as int) && r->0 < board.len(),
        r is None ==> place_of(board@, user@, 0) is None,
{
    let mut i: usize = 0;
    while i < board.len()
        invariant
            i <= board.len(),
            place_of(board@, user@, 0) == place_of(board@, user@, i as int),
        decreases board.len() - i,
    {
        if same(board[i].user_id.as_str(), user) {
            return Some(i);
        }
        i = i + 1;
    }
    None
}

/// The lines about a user's best and worst category.
pub open spec fn category_lines(cats: Seq<UserCategoryStat>) -> Seq<Seq<char>> {
    if cats.len() >= 2 {
        let best: UserCategoryStat = cats[0];
        let worst: UserCategoryStat = cats.last();
        seq![
            "🏆 Best: "@ + best.category@ + " ("@ + signed(
                percent(best.correct as int, best.answered as int),
            ) + "%)"@,
            "😬 Worst: "@ + worst.category@ + " ("@ + signed(
                percent(worst.correct as int, worst.answered as int),
            ) + "%)"@,
        ]
    } else {
        Seq::empty()
    }
}

/// The reply with a user's own results.
pub open spec fn mystats_of(
    stats: UserStatsRow,
    board: Seq<LeaderboardEntry>,
    user: Seq<char>,
    cats: Seq<UserCategoryStat>,
) -> Seq<char> {
    let rank: Seq<char> = match place_of(board, user, 0) {
        Some(i) => " · rank #"@ + decimal((i + 1) as nat) + " of "@ + decimal(board.len()),
        None => ""@,
    };
    join(
        seq![
            "📊 **Stats** · "@ + signed(stats.total_correct as int) + "/"@ + signed(
                stats.total_questions as int,
            ) + " · "@ + signed(
                percent(stats.total_correct as int, stats.total_questions as int),
            ) + "% · "@ + signed(stats.rounds_played as int) + " rounds"@ + rank,
        ] + category_lines(cats),
        "\n"@,
    )
}

/// Whether a user's share in a category can be computed.
pub open spec fn fits_category(c: UserCategoryStat) -> bool {
    c.answered > 0 && fits_percent(c.correct as int, c.answered as int)
}

fn category_line(head: &str, c: &UserCategoryStat) -> (r: String)
    requires
        fits_category(*c),
    ensures
        r@ == head@ + c.category@ + " ("@ + signed(percent(c.correct as int, c.answered as int))
            + "%)"@,
{
    let mut line = head.to_owned();
    line.append(c.category.as_str());
    line.append(" (");
    push_int(&mut line, percentage(c.correct, c.answered));
    line.append("%)");
    line
}

/// The reply with a user's own results: `stats` are theirs, or nothing where
/// they have none; `cats` the categories that they answered, the best first.
pub fn mystats_text(
    stats: Option<UserStatsRow>,
    board: &Vec<LeaderboardEntry>,
    user: &str,
    cats: &Vec<UserCategoryStat>,
) -> (r: String)
    requires
        stats is Some ==> fits_percent(
            stats->0.total_correct as int,
            stats->0.total_questions as int,
        ),
        cats.len() >= 2 ==> fits_category(cats@[0]) && fits_category(cats@.last()),
    ensures
        stats is None ==> r@ == "You haven't answered any quiz questions yet."@,
        stats is Some ==> r@ == mystats_of(stats->0, board@, user@, cats@),
{
    let s = match stats {
        Some(s) => s,
        None => {
            return "You haven't answered any quiz questions yet.".to_owned();
        },
    };
    let mut head = "📊 **Stats** · ".to_owned();
    push_int(&mut head, s.total_correct);
    head.append("/");
    push_int(&mut head, s.total_questions);
    head.append(" · ");
    push_int(&mut head, percentage(s.total_correct, s.total_questions));
    head.append("% · ");
    push_int(&mut head, s.rounds_played);
    head.append(" rounds");
    let ghost plain: Seq<char> = head@;
    match find_place(board, user) {
        Some(i) => {
            head.append(" · rank #");
            push_nat(&mut head, i as u64 + 1);
            head.append(" of ");
            push_nat(&mut head, board.len() as u64);
        },
        None => {
            proof {
                reveal_strlit("");
                assert(plain + ""@ =~= plain);
            }
        },
    }
    let mut lines: Vec<String> = Vec::new();
    proof {
        match place_of(board@, user@, 0) {
            Some(i) => {
                assert(head@ =~= plain + (" · rank #"@ + decimal((i + 1) as nat) + " of "@
                    + decimal(board@.len())));
            },
            None => {},
        }
    }
    lines.push(head);
    if cats.len() >= 2 {
        lines.push(category_line("🏆 Best: ", &cats[0]));
        lines.push(category_line("😬 Worst: ", &cats[cats.len() - 1]));
    }
    assert(texts(lines@) =~= seq![head@] + category_lines(cats@));
    join_texts(&lines, "\n")
}

// ── Categories ───────────────────────────────────────────────────────────────

/// How many questions were asked in all.
pub open spec fn total_asked(stats: Seq<CategoryStat>) -> int
    decreases stats.len(),
{
    if stats.len() == 0 {
        0
    } else {
        total_asked(stats.drop_last()) + stats.last().questions_asked
    }
}

/// How many questions the category has that was asked most.
pub open spec fn most_asked(stats: Seq<CategoryStat>) -> int
    decreases stats.len(),
{
    if stats.len() <= 1 {
        stats.last().questions_asked as int
    } else if stats.last().questions_asked >= most_asked(stats.drop_last()) {
        stats.last().questions_asked as int
    } else {
        most_asked(stats.drop_last())
    }
}

/// The line of a category.
pub open spec fn stat_line(s: CategoryStat, most: int) -> Seq<char> {
    let filled: nat = (s.questions_asked * 10 / most) as nat;
    repeat('█', filled) + repeat('░', (10 - filled) as nat) + "  "@ + pad_left(
        signed(s.questions_asked as int),
        2,
        ' ',
    ) + "q  "@ + pad_left(
        signed(percent(s.correct_answers as int, s.total_answers as int)),
        3,
        ' ',
    ) + "% ✓  "@ + s.category@
}

/// The reply with what was asked of each category.
pub open spec fn categories_of(stats: Seq<CategoryStat>) -> Seq<char> {
    if stats.len() == 0 {
        "No questions asked yet."@
    } else {
        join(
            seq!["📊 **Categories** · "@ + signed(total_asked(stats)) + " Qs asked"@, ""@]
                + stats.map_values(|s: CategoryStat| stat_line(s, most_asked(stats))),
            "\n"@,
        )
    }
}

/// Whether bars and shares can be computed of the counts: none is negative,
/// something was asked, and the sums fit.
pub open spec fn fits_stats(stats: Seq<CategoryStat>) -> bool {
    &&& forall|i: int|
        0 <= i < stats.len() ==> 0 <= (#[trigger] stats[i]).questions_asked
            && stats[i].questions_asked * 10 <= i64::MAX && fits_percent(
            stats[i].correct_answers as int,
            stats[i].total_answers as int,
        )
    &&& stats.len() > 0 ==> most_asked(stats) > 0
    &&& total_asked(stats) <= i64::MAX
}

proof fn lemma_total_asked(stats: Seq<CategoryStat>, n: int)
    requires
        0 <= n <= stats.len(),
        forall|i: int| 0 <= i < stats.len() ==> 0 <= (#[trigger] stats[i]).questions_asked,
    ensures
        0 <= total_asked(stats.take(n)) <= total_asked(stats),
    decreases stats.len(),
{
    if n < stats.len() {
        assert(stats.drop_last().take(n) =~= stats.take(n));
        assert forall|i: int| 0 <= i < stats.drop_last().len() implies 0 <= (
        #[trigger] stats.drop_last()[i]).questions_asked by {
            assert(stats.drop_last()[i] == stats[i]);
        }
        lemma_total_asked(stats.drop_last(), n);
        assert(0 <= stats[stats.len() - 1].questions_asked);
    } else if n > 0 {
        assert(stats.take(n) =~= stats);
        assert(stats.drop_last().take(n - 1) =~= stats.drop_last());
        assert forall|i: int| 0 <= i < stats.drop_last().len() implies 0 <= (
        #[trigger] stats.drop_last()[i]).questions_asked by {
            assert(stats.drop_last()[i] == stats[i]);
        }
        lemma_total_asked(stats.drop_last(), n - 1);
        assert(0 <= stats[stats.len() - 1].questions_asked);
    } else {
        assert(stats.take(0).len() == 0);
        if stats.len() > 0 {
            lemma_total_asked(stats, stats.len() as int);
        }
    }
}

proof fn lemma_most_asked(stats: Seq<CategoryStat>, i: int)
    requires
        0 <= i < stats.len(),
    ensures
        stats[i].questions_asked <= most_asked(stats),
    decreases stats.len(),
{
    if stats.len() > 1 && i < stats.len() - 1 {
        lemma_most_asked(stats.drop_last(), i);
    }
}

/// The reply with what was asked of each category.
pub fn categories_text(stats: &Vec<CategoryStat>) -> (r: String)
    requires
        fits_stats(stats@),
    ensures
        r@ == categories_of(stats@),
{
    if stats.len() == 0 {
        return "No questions asked yet.".to_owned();
    }
    let mut total: i64 = 0;
    let mut most: i64 = stats[0].questions_asked;
    let mut i: usize = 0;
    assert(stats@.take(0).len() == 0);
    while i < stats.len()
        invariant
            i <= stats.len(),
            stats.len() > 0,
            fits_stats(stats@),
            total == total_asked(stats@.take(i as int)),
            i == 0 ==> most == stats@[0].questions_asked,
            i > 0 ==> most == most_asked(stats@.take(i as int)),
        decreases stats.len() - i,
    {
        proof {
            assert(stats@.take(i + 1).drop_last() =~= stats@.take(i as int));
            assert(stats@.take(i + 1).last() == stats@[i as int]);
            lemma_total_asked(stats@, i + 1);
            lemma_total_asked(stats@, i as int);
        }
        total = total + stats[i].questions_asked;
        if stats[i].questions_asked >= most {
            most = stats[i].questions_asked;
        }
        i = i + 1;
    }
    assert(stats@.take(stats.len() as int) =~= stats@);
    let mut head = "📊 **Categories** · ".to_owned();
    push_int(&mut head, total);
    head.append(" Qs asked");
    let ghost first: Seq<char> = head@;
    let mut lines: Vec<String> = Vec::new();
    lines.push(head);
    lines.push("".to_owned());
    let ghost whole: int = most as int;
    let mut k: usize = 0;
    assert(texts(lines@) =~= seq![first, ""@] + stats@.take(0).map_values(
        |s: CategoryStat| stat_line(s, whole),
    ));
    while k < stats.len()
        invariant
            k <= stats.len(),
            fits_stats(stats@),
            whole == most,
            whole == most_asked(stats@),
            texts(lines@) == seq![first, ""@] + stats@.take(k as int).map_values(
                |s: CategoryStat| stat_line(s, whole),
            ),
        decreases stats.len() - k,
    {
        let ghost before: Seq<String> = lines@;
        let s: &CategoryStat = &stats[k];
        proof {
            lemma_most_asked(stats@, k as int);
            let asked: int = s.questions_asked as int;
            assert(0 <= asked * 10 / whole <= 10) by (nonlinear_arith)
                requires
                    0 <= asked <= whole,
                    0 < whole,
            ;
        }
        let filled: usize = ((s.questions_asked as u64) * 10 / (most as u64)) as usize;
        let mut line = String::new();
        push_repeated(&mut line, '█', filled);
        push_repeated(&mut line, '░', 10 - filled);
        line.append("  ");
        push_padded(&mut line, int_text(s.questions_asked).as_str(), 2, ' ');
        line.append("q  ");
        push_padded(
            &mut line,
            int_text(percentage(s.correct_answers, s.total_answers)).as_str(),
            3,
            ' ',
        );
        line.append("% ✓  ");
        line.append(s.category.as_str());
        let ghost text: Seq<char> = line@;
        lines.push(line);
        proof {
            assert(text == stat_line(stats@[k as int], whole));
            assert(texts(lines@) =~= texts(before).push(text));
            assert(stats@.take(k + 1).map_values(|x: CategoryStat| stat_line(x, whole))
                =~= stats@.take(k as int).map_values(
                |x: CategoryStat| stat_line(x, whole),
            ).push(text));
        }
        k = k + 1;
    }
    proof {
        assert(stats@.take(stats.len() as int) =~= stats@);
        assert(stats@.map_values(|x: CategoryStat| stat_line(x, whole)) =~= stats@.map_values(
            |x: CategoryStat| stat_line(x, most_asked(stats@)),
        ));
    }
    join_texts(&lines, "\n")
}

// ── Configuration ────────────────────────────────────────────────────────────

/// The line of a group: struck out where it is excluded.
pub open spec fn group_state_line(name: Seq<char>, out: bool) -> Seq<char> {
    if out {
        "✗ ~~"@ + name + "~~"@
    } else {
        "✓ "@ + name
    }
}

/// The reply with the groups and what is excluded of them. Where every group
/// is excluded, all are active.
pub open spec fn catconfig_of(excluded: Seq<Seq<char>>) -> Seq<char> {
    let all_excluded: bool = kept_groups(excluded).len() == 0;
    let last: Seq<char> = if excluded.len() == 0 {
        "All "@ + decimal(group_table().len()) + "/"@ + decimal(group_table().len()) + " active."@
    } else if all_excluded {
        "⚠️ All groups excluded · using all categories."@
    } else {
        decimal(kept_groups(excluded).len()) + "/"@ + decimal(group_table().len()) + " active."@
    };
    join(
        seq!["📚 **Categories**"@, ""@] + group_table().map_values(
            |g: (Seq<char>, Seq<u32>)|
                group_state_line(g.0, !all_excluded && is_excluded(g.0, excluded)),
        ) + seq![""@, last],
        "\n"@,
    )
}

/// The reply with the groups and what is excluded of them.
pub fn catconfig_text(excluded: &Vec<String>) -> (r: String)
    ensures
        r@ == catconfig_of(texts(excluded@)),
{
    let ghost ex: Seq<Seq<char>> = texts(excluded@);
    assert(ex.len() == excluded.len());
    let groups = category_groups();
    let ghost table: Seq<(Seq<char>, Seq<u32>)> = group_table();
    let keys = normalise_all(excluded.as_slice());
    let kept = groups_kept(excluded.as_slice());
    assert(kept.len() == group_views(kept@).len());
    let all_excluded: bool = kept.len() == 0;
    let ghost line_of = |g: (Seq<char>, Seq<u32>)|
        group_state_line(g.0, !all_excluded && is_excluded(g.0, ex));
    let mut lines: Vec<String> = Vec::new();
    lines.push("📚 **Categories**".to_owned());
    lines.push("".to_owned());
    let ghost top: Seq<Seq<char>> = seq!["📚 **Categories**"@, ""@];
    let mut i: usize = 0;
    assert(texts(lines@) =~= top + table.take(0).map_values(line_of));
    while i < groups.len()
        invariant
            i <= groups.len(),
            groups.len() == table.len(),
            table == group_table(),
            group_views(groups@) == table,
            ex == texts(excluded@),
            texts(keys@) == ex.map_values(|s: Seq<char>| normalised(s)),
            line_of == (|g: (Seq<char>, Seq<u32>)|
                group_state_line(g.0, !all_excluded && is_excluded(g.0, ex))),
            texts(lines@) == top + table.take(i as int).map_values(line_of),
        decreases groups.len() - i,
    {
        let ghost before: Seq<String> = lines@;
        let ghost name: Seq<char> = groups@[i as int].name@;
        let key = normalise(groups[i].name);
        let out: bool = !all_excluded && contains_text(&keys, key.as_str());
        proof {
            assert(group_views(groups@)[i as int].0 == name);
            let k: Seq<Seq<char>> = texts(keys@);
            if k.contains(key@) {
                let j: int = k.index_of(key@);
                assert(normalised(ex[j]) == normalised(name));
            }
            if is_excluded(name, ex) {
                let j: int = choose|j: int|
                    0 <= j < ex.len() && #[trigger] normalised(ex[j]) == normalised(name);
                assert(k[j] == key@);
            }
        }
        let mut line = String::new();
        if out {
            line.append("✗ ~~");
            line.append(groups[i].name);
            line.append("~~");
        } else {
            line.append("✓ ");
            line.append(groups[i].name);
        }
        let ghost text: Seq<char> = line@;
        lines.push(line);
        proof {
            assert(text == line_of(table[i as int]));
            assert(texts(lines@) =~= texts(before).push(text));
            assert(table.take(i + 1).map_values(line_of) =~= table.take(i as int).map_values(
                line_of,
            ).push(text));
        }
        i = i + 1;
    }
    assert(table.take(groups.len() as int) =~= table);
    let ghost before: Seq<String> = lines@;
    let mut last = String::new();
    if excluded.len() == 0 {
        last.append("All ");
        push_nat(&mut last, groups.len() as u64);
        last.append("/");
        push_nat(&mut last, groups.len() as u64);
        last.append(" active.");
    } else if all_excluded {
        last.append("⚠️ All groups excluded · using all categories.");
    } else {
        push_nat(&mut last, kept.len() as u64);
        last.append("/");
        push_nat(&mut last, groups.len() as u64);
        last.append(" active.");
    }
    let ghost end: Seq<char> = last@;
    lines.push("".to_owned());
    lines.push(last);
    proof {
        assert(texts(lines@) =~= texts(before) + seq![""@, end]);
        assert(table.map_values(line_of) =~= table.map_values(
            |g: (Seq<char>, Seq<u32>)|
                group_state_line(g.0, kept_groups(ex).len() != 0 && is_excluded(g.0, ex)),
        ));
    }
    join_texts(&lines, "\n")
}

/// The lines about how the game is played.
pub open spec fn gameinfo_of(s: ScheduleConfig, t: TriviaConfig) -> Seq<Seq<char>> {
    seq![
        "🧠 **Quiz Bot**"@,
        ""@,
        "🕐 Daily at "@ + (if s.quiz_times.len() == 0 {
            "not scheduled"@
        } else {
            join(texts(s.quiz_times@), ", "@)
        }) + " · "@ + s.timezone@,
    ] + (if s.reminder_before_secs > 0 {
        seq!["⏰ Reminder "@ + duration_of(s.reminder_before_secs as nat) + " before"@]
    } else {
        Seq::empty()
    }) + seq![
        "❓ "@ + decimal(s.questions_per_round as nat) + " questions · "@ + duration_of(
            s.answer_timeout_secs as nat,
        ) + " each"@,
    ] + seq![
        match t.category {
            Some(id) => "🗂️ Fixed category (OpenTDB id "@ + decimal(id as nat) + ")"@,
            None => if t.excluded_categories.len() == 0 {
                "🗂️ All categories · random"@
            } else {
                "🗂️ Random · excluding: "@ + join(texts(t.excluded_categories@), ", "@)
            },
        },
    ] + (match t.difficulty {
        Some(d) => seq!["🎯 Difficulty: "@ + d@],
        None => Seq::empty(),
    }) + seq![
        ""@,
        "Answer: 🇦 🇧 🇨 🇩 · or type !a !b !c !d"@,
        "Change answer any time before the timer ends."@,
    ]
}

/// The reply about how the game is played.
pub fn gameinfo_text(s: &ScheduleConfig, t: &TriviaConfig) -> (r: String)
    ensures
        r@ == join(gameinfo_of(*s, *t), "\n"@),
{
    let mut lines: Vec<String> = Vec::new();
    lines.push("🧠 **Quiz Bot**".to_owned());
    lines.push("".to_owned());
    let mut times = "🕐 Daily at ".to_owned();
    if s.quiz_times.len() == 0 {
        times.append("not scheduled");
    } else {
        times.append(join_texts(&s.quiz_times, ", ").as_str());
    }
    times.append(" · ");
    times.append(s.timezone.as_str());
    lines.push(times);
    if s.reminder_before_secs > 0 {
        let mut line = "⏰ Reminder ".to_owned();
        line.append(format_duration(s.reminder_before_secs).as_str());
        line.append(" before");
        lines.push(line);
    }
    let mut questions = "❓ ".to_owned();
    push_nat(&mut questions, s.questions_per_round as u64);
    questions.append(" questions · ");
    questions.append(format_duration(s.answer_timeout_secs).as_str());
    questions.append(" each");
    lines.push(questions);
    let mut category = String::new();
    match t.category {
        Some(id) => {
            category.append("🗂️ Fixed category (OpenTDB id ");
            push_nat(&mut category, id as u64);
            category.append(")");
        },
        None => {
            if t.excluded_categories.len() == 0 {
                category.append("🗂️ All categories · random");
            } else {
                category.append("🗂️ Random · excluding: ");
                category.append(join_texts(&t.excluded_categories, ", ").as_str());
            }
        },
    }
    lines.push(category);
    match &t.difficulty {
        Some(d) => {
            let mut line = "🎯 Difficulty: ".to_owned();
            line.append(d.as_str());
            lines.push(line);
        },
        None => {},
    }
    lines.push("".to_owned());
    lines.push("Answer: 🇦 🇧 🇨 🇩 · or type !a !b !c !d".to_owned());
    lines.push("Change answer any time before the timer ends.".to_owned());
    assert(texts(lines@) =~= gameinfo_of(*s, *t));
    join_texts(&lines, "\n")
}

// ── Speed ────────────────────────────────────────────────────────────────────

/// The line of a fast player.
pub open spec fn speed_line(place: int, e: SpeedEntry) -> Seq<char> {
    rank_mark(place) + " "@ + e.user_id@ + " · "@ + e.avg_secs@ + "s avg · "@ + signed(
        e.sample_count as int,
    ) + " correct"@
}

/// The line of a player with too few right answers.
pub open spec fn near_line(e: SpeedNearEntry) -> Seq<char> {
    let needed: int = 3 - e.correct_count;
    "  "@ + e.user_id@ + " · "@ + signed(needed) + " more correct answer"@ + (if needed == 1 {
        ""@
    } else {
        "s"@
    }) + " needed"@
}

/// The lines about the fastest players.
pub open spec fn fastest_of(board: Seq<SpeedEntry>, near: Seq<SpeedNearEntry>) -> Seq<Seq<char>> {
    seq!["⚡ **Speed** · correct answers · min. 3 samples"@, ""@] + (if board.len() == 0 {
        seq!["No one has 3 correct answers yet."@]
    } else {
        board.map(|i: int, e: SpeedEntry| speed_line(i, e))
    }) + (if near.len() == 0 {
        Seq::empty()
    } else {
        seq![""@, "Almost there:"@] + near.map_values(|e: SpeedNearEntry| near_line(e))
    })
}

/// The reply about the fastest players.
pub fn fastest_text(board: &Vec<SpeedEntry>, near: &Vec<SpeedNearEntry>) -> (r: String)
    requires
        forall|i: int|
            0 <= i < near.len() ==> i64::MIN <= 3 - (#[trigger] near@[i]).correct_count <= i64::MAX,
    ensures
        board.len() == 0 && near.len() == 0 ==> r@
            == "Not enough data yet · min. 3 correct answers per player."@,
        board.len() > 0 || near.len() > 0 ==> r@ == join(fastest_of(board@, near@), "\n"@),
{
    if board.len() == 0 && near.len() == 0 {
        return "Not enough data yet · min. 3 correct answers per player.".to_owned();
    }
    let mut lines: Vec<String> = Vec::new();
    lines.push("⚡ **Speed** · correct answers · min. 3 samples".to_owned());
    lines.push("".to_owned());
    let ghost top: Seq<Seq<char>> = seq![
        "⚡ **Speed** · correct answers · min. 3 samples"@,
        ""@,
    ];
    assert(texts(lines@) =~= top);
    if board.len() == 0 {
        lines.push("No one has 3 correct answers yet.".to_owned());
        assert(texts(lines@) =~= top + seq!["No one has 3 correct answers yet."@]);
    } else {
        let mut i: usize = 0;
        assert(texts(lines@) =~= top + board@.take(0).map(
            |k: int, e: SpeedEntry| speed_line(k, e),
        ));
        while i < board.len()
            invariant
                i <= board.len(),
                texts(lines@) == top + board@.take(i as int).map(
                    |k: int, e: SpeedEntry| speed_line(k, e),
                ),
            decreases board.len() - i,
        {
            let ghost before: Seq<String> = lines@;
            let mut line = mark(i).to_owned();
            line.append(" ");
            line.append(board[i].user_id.as_str());
            line.append(" · ");
            line.append(board[i].avg_secs.as_str());
            line.append("s avg · ");
            push_int(&mut line, board[i].sample_count);
            line.append(" correct");
            let ghost text: Seq<char> = line@;
            lines.push(line);
            proof {
                assert(text == speed_line(i as int, board@[i as int]));
                assert(texts(lines@) =~= texts(before).push(text));
                assert(board@.take(i + 1).map(|k: int, e: SpeedEntry| speed_line(k, e))
                    =~= board@.take(i as int).map(
                    |k: int, e: SpeedEntry| speed_line(k, e),
                ).push(text));
            }
            i = i + 1;
        }
        assert(board@.take(board.len() as int) =~= board@);
    }
    let ghost middle: Seq<Seq<char>> = texts(lines@);
    if near.len() > 0 {
        lines.push("".to_owned());
        lines.push("Almost there:".to_owned());
        let mut i: usize = 0;
        assert(texts(lines@) =~= middle + (seq![""@, "Almost there:"@] + near@.take(
            0,
        ).map_values(|e: SpeedNearEntry| near_line(e))));
        while i < near.len()
            invariant
                i <= near.len(),
                forall|k: int|
                    0 <= k < near.len() ==> i64::MIN <= 3 - (#[trigger] near@[k]).correct_count
                        <= i64::MAX,
                texts(lines@) == middle + (seq![""@, "Almost there:"@] + near@.take(
                    i as int,
                ).map_values(|e: SpeedNearEntry| near_line(e))),
            decreases near.len() - i,
        {
            let ghost before: Seq<String> = lines@;
            assert(i64::MIN <= 3 - near@[i as int].correct_count <= i64::MAX);
            let needed: i64 = 3 - near[i].correct_count;
            let mut line = "  ".to_owned();
            line.append(near[i].user_id.as_str());
            line.append(" · ");
            push_int(&mut line, needed);
            line.append(" more correct answer");
            line.append(if needed == 1 { "" } else { "s" });
            line.append(" needed");
            let ghost text: Seq<char> = line@;
            lines.push(line);
            proof {
                assert(text == near_line(near@[i as int]));
                assert(texts(lines@) =~= texts(before).push(text));
                assert(near@.take(i + 1).map_values(|e: SpeedNearEntry| near_line(e))
                    =~= near@.take(i as int).map_values(
                    |e: SpeedNearEntry| near_line(e),
                ).push(text));
            }
            i = i + 1;
        }
        assert(near@.take(near.len() as int) =~= near@);
    } else {
        assert(middle =~= middle + Seq::<Seq<char>>::empty());
    }
    join_texts(&lines, "\n")
}

/// The reply that lists all commands.
pub const HELP: &'static str = "🧠 **Quiz Bot**

!scores / !leaderboard · ranking
!mystats · your stats + rank
!gameinfo · schedule and format
!categories · category breakdown
!catconfig · active/excluded groups
!fastest · speed leaderboard
!help · this message

**Admin:**
!startquiz · start now
!schedulequiz HH:MM · schedule once
!schedulequiz · list pending
!cancelquiz HH:MM · cancel
!prefetch · pre-fetch questions
!resetstats confirm · wipe all history

Answer: 🇦 🇧 🇨 🇩 · or type !a !b !c !d
Change answer any time before the timer ends.";

/// The reply that lists all commands.
pub fn help_text() -> (r: String)
    ensures
        r@ == HELP@,
{
    HELP.to_owned()
}

// ── Laws ─────────────────────────────────────────────────────────────────────

/// Whoever is on the board has a line in the reply about the fastest players, at
/// their place, with their name, time and count; and whoever is almost there has
/// one too, whether or not anybody is on the board, with how many right answers
/// are missing to three.
pub proof fn law_everyone_is_listed_by_speed(
    board: Seq<SpeedEntry>,
    near: Seq<SpeedNearEntry>,
)
    ensures
        forall|i: int| #![trigger board[i]]
            0 <= i < board.len() ==> fastest_of(board, near)[2 + i] == rank_mark(i) + " "@
                + board[i].user_id@ + " · "@ + board[i].avg_secs@ + "s avg · "@ + signed(
                board[i].sample_count as int,
            ) + " correct"@,
        forall|i: int| #![trigger near[i]]
            0 <= i < near.len() ==> fastest_of(board, near).contains(
                "  "@ + near[i].user_id@ + " · "@ + signed(3 - near[i].correct_count)
                    + " more correct answer"@ + (if near[i].correct_count == 2 {
                    ""@
                } else {
                    "s"@
                }) + " needed"@,
            ),
{
    let all: Seq<Seq<char>> = fastest_of(board, near);
    let base: int = if board.len() == 0 {
        3
    } else {
        2 + board.len() as int
    };
    assert forall|i: int| #![trigger near[i]] 0 <= i < near.len() implies all.contains(
        "  "@ + near[i].user_id@ + " · "@ + signed(3 - near[i].correct_count)
            + " more correct answer"@ + (if near[i].correct_count == 2 {
            ""@
        } else {
            "s"@
        }) + " needed"@,
    ) by {
        assert(all[base + 2 + i] == near_line(near[i]));
    }
}

/// A duration names its hours, minutes and seconds. Those that are zero are left
/// out where nothing follows them; a duration of nothing is "0s".
pub proof fn law_durations_name_their_parts(h: nat, m: nat, s: nat)
    requires
        m < 60,
        s < 60,
    ensures
        ({
            let text: Seq<char> = duration_of(3600 * h + 60 * m + s);
            let hours: Seq<char> = decimal(h) + "h"@;
            let minutes: Seq<char> = decimal(m) + "m"@;
            let seconds: Seq<char> = decimal(s) + "s"@;
            &&& h > 0 && m == 0 && s == 0 ==> text == hours
            &&& h > 0 && m > 0 && s == 0 ==> text == hours + " "@ + minutes
            &&& h > 0 && s > 0 ==> text == hours + " "@ + minutes + " "@ + seconds
            &&& h == 0 && m > 0 && s == 0 ==> text == minutes
            &&& h == 0 && m > 0 && s > 0 ==> text == minutes + " "@ + seconds
            &&& h == 0 && m == 0 ==> text == seconds
        }),
{
    reveal_strlit("h");
    reveal_strlit("h ");
    reveal_strlit("m");
    reveal_strlit("m ");
    reveal_strlit(" ");
    let secs: nat = 3600 * h + 60 * m + s;
    assert(secs / 3600 == h);
    assert((secs % 3600) / 60 == m);
    assert(secs % 60 == s);
    let text: Seq<char> = duration_of(secs);
    let hours: Seq<char> = decimal(h) + "h"@;
    let minutes: Seq<char> = decimal(m) + "m"@;
    let seconds: Seq<char> = decimal(s) + "s"@;
    if h > 0 && m > 0 && s == 0 {
        assert(text =~= hours + " "@ + minutes);
    }
    if h > 0 && s > 0 {
        assert(text =~= hours + " "@ + minutes + " "@ + seconds);
    }
    if h == 0 && m > 0 && s > 0 {
        assert(text =~= minutes + " "@ + seconds);
    }
}

/// The first three places have marks of their own, and all others none.
pub proof fn law_marks_are_for_three_places(place: int, other: int)
    requires
        0 <= place < 3,
        0 <= other,
        place != other,
    ensures
        rank_mark(place) != rank_mark(other),
        rank_mark(place) == seq!["🥇"@, "🥈"@, "🥉"@][place],
        other >= 3 ==> rank_mark(other) == "  "@,
{
    reveal_strlit("🥇");
    reveal_strlit("🥈");
    reveal_strlit("🥉");
    reveal_strlit("  ");
    assert("🥇"@[0] == '🥇' && "🥈"@[0] == '🥈' && "🥉"@[0] == '🥉' && "  "@[0] == ' ');
}

/// Everyone on the leaderboard has a line at their place, with their name, their
/// right answers of all, the share in percent, and their rounds.
pub proof fn law_everyone_is_listed_by_score(
    board: Seq<LeaderboardEntry>,
    round_count: int,
) -> (lines: Seq<Seq<char>>)
    requires
        board.len() > 0,
    ensures
        scores_of(board, round_count) == join(lines, "\n"@),
        lines.len() == 2 + board.len(),
        lines[0] == "🏆 **Leaderboard** · "@ + signed(round_count) + " rounds"@,
        forall|i: int| #![trigger board[i]]
            0 <= i < board.len() ==> lines[2 + i] == rank_mark(i) + " "@ + board[i].user_id@
                + " · "@ + signed(board[i].total_correct as int) + "/"@ + signed(
                board[i].total_questions as int,
            ) + " · "@ + signed(
                percent(board[i].total_correct as int, board[i].total_questions as int),
            ) + "% · "@ + signed(board[i].rounds_played as int) + " rounds"@,
{
    seq!["🏆 **Leaderboard** · "@ + signed(round_count) + " rounds"@, ""@] + board.map(
        |i: int, e: LeaderboardEntry| score_line(i, e),
    )
}

/// The place of a user is where they first stand on the leaderboard.
pub proof fn law_place_is_where_the_user_stands(
    board: Seq<LeaderboardEntry>,
    user: Seq<char>,
    from: int,
)
    requires
        0 <= from,
    ensures
        match place_of(board, user, from) {
            Some(i) => from <= i < board.len() && board[i].user_id@ == user && forall|j: int|
                from <= j < i ==> (#[trigger] board[j]).user_id@ != user,
            None => forall|j: int|
                from <= j < board.len() ==> (#[trigger] board[j]).user_id@ != user,
        },
    decreases board.len() - from,
{
    if from < board.len() && board[from].user_id@ != user {
        law_place_is_where_the_user_stands(board, user, from + 1);
    }
}

/// A user's own results tell their right answers of all, the share, the rounds,
/// and their rank, counted from one, where they are on the leaderboard; then the
/// first and the last of their categories as the best and the worst, where there
/// are two.
pub proof fn law_own_results_tell_the_rank(
    stats: UserStatsRow,
    board: Seq<LeaderboardEntry>,
    user: Seq<char>,
    cats: Seq<UserCategoryStat>,
    i: int,
) -> (lines: Seq<Seq<char>>)
    requires
        0 <= i < board.len(),
        board[i].user_id@ == user,
        forall|j: int| 0 <= j < i ==> (#[trigger] board[j]).user_id@ != user,
    ensures
        mystats_of(stats, board, user, cats) == join(lines, "\n"@),
        lines[0] == "📊 **Stats** · "@ + signed(stats.total_correct as int) + "/"@ + signed(
            stats.total_questions as int,
        ) + " · "@ + signed(
            percent(stats.total_correct as int, stats.total_questions as int),
        ) + "% · "@ + signed(stats.rounds_played as int) + " rounds"@ + " · rank #"@ + decimal(
            (i + 1) as nat,
        ) + " of "@ + decimal(board.len()),
        cats.len() < 2 ==> lines.len() == 1,
        cats.len() >= 2 ==> lines.len() == 3 && lines[1] == "🏆 Best: "@ + cats[0].category@
            + " ("@ + signed(percent(cats[0].correct as int, cats[0].answered as int)) + "%)"@
            && lines[2] == "😬 Worst: "@ + cats[cats.len() - 1].category@ + " ("@ + signed(
            percent(cats[cats.len() - 1].correct as int, cats[cats.len() - 1].answered as int),
        ) + "%)"@,
{
    law_place_is_where_the_user_stands(board, user, 0);
    let place: int = place_of(board, user, 0)->0;
    assert(place == i) by {
        if place < i {
            assert(board[place].user_id@ == user);
        } else if place > i {
            assert(board[i].user_id@ != user);
        }
    }
    let plain: Seq<char> = "📊 **Stats** · "@ + signed(stats.total_correct as int) + "/"@ + signed(
        stats.total_questions as int,
    ) + " · "@ + signed(
        percent(stats.total_correct as int, stats.total_questions as int),
    ) + "% · "@ + signed(stats.rounds_played as int) + " rounds"@;
    let rank: Seq<char> = " · rank #"@ + decimal((i + 1) as nat) + " of "@ + decimal(board.len());
    assert(plain + rank =~= plain + " · rank #"@ + decimal((i + 1) as nat) + " of "@ + decimal(
        board.len(),
    ));
    seq![plain + rank] + category_lines(cats)
}

/// All questions are counted, of whatever category.
pub proof fn law_totals_add_up(a: Seq<CategoryStat>, b: Seq<CategoryStat>, s: CategoryStat)
    ensures
        total_asked(a + b) == total_asked(a) + total_asked(b),
        total_asked(seq![s]) == s.questions_asked,
    decreases b.len(),
{
    assert(seq![s].drop_last() =~= Seq::<CategoryStat>::empty());
    assert(total_asked(Seq::<CategoryStat>::empty()) == 0);
    if b.len() == 0 {
        assert(a + b =~= a);
    } else {
        assert((a + b).drop_last() =~= a + b.drop_last());
        law_totals_add_up(a, b.drop_last(), s);
    }
}

/// No category was asked more often than the one asked most, which is one of
/// them.
pub proof fn law_most_asked_is_the_most(stats: Seq<CategoryStat>, i: int)
    requires
        0 <= i < stats.len(),
    ensures
        stats[i].questions_asked <= most_asked(stats),
        exists|j: int|
            0 <= j < stats.len() && (#[trigger] stats[j]).questions_asked == most_asked(stats),
    decreases stats.len(),
{
    lemma_most_asked(stats, i);
    if stats.len() == 1 || stats.last().questions_asked >= most_asked(stats.drop_last()) {
        assert(stats[stats.len() - 1].questions_asked == most_asked(stats));
    } else {
        let head: Seq<CategoryStat> = stats.drop_last();
        law_most_asked_is_the_most(head, 0);
        let j: int = choose|j: int|
            0 <= j < head.len() && (#[trigger] head[j]).questions_asked == most_asked(head);
        assert(stats[j] == head[j]);
    }
}

/// Every category has a line: a bar in proportion to the category asked most,
/// how often it was asked, the share of right answers, and its name.
pub proof fn law_every_category_is_listed(stats: Seq<CategoryStat>) -> (lines: Seq<Seq<char>>)
    requires
        stats.len() > 0,
        fits_stats(stats),
    ensures
        categories_of(stats) == join(lines, "\n"@),
        lines.len() == 2 + stats.len(),
        lines[0] == "📊 **Categories** · "@ + signed(total_asked(stats)) + " Qs asked"@,
        forall|i: int| #![trigger stats[i]]
            0 <= i < stats.len() ==> {
                let filled: int = stats[i].questions_asked * 10 / most_asked(stats);
                &&& 0 <= filled <= 10
                &&& filled * most_asked(stats) <= stats[i].questions_asked * 10 < (filled + 1)
                    * most_asked(stats)
                &&& lines[2 + i] == repeat('█', filled as nat) + repeat('░', (10 - filled) as nat)
                    + "  "@ + pad_left(signed(stats[i].questions_asked as int), 2, ' ') + "q  "@
                    + pad_left(
                    signed(
                        percent(stats[i].correct_answers as int, stats[i].total_answers as int),
                    ),
                    3,
                    ' ',
                ) + "% ✓  "@ + stats[i].category@
            },
{
    let most: int = most_asked(stats);
    assert forall|i: int| #![trigger stats[i]] 0 <= i < stats.len() implies {
        let filled: int = stats[i].questions_asked * 10 / most;
        &&& 0 <= filled <= 10
        &&& filled * most <= stats[i].questions_asked * 10 < (filled + 1) * most
    } by {
        lemma_most_asked(stats, i);
        let asked: int = stats[i].questions_asked as int;
        assert(0 <= asked * 10 / most <= 10 && (asked * 10 / most) * most <= asked * 10 < (asked
            * 10 / most + 1) * most) by (nonlinear_arith)
            requires
                0 <= asked <= most,
                0 < most,
        ;
    }
    seq!["📊 **Categories** · "@ + signed(total_asked(stats)) + " Qs asked"@, ""@]
        + stats.map_values(|s: CategoryStat| stat_line(s, most))
}

/// Every group is listed: struck out where an exclusion names it, unless that
/// is so of all groups. The last line counts those that are active.
pub proof fn law_every_group_is_listed(excluded: Seq<Seq<char>>) -> (lines: Seq<Seq<char>>)
    ensures
        catconfig_of(excluded) == join(lines, "\n"@),
        lines.len() == group_table().len() + 4,
        forall|i: int| #![trigger group_table()[i]]
            0 <= i < group_table().len() ==> lines[2 + i] == (if is_excluded(
                group_table()[i].0,
                excluded,
            ) && kept_groups(excluded).len() > 0 {
                "✗ ~~"@ + group_table()[i].0 + "~~"@
            } else {
                "✓ "@ + group_table()[i].0
            }),
        excluded.len() > 0 && kept_groups(excluded).len() > 0 ==> lines.last() == decimal(
            kept_groups(excluded).len(),
        ) + "/"@ + decimal(12) + " active."@,
        excluded.len() > 0 && kept_groups(excluded).len() == 0 ==> lines.last()
            == "⚠️ All groups excluded · using all categories."@,
        excluded.len() == 0 ==> lines.last() == "All "@ + decimal(12) + "/"@ + decimal(12)
            + " active."@,
{
    let all_excluded: bool = kept_groups(excluded).len() == 0;
    let last: Seq<char> = if excluded.len() == 0 {
        "All "@ + decimal(group_table().len()) + "/"@ + decimal(group_table().len()) + " active."@
    } else if all_excluded {
        "⚠️ All groups excluded · using all categories."@
    } else {
        decimal(kept_groups(excluded).len()) + "/"@ + decimal(group_table().len()) + " active."@
    };
    assert(group_table().len() == 12);
    let lines: Seq<Seq<char>> = seq!["📚 **Categories**"@, ""@] + group_table().map_values(
        |g: (Seq<char>, Seq<u32>)|
            group_state_line(g.0, !all_excluded && is_excluded(g.0, excluded)),
    ) + seq![""@, last];
    lines
}

/// The reply about the game tells all times and the time zone, the reminder
/// where there is one, how many questions there are and how long each is open,
/// which categories are asked, and the difficulty where one is set.
pub proof fn law_game_info_tells_the_configuration(s: ScheduleConfig, t: TriviaConfig)
    ensures
        s.quiz_times.len() > 0 ==> gameinfo_of(s, t)[2] == "🕐 Daily at "@ + join(
            texts(s.quiz_times@),
            ", "@,
        ) + " · "@ + s.timezone@,
        s.quiz_times.len() == 0 ==> gameinfo_of(s, t)[2] == "🕐 Daily at not scheduled · "@
            + s.timezone@,
        s.reminder_before_secs > 0 ==> gameinfo_of(s, t)[3] == "⏰ Reminder "@ + duration_of(
            s.reminder_before_secs as nat,
        ) + " before"@,
        gameinfo_of(s, t).contains(
            "❓ "@ + decimal(s.questions_per_round as nat) + " questions · "@ + duration_of(
                s.answer_timeout_secs as nat,
            ) + " each"@,
        ),
        t.category is Some ==> gameinfo_of(s, t).contains(
            "🗂️ Fixed category (OpenTDB id "@ + decimal(t.category->0 as nat) + ")"@,
        ),
        t.category is None && t.excluded_categories.len() > 0 ==> gameinfo_of(s, t).contains(
            "🗂️ Random · excluding: "@ + join(texts(t.excluded_categories@), ", "@),
        ),
        t.category is None && t.excluded_categories.len() == 0 ==> gameinfo_of(s, t).contains(
            "🗂️ All categories · random"@,
        ),
        t.difficulty is Some ==> gameinfo_of(s, t).contains("🎯 Difficulty: "@ + t.difficulty->0@),
        gameinfo_of(s, t).len() == 8 + (if s.reminder_before_secs > 0 {
            1int
        } else {
            0
        }) + (if t.difficulty is Some {
            1int
        } else {
            0
        }),
{
    reveal_strlit("🕐 Daily at not scheduled · ");
    reveal_strlit("🕐 Daily at ");
    reveal_strlit("not scheduled");
    reveal_strlit(" · ");
    let lines: Seq<Seq<char>> = gameinfo_of(s, t);
    if s.quiz_times.len() == 0 {
        assert(lines[2] =~= "🕐 Daily at not scheduled · "@ + s.timezone@);
    }
    let k: int = if s.reminder_before_secs > 0 {
        4
    } else {
        3
    };
    assert(lines[k] == "❓ "@ + decimal(s.questions_per_round as nat) + " questions · "@
        + duration_of(s.answer_timeout_secs as nat) + " each"@);
    assert(lines.contains(lines[k]));
    assert(lines.contains(lines[k + 1]));
    if t.difficulty is Some {
        assert(lines[k + 2] == "🎯 Difficulty: "@ + t.difficulty->0@);
        assert(lines.contains(lines[k + 2]));
    }
}

} // verus!
