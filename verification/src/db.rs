//! Rows of the database, and the order of the leaderboard.

use vstd::prelude::*;

use crate::order::{
    is_ranked, lemma_text_less_irreflexive, lemma_text_less_total, lemma_text_less_transitive, less,
    sort_ranked, text_less, Ranked,
};

verus! {

/// A player's results over all rounds.
pub struct LeaderboardEntry {
    pub user_id: String,
    pub total_correct: i64,
    pub total_questions: i64,
    pub rounds_played: i64,
    /// Stands for the Wilson score: the higher the score, the higher the key.
    pub wilson_key: i64,
    /// The Wilson score in percent, as it is shown.
    pub wilson_percent: String,
}

/// A player's results in a month.
pub struct MonthlyLeaderboardEntry {
    pub user_id: String,
    pub display_name: Option<String>,
    pub total_correct: i64,
    pub total_questions: i64,
    pub rounds_played: i64,
    /// The Wilson score in percent, as it is shown.
    pub wilson_percent: String,
}

/// A player's own results.
#[derive(Clone, Copy, Debug, PartialEq, Eq, Structural)]
pub struct UserStatsRow {
    pub total_correct: i64,
    pub total_questions: i64,
    pub rounds_played: i64,
}

/// How often a category was asked, and how it went.
pub struct CategoryStat {
    pub category: String,
    pub questions_asked: i64,
    pub total_answers: i64,
    pub correct_answers: i64,
}

/// How fast a player is.
pub struct SpeedEntry {
    pub user_id: String,
    /// The average in seconds, as it is shown.
    pub avg_secs: String,
    pub sample_count: i64,
}

/// A player with too few right answers to be ranked by speed.
pub struct SpeedNearEntry {
    pub user_id: String,
    pub correct_count: i64,
}

/// How a player did in a category.
pub struct UserCategoryStat {
    pub category: String,
    pub answered: i64,
    pub correct: i64,
}

/// What is stored of a round when it starts.
pub struct RoundParams<'a> {
    pub room_id: &'a str,
    pub n_questions_planned: i32,
    pub triggered_by: &'a str,
    pub config_answer_timeout: i32,
    pub config_questions_per_round: i32,
    pub config_timezone: &'a str,
    pub config_category_id: Option<i32>,
    pub config_difficulty: Option<&'a str>,
}

/// What is stored of a question when it is asked.
pub struct QuestionParams<'a> {
    pub round_id: i64,
    pub question_num: i32,
    pub matrix_event_id: Option<&'a str>,
    pub category: &'a str,
    pub category_group: &'a str,
    pub difficulty: &'a str,
    pub question_text: &'a str,
    pub choices: &'a [String],
    pub correct_index: i16,
    pub correct_answer_text: &'a str,
    pub answer_timeout_secs: i32,
}

/// A player's results as summed up by the database. Who has been asked nothing
/// has none.
pub fn user_stats_of(total_correct: i64, total_questions: i64, rounds_played: i64) -> (r: Option<
    UserStatsRow,
>)
    ensures
        total_questions == 0 ==> r is None,
        total_questions != 0 ==> r == Some(
            UserStatsRow { total_correct, total_questions, rounds_played },
        ),
{
    if total_questions == 0 {
        None
    } else {
        Some(UserStatsRow { total_correct, total_questions, rounds_played })
    }
}

// ── Order ────────────────────────────────────────────────────────────────────

/// Whether `a` stands above `b` on the leaderboard: the higher score, then
/// more questions, then the name.
pub open spec fn outranks(a: LeaderboardEntry, b: LeaderboardEntry) -> bool {
    ||| a.wilson_key > b.wilson_key
    ||| a.wilson_key == b.wilson_key && a.total_questions > b.total_questions
    ||| a.wilson_key == b.wilson_key && a.total_questions == b.total_questions && text_less(
        a.user_id@,
        b.user_id@,
    )
}

impl Ranked for LeaderboardEntry {
    open spec fn goes_before(self, other: LeaderboardEntry) -> bool {
        outranks(self, other)
    }

    proof fn before_asymmetric(a: LeaderboardEntry, b: LeaderboardEntry) {
        if text_less(a.user_id@, b.user_id@) && text_less(b.user_id@, a.user_id@) {
            lemma_text_less_transitive(a.user_id@, b.user_id@, a.user_id@);
            lemma_text_less_irreflexive(a.user_id@);
        }
    }

    proof fn before_splits(a: LeaderboardEntry, b: LeaderboardEntry, c: LeaderboardEntry) {
        lemma_text_less_total(a.user_id@, c.user_id@);
        if text_less(a.user_id@, b.user_id@) && text_less(c.user_id@, a.user_id@) {
            lemma_text_less_transitive(c.user_id@, a.user_id@, b.user_id@);
        }
    }

    fn before(&self, other: &LeaderboardEntry) -> (r: bool) {
        if self.wilson_key != other.wilson_key {
            self.wilson_key > other.wilson_key
        } else if self.total_questions != other.total_questions {
            self.total_questions > other.total_questions
        } else {
            less(self.user_id.as_str(), other.user_id.as_str())
        }
    }
}

/// Sorts the leaderboard: the same entries, and none stands below one that it
/// outranks.
pub fn rank_entries(entries: Vec<LeaderboardEntry>) -> (r: Vec<LeaderboardEntry>)
    ensures
        r@.to_multiset() == entries@.to_multiset(),
        is_ranked(r@),
{
    sort_ranked(entries)
}

/// On a sorted leaderboard of different players, everyone outranks everyone
/// below.
pub proof fn law_leaderboard_is_strictly_ordered(board: Seq<LeaderboardEntry>, i: int, j: int)
    requires
        is_ranked(board),
        0 <= i < j < board.len(),
        board[i].user_id@ != board[j].user_id@,
    ensures
        outranks(board[i], board[j]),
{
    assert(!board[j].goes_before(board[i]));
    lemma_text_less_total(board[i].user_id@, board[j].user_id@);
}

/// On a sorted leaderboard the higher score comes first; of equal scores the one
/// with more questions; and of these the name that comes first.
pub proof fn law_leaderboard_order(board: Seq<LeaderboardEntry>, i: int, j: int)
    requires
        is_ranked(board),
        0 <= i < j < board.len(),
    ensures
        board[i].wilson_key >= board[j].wilson_key,
        board[i].wilson_key == board[j].wilson_key ==> board[i].total_questions
            >= board[j].total_questions,
        board[i].wilson_key == board[j].wilson_key && board[i].total_questions
            == board[j].total_questions ==> !text_less(board[j].user_id@, board[i].user_id@),
{
    assert(!board[j].goes_before(board[i]));
}

} // verus!
