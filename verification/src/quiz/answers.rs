//! Answers to the question that is open, live and as the server knows them.

use vstd::prelude::*;

use crate::calendar::{utc_now, Timestamp};
use crate::names::NameMap;
use crate::text::{opt_str, same};

verus! {

/// An answer.
#[derive(Clone, Copy)]
pub struct AnswerRecord {
    pub choice: u8,
    /// "reaction", "text" or "reconciled".
    pub source: &'static str,
    pub submitted_at: Timestamp,
    pub changed_answer: bool,
}

/// What an `AnswerRecord` stands for.
#[verifier::ext_equal]
pub struct AnswerView {
    pub choice: u8,
    pub source: Seq<char>,
    pub submitted_at: Timestamp,
    pub changed_answer: bool,
}

impl View for AnswerRecord {
    type V = AnswerView;

    open spec fn view(&self) -> AnswerView {
        AnswerView {
            choice: self.choice,
            source: self.source@,
            submitted_at: self.submitted_at,
            changed_answer: self.changed_answer,
        }
    }
}

/// What a map of answers stands for.
pub open spec fn answer_views(m: Map<Seq<char>, AnswerRecord>) -> Map<Seq<char>, AnswerView> {
    m.map_values(|r: AnswerRecord| r@)
}

impl NameMap<AnswerRecord> {
    /// The answers by user.
    pub open spec fn answers(&self) -> Map<Seq<char>, AnswerView> {
        answer_views(self@)
    }
}

/// The question that is open.
pub struct ActiveQuiz {
    /// The message that asks it.
    pub event_id: String,
    /// The answer of each user.
    pub answers: NameMap<AnswerRecord>,
    pub correct_index: u8,
}

/// What came of an answer.
#[derive(Clone, Copy, Debug, PartialEq, Eq, Structural)]
pub enum AnswerOutcome {
    /// The user had not answered yet.
    New,
    /// The user had chosen something else.
    Replaced { previous: u8 },
    /// The user had chosen the same.
    Unchanged,
}

/// What comes of an answer, given the one that the user had.
pub open spec fn outcome_of(answers: Map<Seq<char>, AnswerView>, user: Seq<char>, choice: u8) ->
    AnswerOutcome {
    if !answers.dom().contains(user) {
        AnswerOutcome::New
    } else if answers[user].choice == choice {
        AnswerOutcome::Unchanged
    } else {
        AnswerOutcome::Replaced { previous: answers[user].choice }
    }
}

/// The answers once `user` has chosen `choice` at `now`. The same choice again
/// changes nothing. An answer counts as changed from the first other choice on.
pub open spec fn answered(
    answers: Map<Seq<char>, AnswerView>,
    user: Seq<char>,
    choice: u8,
    source: Seq<char>,
    now: Timestamp,
) -> Map<Seq<char>, AnswerView> {
    if outcome_of(answers, user, choice) == AnswerOutcome::Unchanged {
        answers
    } else {
        let changed: bool = answers.dom().contains(user);
        answers.insert(
            user,
            AnswerView { choice, source, submitted_at: now, changed_answer: changed },
        )
    }
}

impl ActiveQuiz {
    /// Records an answer given at `now`.
    pub fn record_answer_at(
        &mut self,
        user_id: String,
        choice: u8,
        source: &'static str,
        now: Timestamp,
    ) -> (r: AnswerOutcome)
        ensures
            r == outcome_of(old(self).answers.answers(), user_id@, choice),
            final(self).answers.answers() == answered(
                old(self).answers.answers(),
                user_id@,
                choice,
                source@,
                now,
            ),
            final(self).event_id == old(self).event_id,
            final(self).correct_index == old(self).correct_index,
    {
        let ghost before: Map<Seq<char>, AnswerView> = self.answers.answers();
        let ghost user: Seq<char> = user_id@;
        let (outcome, changed): (AnswerOutcome, bool) = match self.answers.get(user_id.as_str()) {
            None => (AnswerOutcome::New, false),
            Some(r) => {
                if r.choice == choice {
                    return AnswerOutcome::Unchanged;
                }
                (AnswerOutcome::Replaced { previous: r.choice }, true)
            },
        };
        self.answers.insert(
            user_id,
            AnswerRecord { choice, source, submitted_at: now, changed_answer: changed },
        );
        assert(self.answers.answers() =~= answered(before, user, choice, source@, now));
        outcome
    }

    /// Records an answer given now.
    pub fn record_answer(&mut self, user_id: String, choice: u8, source: &'static str) -> (r:
        AnswerOutcome)
        ensures
            r == outcome_of(old(self).answers.answers(), user_id@, choice),
            exists|now: Timestamp|
                final(self).answers.answers() == #[trigger] answered(
                    old(self).answers.answers(),
                    user_id@,
                    choice,
                    source@,
                    now,
                ),
            final(self).event_id == old(self).event_id,
            final(self).correct_index == old(self).correct_index,
    {
        let now = utc_now();
        self.record_answer_at(user_id, choice, source, now)
    }
}

/// What came of a reaction.
#[derive(Clone, Copy, Debug, PartialEq, Eq, Structural)]
pub enum ReactionResult {
    /// It answers the open question.
    Accepted(AnswerOutcome),
    /// It belongs to another message.
    WrongQuestion,
    /// No question is open.
    NoActiveQuestion,
}

/// Takes a reaction to the message `reacted_to`: it is an answer if that
/// message asks the open question.
pub fn apply_reaction(
    active_quiz: &mut Option<ActiveQuiz>,
    reacted_to: &str,
    sender: String,
    choice: u8,
) -> (r: ReactionResult)
    ensures
        *old(active_quiz) is None ==> r == ReactionResult::NoActiveQuestion && *final(active_quiz)
            is None,
        *old(active_quiz) is Some && old(active_quiz)->0.event_id@ != reacted_to@ ==> r
            == ReactionResult::WrongQuestion && *final(active_quiz) == *old(active_quiz),
        *old(active_quiz) is Some && old(active_quiz)->0.event_id@ == reacted_to@ ==> {
            &&& r == ReactionResult::Accepted(
                outcome_of(old(active_quiz)->0.answers.answers(), sender@, choice),
            )
            &&& *final(active_quiz) is Some
            &&& final(active_quiz)->0.event_id == old(active_quiz)->0.event_id
            &&& final(active_quiz)->0.correct_index == old(active_quiz)->0.correct_index
            &&& exists|now: Timestamp|
                final(active_quiz)->0.answers.answers() == #[trigger] answered(
                    old(active_quiz)->0.answers.answers(),
                    sender@,
                    choice,
                    "reaction"@,
                    now,
                )
        },
{
    match active_quiz {
        Some(quiz) => {
            if same(quiz.event_id.as_str(), reacted_to) {
                ReactionResult::Accepted(quiz.record_answer(sender, choice, "reaction"))
            } else {
                ReactionResult::WrongQuestion
            }
        },
        None => ReactionResult::NoActiveQuestion,
    }
}

// ── Laws of answers ──────────────────────────────────────────────────────────

/// The last answer of a user counts, and answers of others stay as they are.
pub proof fn law_last_answer_counts(
    answers: Map<Seq<char>, AnswerView>,
    user: Seq<char>,
    choice: u8,
    source: Seq<char>,
    now: Timestamp,
    other: Seq<char>,
)
    requires
        other != user,
    ensures
        answered(answers, user, choice, source, now)[user].choice == choice,
        answered(answers, user, choice, source, now).dom() == answers.dom().insert(user),
        answers.dom().contains(other) ==> answered(answers, user, choice, source, now)[other]
            == answers[other],
{
    assert(answered(answers, user, choice, source, now).dom() =~= answers.dom().insert(user));
}

/// Giving the same answer again, whenever and however, changes nothing.
pub proof fn law_same_answer_is_unchanged(
    answers: Map<Seq<char>, AnswerView>,
    user: Seq<char>,
    choice: u8,
    first_source: Seq<char>,
    first: Timestamp,
    second_source: Seq<char>,
    second: Timestamp,
)
    ensures
        ({
            let once: Map<Seq<char>, AnswerView> = answered(
                answers,
                user,
                choice,
                first_source,
                first,
            );
            &&& outcome_of(once, user, choice) == AnswerOutcome::Unchanged
            &&& answered(once, user, choice, second_source, second) == once
        }),
{
}

// ── Choices ──────────────────────────────────────────────────────────────────

/// The mark of a choice.
pub open spec fn emoji(choice: int) -> Option<Seq<char>> {
    if choice == 0 {
        Some("🇦"@)
    } else if choice == 1 {
        Some("🇧"@)
    } else if choice == 2 {
        Some("🇨"@)
    } else if choice == 3 {
        Some("🇩"@)
    } else {
        None
    }
}

/// The mark of a choice.
pub fn choice_emoji(choice: usize) -> (r: Option<&'static str>)
    ensures
        opt_str(r) == emoji(choice as int),
{
    if choice == 0 {
        Some("🇦")
    } else if choice == 1 {
        Some("🇧")
    } else if choice == 2 {
        Some("🇨")
    } else if choice == 3 {
        Some("🇩")
    } else {
        None
    }
}

/// The choice that a reaction stands for.
pub open spec fn choice_of_emoji(key: Seq<char>) -> Option<u8> {
    if key == "🇦"@ {
        Some(0)
    } else if key == "🇧"@ {
        Some(1)
    } else if key == "🇨"@ {
        Some(2)
    } else if key == "🇩"@ {
        Some(3)
    } else {
        None
    }
}

/// The choice that a reaction stands for.
pub fn emoji_choice(key: &str) -> (r: Option<u8>)
    ensures
        r == choice_of_emoji(key@),
{
    if same(key, "🇦") {
        Some(0)
    } else if same(key, "🇧") {
        Some(1)
    } else if same(key, "🇨") {
        Some(2)
    } else if same(key, "🇩") {
        Some(3)
    } else {
        None
    }
}

/// Every choice is read back from its mark.
pub proof fn law_emoji_reads_back(choice: u8)
    requires
        choice < 4,
    ensures
        emoji(choice as int) is Some,
        choice_of_emoji(emoji(choice as int)->0) == Some(choice),
{
    reveal_strlit("🇦");
    reveal_strlit("🇧");
    reveal_strlit("🇨");
    reveal_strlit("🇩");
    assert("🇦"@[0] == '🇦');
    assert("🇧"@[0] == '🇧');
    assert("🇨"@[0] == '🇨');
    assert("🇩"@[0] == '🇩');
}

// ── Reactions on the server ──────────────────────────────────────────────────

/// A message that relates to the question, as the server returned it.
pub enum RelatedEvent {
    /// It could not be decrypted.
    Undecryptable,
    /// It is no reaction, or one that was taken back.
    Other,
    /// A reaction.
    Reaction { sender: String, key: String },
}

/// What a `RelatedEvent` stands for.
pub enum RelatedView {
    Undecryptable,
    Other,
    Reaction { sender: Seq<char>, key: Seq<char> },
}

impl View for RelatedEvent {
    type V = RelatedView;

    open spec fn view(&self) -> RelatedView {
        match self {
            RelatedEvent::Undecryptable => RelatedView::Undecryptable,
            RelatedEvent::Other => RelatedView::Other,
            RelatedEvent::Reaction { sender, key } => RelatedView::Reaction {
                sender: sender@,
                key: key@,
            },
        }
    }
}

/// What a list of related messages stands for.
pub open spec fn related_views(v: Seq<RelatedEvent>) -> Seq<RelatedView> {
    v.map_values(|e: RelatedEvent| e@)
}

/// Whether a message is an answer of someone other than the bot.
pub open spec fn is_vote(e: RelatedView, own_id: Option<Seq<char>>) -> bool {
    match e {
        RelatedView::Reaction { sender, key } => own_id != Some(sender) && choice_of_emoji(key)
            is Some,
        _ => false,
    }
}

/// The answers in a list of messages, newest first: the first of each sender
/// counts.
pub open spec fn server_votes(
    start: Map<Seq<char>, u8>,
    events: Seq<RelatedView>,
    own_id: Option<Seq<char>>,
) -> Map<Seq<char>, u8>
    decreases events.len(),
{
    if events.len() == 0 {
        start
    } else {
        let before: Map<Seq<char>, u8> = server_votes(start, events.drop_last(), own_id);
        match events.last() {
            RelatedView::Reaction { sender, key } => if is_vote(events.last(), own_id)
                && !before.dom().contains(sender) {
                before.insert(sender, choice_of_emoji(key)->0)
            } else {
                before
            },
            _ => before,
        }
    }
}

/// How many messages could not be decrypted.
pub open spec fn undecryptable_count(events: Seq<RelatedView>) -> nat
    decreases events.len(),
{
    if events.len() == 0 {
        0
    } else {
        undecryptable_count(events.drop_last()) + (if events.last() is Undecryptable {
            1nat
        } else {
            0
        })
    }
}

/// Takes a page of related messages, newest first, into the votes gathered so
/// far. Returns how many could not be decrypted.
pub fn collect_votes(
    votes: &mut NameMap<u8>,
    events: &Vec<RelatedEvent>,
    own_id: Option<&str>,
) -> (r: usize)
    ensures
        final(votes)@ == server_votes(
            old(votes)@,
            related_views(events@),
            opt_str(own_id),
        ),
        r == undecryptable_count(related_views(events@)),
{
    let ghost own: Option<Seq<char>> = opt_str(own_id);
    let ghost all: Seq<RelatedView> = related_views(events@);
    let mut undecryptable: usize = 0;
    let mut i: usize = 0;
    while i < events.len()
        invariant
            i <= events.len(),
            own == opt_str(own_id),
            all == related_views(events@),
            votes@ == server_votes(old(votes)@, all.take(i as int), own),
            undecryptable == undecryptable_count(all.take(i as int)),
            undecryptable <= i,
        decreases events.len() - i,
    {
        proof {
            assert(all.take(i + 1).drop_last() =~= all.take(i as int));
            assert(all.take(i + 1).last() == events@[i as int]@);
        }
        match &events[i] {
            RelatedEvent::Undecryptable => {
                undecryptable = undecryptable + 1;
            },
            RelatedEvent::Other => {},
            RelatedEvent::Reaction { sender, key } => {
                let is_own: bool = match own_id {
                    Some(id) => same(id, sender.as_str()),
                    None => false,
                };
                if !is_own {
                    match emoji_choice(key.as_str()) {
                        Some(choice) => {
                            if !votes.contains_key(sender.as_str()) {
                                votes.insert(sender.clone(), choice);
                            }
                        },
                        None => {},
                    }
                }
            },
        }
        i = i + 1;
    }
    assert(all.take(events.len() as int) =~= all);
    undecryptable
}

// ── Laws of choices and votes ────────────────────────────────────────────────

/// The marks are the letters from A on: the mark of a choice is that many
/// letters after the first, and nothing but the four marks stands for a choice.
pub proof fn law_marks_are_letters_in_order(choice: u8, key: Seq<char>)
    requires
        choice < 4,
    ensures
        emoji(choice as int) == Some(seq![(0x1F1E6 + choice) as char]),
        choice_of_emoji(seq![(0x1F1E6 + choice) as char]) == Some(choice),
        choice_of_emoji(key) is Some ==> key.len() == 1 && key[0] as int == 0x1F1E6
            + choice_of_emoji(key)->0 < 0x1F1EA,
{
    reveal_strlit("🇦");
    reveal_strlit("🇧");
    reveal_strlit("🇨");
    reveal_strlit("🇩");
    assert("🇦"@ =~= seq!['🇦']);
    assert("🇧"@ =~= seq!['🇧']);
    assert("🇨"@ =~= seq!['🇨']);
    assert("🇩"@ =~= seq!['🇩']);
    assert('🇦' as int == 0x1F1E6 && '🇧' as int == 0x1F1E7 && '🇨' as int == 0x1F1E8 && '🇩' as int
        == 0x1F1E9);
    law_emoji_reads_back(choice);
}

/// An answer counts as changed exactly where the user had chosen something else
/// before, keeps how and when it was given, and is told apart by what came of
/// it.
pub proof fn law_changed_answers_are_marked(
    answers: Map<Seq<char>, AnswerView>,
    user: Seq<char>,
    choice: u8,
    source: Seq<char>,
    now: Timestamp,
)
    ensures
        ({
            let after: AnswerView = answered(answers, user, choice, source, now)[user];
            let had: bool = answers.dom().contains(user);
            &&& !had ==> outcome_of(answers, user, choice) == AnswerOutcome::New
                && !after.changed_answer && after.source == source && after.submitted_at == now
            &&& had && answers[user].choice != choice ==> outcome_of(answers, user, choice) == (
            AnswerOutcome::Replaced { previous: answers[user].choice }) && after.changed_answer
                && after.source == source && after.submitted_at == now
            &&& had && answers[user].choice == choice ==> outcome_of(answers, user, choice)
                == AnswerOutcome::Unchanged && after == answers[user]
        }),
{
}

/// Whoever has a vote reacted with a mark, and is not the bot; votes that were
/// there before stay.
pub proof fn law_votes_come_from_reactions(
    start: Map<Seq<char>, u8>,
    events: Seq<RelatedView>,
    own_id: Option<Seq<char>>,
    user: Seq<char>,
)
    requires
        server_votes(start, events, own_id).dom().contains(user),
    ensures
        start.dom().contains(user) ==> server_votes(start, events, own_id)[user] == start[user],
        !start.dom().contains(user) ==> own_id != Some(user) && exists|i: int|
            0 <= i < events.len() && (#[trigger] events[i]) is Reaction && events[i]->sender == user
                && choice_of_emoji(events[i]->key) == Some(
                server_votes(start, events, own_id)[user],
            ),
    decreases events.len(),
{
    if events.len() > 0 {
        let head: Seq<RelatedView> = events.drop_last();
        let before: Map<Seq<char>, u8> = server_votes(start, head, own_id);
        if before.dom().contains(user) {
            law_votes_come_from_reactions(start, head, own_id, user);
            assert(server_votes(start, events, own_id)[user] == before[user]);
            if !start.dom().contains(user) {
                let i: int = choose|i: int|
                    0 <= i < head.len() && (#[trigger] head[i]) is Reaction && head[i]->sender
                        == user && choice_of_emoji(head[i]->key) == Some(before[user]);
                assert(events[i] == head[i]);
            }
        } else {
            assert(events[events.len() - 1] is Reaction);
            lemma_start_stays(start, head, own_id, user);
        }
    }
}

proof fn lemma_start_stays(
    start: Map<Seq<char>, u8>,
    events: Seq<RelatedView>,
    own_id: Option<Seq<char>>,
    user: Seq<char>,
)
    ensures
        start.dom().contains(user) ==> server_votes(start, events, own_id).dom().contains(user),
    decreases events.len(),
{
    if events.len() > 0 {
        lemma_start_stays(start, events.drop_last(), own_id, user);
    }
}

/// Every message that could not be decrypted is counted, and nothing else.
pub proof fn law_undecryptable_messages_are_counted(events: Seq<RelatedView>)
    ensures
        undecryptable_count(events) == events.filter(
            |e: RelatedView| e is Undecryptable,
        ).len(),
    decreases events.len(),
{
    reveal(Seq::filter);
    if events.len() > 0 {
        law_undecryptable_messages_are_counted(events.drop_last());
    }
}

} // verus!
