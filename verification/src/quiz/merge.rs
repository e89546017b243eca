//! Bringing live answers in line with the reactions that the server knows.

use vstd::prelude::*;

use crate::calendar::Timestamp;
use crate::names::NameMap;
use crate::quiz::answers::{AnswerRecord, AnswerView};
use crate::text::{same, texts};

verus! {

/// What bringing answers in line with the server changed.
pub struct ReconciliationSummary {
    /// Users whose answer only the server had.
    pub added: Vec<String>,
    /// Users whose answer the server knew better.
    pub corrected: Vec<String>,
    /// Users who took their reaction back.
    pub removed: Vec<String>,
}

impl ReconciliationSummary {
    /// Whether nothing changed.
    pub fn is_empty(&self) -> (r: bool)
        ensures
            r == (self.added.len() == 0 && self.corrected.len() == 0 && self.removed.len() == 0),
    {
        self.added.len() == 0 && self.corrected.len() == 0 && self.removed.len() == 0
    }
}

/// Whether an answer was typed.
pub open spec fn is_typed(r: AnswerView) -> bool {
    r.source == "text"@
}

/// An answer, given the choice that the server knows: typed answers stay, and
/// so do those that agree.
pub open spec fn settled(r: AnswerView, choice: u8) -> AnswerView {
    if is_typed(r) || r.choice == choice {
        r
    } else {
        AnswerView { choice, source: "reconciled"@, changed_answer: true, ..r }
    }
}

/// An answer that only the server had.
pub open spec fn taken_over(choice: u8, now: Timestamp) -> AnswerView {
    AnswerView { choice, source: "reconciled"@, submitted_at: now, changed_answer: false }
}

/// The answers once the server has had its say. Its reactions are decisive,
/// but for typed answers, which it does not know.
pub open spec fn merged(
    answers: Map<Seq<char>, AnswerView>,
    server: Map<Seq<char>, u8>,
    now: Timestamp,
) -> Map<Seq<char>, AnswerView> {
    Map::new(
        |k: Seq<char>| server.dom().contains(k) || (answers.dom().contains(k) && is_typed(
            answers[k],
        )),
        |k: Seq<char>|
            if !answers.dom().contains(k) {
                taken_over(server[k], now)
            } else if server.dom().contains(k) {
                settled(answers[k], server[k])
            } else {
                answers[k]
            },
    )
}

/// Whether a user's reaction is gone from the server.
pub open spec fn is_removed(
    answers: Map<Seq<char>, AnswerView>,
    server: Map<Seq<char>, u8>,
    k: Seq<char>,
) -> bool {
    answers.dom().contains(k) && !is_typed(answers[k]) && !server.dom().contains(k)
}

/// Whether the server knows another choice of the user.
pub open spec fn is_corrected(
    answers: Map<Seq<char>, AnswerView>,
    server: Map<Seq<char>, u8>,
    k: Seq<char>,
) -> bool {
    answers.dom().contains(k) && !is_typed(answers[k]) && server.dom().contains(k)
        && answers[k].choice != server[k]
}

/// Whether only the server has an answer of the user.
pub open spec fn is_added(
    answers: Map<Seq<char>, AnswerView>,
    server: Map<Seq<char>, u8>,
    k: Seq<char>,
) -> bool {
    !answers.dom().contains(k) && server.dom().contains(k)
}

proof fn lemma_filter_push(s: Seq<Seq<char>>, i: int, p: spec_fn(Seq<char>) -> bool)
    requires
        0 <= i < s.len(),
    ensures
        s.take(i + 1).filter(p) == (if p(s[i]) {
            s.take(i).filter(p).push(s[i])
        } else {
            s.take(i).filter(p)
        }),
{
    reveal(Seq::filter);
    assert(s.take(i + 1).drop_last() =~= s.take(i));
    assert(s.take(i + 1).last() == s[i]);
}

proof fn lemma_take_contains(s: Seq<Seq<char>>, i: int, k: Seq<char>)
    requires
        0 <= i < s.len(),
    ensures
        s.take(i + 1).contains(k) <==> s.take(i).contains(k) || k == s[i],
{
    assert(s.take(i + 1) =~= s.take(i).push(s[i]));
    if s.take(i).contains(k) {
        let j: int = s.take(i).index_of(k);
        assert(s.take(i + 1)[j] == k);
    }
    assert(s.take(i + 1)[i] == s[i]);
}

/// Leaves out the answers whose reaction is gone from the server. Returns whose
/// they are.
fn drop_removed(answers: &mut NameMap<AnswerRecord>, server: &NameMap<u8>) -> (r: Vec<String>)
    ensures
        texts(r@) == old(answers).keys().filter(
            |k: Seq<char>| is_removed(old(answers).answers(), server@, k),
        ),
        forall|k: Seq<char>| #[trigger]
            final(answers)@.dom().contains(k) <==> old(answers)@.dom().contains(k) && !is_removed(
                old(answers).answers(),
                server@,
                k,
            ),
        forall|k: Seq<char>|
            final(answers)@.dom().contains(k) ==> #[trigger] final(answers)@[k] == old(
                answers,
            )@[k],
{
    let ghost before: Map<Seq<char>, AnswerView> = answers.answers();
    let ghost known: Map<Seq<char>, u8> = server@;
    let ghost keys: Seq<Seq<char>> = answers.keys();
    let ghost gone = |k: Seq<char>| is_removed(before, known, k);
    let mut kept: NameMap<AnswerRecord> = NameMap::new();
    let mut removed: Vec<String> = Vec::new();
    let n: usize = answers.len();
    let mut i: usize = 0;
    proof {
        assert(keys.take(0).filter(gone) =~= Seq::<Seq<char>>::empty()) by {
            reveal(Seq::filter);
        }
    }
    while i < n
        invariant
            i <= n,
            n == keys.len(),
            keys == answers.keys(),
            before == answers.answers(),
            known == server@,
            *answers == *old(answers),
            answers.listed(),
            gone == (|k: Seq<char>| is_removed(before, known, k)),
            texts(removed@) == keys.take(i as int).filter(gone),
            forall|k: Seq<char>| #[trigger]
                kept@.dom().contains(k) <==> keys.take(i as int).contains(k) && !is_removed(
                    before,
                    known,
                    k,
                ),
            forall|k: Seq<char>|
                kept@.dom().contains(k) ==> #[trigger] kept@[k] == answers@[k],
        decreases n - i,
    {
        let key: &String = answers.key_at(i);
        let record: AnswerRecord = *answers.value_at(i);
        proof {
            lemma_filter_push(keys, i as int, gone);
            assert forall|k: Seq<char>|
                keys.take(i + 1).contains(k) <==> keys.take(i as int).contains(k) || k
                    == keys[i as int] by {
                lemma_take_contains(keys, i as int, k);
            }
            assert(before[key@] == record@);
        }
        if same(record.source, "text") || server.contains_key(key.as_str()) {
            kept.insert(key.clone(), record);
        } else {
            let ghost names: Seq<String> = removed@;
            removed.push(key.clone());
            assert(texts(removed@) =~= texts(names).push(key@));
        }
        i = i + 1;
    }
    proof {
        assert(keys.take(n as int) =~= keys);
        assert forall|k: Seq<char>| #[trigger] kept@.dom().contains(k) <==> answers@.dom().contains(
            k,
        ) && !is_removed(before, known, k) by {
            assert(answers@.dom().contains(k) <==> keys.contains(k));
        }
    }
    *answers = kept;
    removed
}

/// Brings live answers in line with the reactions that the server knows, see
/// `merged`.
pub fn merge_reconciled_answers(
    answers: &mut NameMap<AnswerRecord>,
    server_answers: &NameMap<u8>,
    now: Timestamp,
) -> (r: ReconciliationSummary)
    ensures
        final(answers).answers() == merged(old(answers).answers(), server_answers@, now),
        texts(r.removed@) == old(answers).keys().filter(
            |k: Seq<char>| is_removed(old(answers).answers(), server_answers@, k),
        ),
        texts(r.added@) == server_answers.keys().filter(
            |k: Seq<char>| is_added(old(answers).answers(), server_answers@, k),
        ),
        texts(r.corrected@) == server_answers.keys().filter(
            |k: Seq<char>| is_corrected(old(answers).answers(), server_answers@, k),
        ),
{
    let ghost before: Map<Seq<char>, AnswerView> = answers.answers();
    let ghost server: Map<Seq<char>, u8> = server_answers@;
    let ghost keys: Seq<Seq<char>> = server_answers.keys();
    let ghost target: Map<Seq<char>, AnswerView> = merged(before, server, now);
    let ghost adds = |k: Seq<char>| is_added(before, server, k);
    let ghost corrects = |k: Seq<char>| is_corrected(before, server, k);
    let removed = drop_removed(answers, server_answers);
    let mut added: Vec<String> = Vec::new();
    let mut corrected: Vec<String> = Vec::new();
    let n: usize = server_answers.len();
    let mut i: usize = 0;
    proof {
        assert(keys.take(0).filter(adds) =~= Seq::<Seq<char>>::empty()) by {
            reveal(Seq::filter);
        }
        assert(keys.take(0).filter(corrects) =~= Seq::<Seq<char>>::empty()) by {
            reveal(Seq::filter);
        }
        assert forall|k: Seq<char>| answers@.dom().contains(k) implies answers.answers()[k]
            == before[k] by {
            assert(answers@[k] == old(answers)@[k]);
        }
    }
    while i < n
        invariant
            i <= n,
            n == keys.len(),
            keys == server_answers.keys(),
            server == server_answers@,
            server_answers.listed(),
            target == merged(before, server, now),
            adds == (|k: Seq<char>| is_added(before, server, k)),
            corrects == (|k: Seq<char>| is_corrected(before, server, k)),
            texts(added@) == keys.take(i as int).filter(adds),
            texts(corrected@) == keys.take(i as int).filter(corrects),
            forall|k: Seq<char>| #[trigger]
                answers@.dom().contains(k) <==> keys.take(i as int).contains(k)
                    || before.dom().contains(k) && !is_removed(before, server, k),
            forall|k: Seq<char>|
                #![trigger answers.answers()[k]]
                answers@.dom().contains(k) ==> answers.answers()[k] == (if keys.take(
                    i as int,
                ).contains(k) {
                    target[k]
                } else {
                    before[k]
                }),
        decreases n - i,
    {
        let key: &String = server_answers.key_at(i);
        let choice: u8 = *server_answers.value_at(i);
        let ghost was: Map<Seq<char>, AnswerView> = answers.answers();
        let ghost dom: Set<Seq<char>> = answers@.dom();
        proof {
            lemma_filter_push(keys, i as int, adds);
            lemma_filter_push(keys, i as int, corrects);
            assert forall|k: Seq<char>|
                keys.take(i + 1).contains(k) <==> keys.take(i as int).contains(k) || k
                    == keys[i as int] by {
                lemma_take_contains(keys, i as int, k);
            }
            assert(!keys.take(i as int).contains(key@)) by {
                if keys.take(i as int).contains(key@) {
                    let j: int = keys.take(i as int).index_of(key@);
                    assert(keys[j] == keys[i as int]);
                }
            }
            assert(dom.contains(key@) <==> before.dom().contains(key@));
            assert(dom.contains(key@) ==> was[key@] == before[key@]);
        }
        let next: Option<AnswerRecord> = match answers.get(key.as_str()) {
            Some(r) => {
                if !same(r.source, "text") && r.choice != choice {
                    Some(
                        AnswerRecord {
                            choice,
                            source: "reconciled",
                            submitted_at: r.submitted_at,
                            changed_answer: true,
                        },
                    )
                } else {
                    None
                }
            },
            None => Some(
                AnswerRecord {
                    choice,
                    source: "reconciled",
                    submitted_at: now,
                    changed_answer: false,
                },
            ),
        };
        let is_new: bool = !answers.contains_key(key.as_str());
        match next {
            Some(record) => {
                if is_new {
                    let ghost names: Seq<String> = added@;
                    added.push(key.clone());
                    assert(texts(added@) =~= texts(names).push(key@));
                } else {
                    let ghost names: Seq<String> = corrected@;
                    corrected.push(key.clone());
                    assert(texts(corrected@) =~= texts(names).push(key@));
                }
                answers.insert(key.clone(), record);
            },
            None => {},
        }
        proof {
            assert(answers.answers()[key@] == target[key@]);
            assert forall|k: Seq<char>|
                #![trigger answers.answers()[k]]
                answers@.dom().contains(k) implies answers.answers()[k] == (if keys.take(
                    i + 1,
                ).contains(k) {
                target[k]
            } else {
                before[k]
            }) by {
                if k != key@ {
                    assert(dom.contains(k));
                    assert(answers.answers()[k] == was[k]);
                }
            }
        }
        i = i + 1;
    }
    proof {
        assert(keys.take(n as int) =~= keys);
        assert forall|k: Seq<char>| answers.answers().dom().contains(k) <==> target.dom().contains(
            k,
        ) by {
            assert(answers@.dom().contains(k) <==> keys.contains(k) || before.dom().contains(k)
                && !is_removed(before, server, k));
            assert(server.dom().contains(k) <==> keys.contains(k));
        }
        assert forall|k: Seq<char>| answers.answers().dom().contains(k) implies
            answers.answers()[k] == target[k] by {
            assert(answers@.dom().contains(k));
            assert(server.dom().contains(k) <==> keys.contains(k));
        }
        assert(answers.answers() =~= target);
    }
    ReconciliationSummary { added, corrected, removed }
}

// ── Laws ─────────────────────────────────────────────────────────────────────

/// Typed answers are never dropped or changed.
pub proof fn law_typed_answers_stay(
    answers: Map<Seq<char>, AnswerView>,
    server: Map<Seq<char>, u8>,
    now: Timestamp,
    user: Seq<char>,
)
    requires
        answers.dom().contains(user),
        answers[user].source == "text"@,
    ensures
        merged(answers, server, now).dom().contains(user),
        merged(answers, server, now)[user] == answers[user],
{
}

/// An answer that the server agrees with stays untouched.
pub proof fn law_agreed_answers_stay(
    answers: Map<Seq<char>, AnswerView>,
    server: Map<Seq<char>, u8>,
    now: Timestamp,
    user: Seq<char>,
)
    requires
        answers.dom().contains(user),
        server.dom().contains(user),
        answers[user].choice == server[user],
    ensures
        merged(answers, server, now).dom().contains(user),
        merged(answers, server, now)[user] == answers[user],
{
}

/// A reaction that is gone from the server no longer counts.
pub proof fn law_withdrawn_reactions_do_not_count(
    answers: Map<Seq<char>, AnswerView>,
    server: Map<Seq<char>, u8>,
    now: Timestamp,
    user: Seq<char>,
)
    requires
        !server.dom().contains(user),
        answers.dom().contains(user) ==> answers[user].source != "text"@,
    ensures
        !merged(answers, server, now).dom().contains(user),
{
}

/// Whoever reacted on the server has an answer, and but for a typed one it is
/// that of the server.
pub proof fn law_server_reactions_count(
    answers: Map<Seq<char>, AnswerView>,
    server: Map<Seq<char>, u8>,
    now: Timestamp,
    user: Seq<char>,
)
    requires
        server.dom().contains(user),
    ensures
        merged(answers, server, now).dom().contains(user),
        merged(answers, server, now)[user].choice == server[user] || answers.dom().contains(user)
            && answers[user].source == "text"@ && merged(answers, server, now)[user] == answers[user],
{
}

/// Bringing answers in line a second time changes nothing.
pub proof fn law_merging_twice_changes_nothing(
    answers: Map<Seq<char>, AnswerView>,
    server: Map<Seq<char>, u8>,
    now: Timestamp,
    later: Timestamp,
)
    ensures
        merged(merged(answers, server, now), server, later) == merged(answers, server, now),
        forall|k: Seq<char>|
            !#[trigger] is_removed(merged(answers, server, now), server, k),
        forall|k: Seq<char>| !#[trigger] is_added(merged(answers, server, now), server, k),
        forall|k: Seq<char>|
            !#[trigger] is_corrected(merged(answers, server, now), server, k),
{
    let once: Map<Seq<char>, AnswerView> = merged(answers, server, now);
    let twice: Map<Seq<char>, AnswerView> = merged(once, server, later);
    assert forall|k: Seq<char>| once.dom().contains(k) implies #[trigger] twice[k] == once[k] by {}
    assert(twice.dom() =~= once.dom());
    assert(twice =~= once);
}

/// The summary tells what changed: who is listed as removed, added or corrected
/// is whose answer is gone, new, or another one.
pub proof fn law_summary_tells_what_changed(
    answers: Map<Seq<char>, AnswerView>,
    server: Map<Seq<char>, u8>,
    now: Timestamp,
    user: Seq<char>,
)
    ensures
        ({
            let after: Map<Seq<char>, AnswerView> = merged(answers, server, now);
            let had: bool = answers.dom().contains(user);
            let kept: bool = after.dom().contains(user);
            &&& is_removed(answers, server, user) <==> had && !kept
            &&& is_added(answers, server, user) <==> !had && kept
            &&& is_corrected(answers, server, user) <==> had && kept && answers[user].choice
                != after[user].choice
            &&& had && kept && answers[user].choice == after[user].choice ==> after[user]
                == answers[user]
        }),
{
}

/// An answer that the server corrects keeps its time and counts as changed; one
/// that only the server had is new. Both are told apart from live answers.
pub proof fn law_reconciled_answers_are_marked(
    answers: Map<Seq<char>, AnswerView>,
    server: Map<Seq<char>, u8>,
    now: Timestamp,
    user: Seq<char>,
)
    requires
        server.dom().contains(user),
        answers.dom().contains(user) ==> answers[user].source != "text"@ && answers[user].choice
            != server[user],
    ensures
        ({
            let after: AnswerView = merged(answers, server, now)[user];
            &&& after.choice == server[user]
            &&& after.source == "reconciled"@
            &&& after.changed_answer == answers.dom().contains(user)
            &&& after.submitted_at == (if answers.dom().contains(user) {
                answers[user].submitted_at
            } else {
                now
            })
        }),
{
}

} // verus!
