//! Single questions: decoding, validity, and what may follow what.

use base64::engine::general_purpose::STANDARD;
use base64::Engine;
use std::hash::{Hash, Hasher};
use vstd::prelude::*;
use vstd::utf8::{
    decode_utf8, encode_utf8, encode_utf8_decode_utf8, encode_utf8_valid_utf8, valid_utf8,
};

use crate::fetcher::categories::{category_group_label, group_label, normalise, normalised};
use crate::numbers::{hex, push_hex};
use crate::state::{FetchedQuestion, QuestionView};
use crate::text::{blank, contains_text, is_blank, opt_str, same, texts, trim_text, trimmed};

verus! {

// ── Trusted items ────────────────────────────────────────────────────────────

/// What base64's `Engine::decode` with the engine `STANDARD` makes of a text:
/// bytes, or nothing where it is an error.
pub uninterp spec fn base64_bytes(s: Seq<char>) -> Option<Seq<u8>>;

/// `Engine::decode` of base64's `STANDARD` engine: the result depends on the
/// text alone.
#[verifier::external_body]
fn base64_decode(s: &str) -> (r: Option<Vec<u8>>)
    ensures
        opt_bytes(r) == base64_bytes(s@),
{
    STANDARD.decode(s).ok()
}

/// `String::from_utf8`: the string of those bytes where they are UTF-8, an
/// error where they are not.
#[verifier::external_body]
fn utf8_string(bytes: Vec<u8>) -> (r: Option<String>)
    ensures
        r is Some <==> valid_utf8(bytes@),
        r is Some ==> encode_utf8(r->0@) == bytes@,
{
    String::from_utf8(bytes).ok()
}

/// What the standard library's `DefaultHasher` makes of a text.
pub uninterp spec fn default_hash(s: Seq<char>) -> u64;

/// The standard library's `DefaultHasher`: all that `new` makes are the same,
/// so the number depends on the text alone. Which number it is, the library
/// does not document.
#[verifier::external_body]
fn hash_of(s: &str) -> (r: u64)
    ensures
        r == default_hash(s@),
{
    let mut hasher = std::collections::hash_map::DefaultHasher::new();
    s.hash(&mut hasher);
    hasher.finish()
}

// ── Decoding ─────────────────────────────────────────────────────────────────

/// The content of an optional byte vector.
pub open spec fn opt_bytes(v: Option<Vec<u8>>) -> Option<Seq<u8>> {
    match v {
        Some(b) => Some(b@),
        None => None,
    }
}

/// The text in `bytes`, or `s` where they are missing or no text.
pub open spec fn decoded_from(s: Seq<char>, bytes: Option<Seq<u8>>) -> Seq<char> {
    match bytes {
        Some(b) => if valid_utf8(b) {
            decode_utf8(b)
        } else {
            s
        },
        None => s,
    }
}

/// The text in `bytes`, or `s` where they are missing or no text.
pub fn decoded_or(s: &str, bytes: Option<Vec<u8>>) -> (r: String)
    ensures
        r@ == decoded_from(s@, opt_bytes(bytes)),
{
    match bytes {
        Some(b) => match utf8_string(b) {
            Some(t) => {
                proof {
                    encode_utf8_decode_utf8(t@);
                }
                t
            },
            None => s.to_owned(),
        },
        None => s.to_owned(),
    }
}

/// Decodes a base64 field of OpenTDB; what is no base64 text stays as it is.
pub fn decode(s: &str) -> (r: String)
    ensures
        r@ == decoded_from(s@, base64_bytes(s@)),
{
    decoded_or(s, base64_decode(s))
}

/// A question as OpenTDB sends it.
pub struct ApiQuestion {
    pub category: String,
    pub difficulty: String,
    pub question: String,
    pub correct_answer: String,
    pub incorrect_answers: Vec<String>,
}

impl View for ApiQuestion {
    type V = QuestionView;

    open spec fn view(&self) -> QuestionView {
        QuestionView {
            category: self.category@,
            difficulty: self.difficulty@,
            question: self.question@,
            correct_answer: self.correct_answer@,
            incorrect_answers: texts(self.incorrect_answers@),
        }
    }
}

/// A base64 field, decoded.
pub open spec fn decoded(s: Seq<char>) -> Seq<char> {
    decoded_from(s, base64_bytes(s))
}

/// A question with every field decoded.
pub open spec fn decoded_question(q: QuestionView) -> QuestionView {
    QuestionView {
        category: decoded(q.category),
        difficulty: decoded(q.difficulty),
        question: decoded(q.question),
        correct_answer: decoded(q.correct_answer),
        incorrect_answers: q.incorrect_answers.map_values(|s: Seq<char>| decoded(s)),
    }
}

/// Decodes every field of a question.
pub fn decode_question(q: &ApiQuestion) -> (r: FetchedQuestion)
    ensures
        r@ == decoded_question(q@),
{
    let mut answers: Vec<String> = Vec::new();
    let mut i: usize = 0;
    while i < q.incorrect_answers.len()
        invariant
            i <= q.incorrect_answers.len(),
            answers.len() == i,
            forall|j: int|
                0 <= j < i ==> #[trigger] answers@[j]@ == decoded(q.incorrect_answers@[j]@),
        decreases q.incorrect_answers.len() - i,
    {
        answers.push(decode(q.incorrect_answers[i].as_str()));
        i = i + 1;
    }
    let r = FetchedQuestion {
        category: decode(q.category.as_str()),
        difficulty: decode(q.difficulty.as_str()),
        question: decode(q.question.as_str()),
        correct_answer: decode(q.correct_answer.as_str()),
        incorrect_answers: answers,
    };
    assert(r@.incorrect_answers =~= decoded_question(q@).incorrect_answers);
    r
}

// ── Validity ─────────────────────────────────────────────────────────────────

/// An answer as it is matched against others.
pub open spec fn answer_key(s: Seq<char>) -> Seq<char> {
    normalised(trimmed(s))
}

/// All answers of a question as they are matched, the right one first.
pub open spec fn answer_keys(q: QuestionView) -> Seq<Seq<char>> {
    seq![answer_key(q.correct_answer)] + q.incorrect_answers.map_values(
        |s: Seq<char>| answer_key(s),
    )
}

/// Whether a question can be asked: nothing in it is blank, and it has three
/// wrong answers, no two of its answers the same.
pub open spec fn valid_question(q: QuestionView) -> bool {
    &&& !is_blank(q.category)
    &&& !is_blank(q.difficulty)
    &&& !is_blank(q.question)
    &&& !is_blank(q.correct_answer)
    &&& q.incorrect_answers.len() == 3
    &&& forall|i: int| 0 <= i < 3 ==> !is_blank(#[trigger] q.incorrect_answers[i])
    &&& answer_keys(q).no_duplicates()
}

/// Whether a question can be asked, see `valid_question`.
pub fn question_is_valid(q: &FetchedQuestion) -> (r: bool)
    ensures
        r == valid_question(q@),
{
    if blank(q.category.as_str()) || blank(q.difficulty.as_str()) || blank(q.question.as_str())
        || blank(q.correct_answer.as_str()) || q.incorrect_answers.len() != 3 {
        return false;
    }
    let ghost all: Seq<Seq<char>> = answer_keys(q@);
    let mut keys: Vec<String> = Vec::new();
    keys.push(normalise(trim_text(q.correct_answer.as_str()).as_str()));
    let mut i: usize = 0;
    assert(texts(keys@) =~= all.take(1));
    while i < q.incorrect_answers.len()
        invariant
            i <= q.incorrect_answers.len(),
            q.incorrect_answers.len() == 3,
            all == answer_keys(q@),
            texts(keys@) == all.take(i + 1),
            all.take(i + 1).no_duplicates(),
            forall|j: int| 0 <= j < i ==> !is_blank(#[trigger] q@.incorrect_answers[j]),
        decreases q.incorrect_answers.len() - i,
    {
        assert(q@.incorrect_answers[i as int] == q.incorrect_answers@[i as int]@);
        if blank(q.incorrect_answers[i].as_str()) {
            assert(is_blank(q@.incorrect_answers[i as int]));
            return false;
        }
        let key = normalise(trim_text(q.incorrect_answers[i].as_str()).as_str());
        assert(key@ == all[i + 1]);
        if contains_text(&keys, key.as_str()) {
            proof {
                let t: Seq<Seq<char>> = texts(keys@);
                let j: int = choose|j: int| 0 <= j < t.len() && t[j] == key@;
                assert(all[j] == all[i + 1]);
                assert(!all.no_duplicates());
            }
            return false;
        }
        let ghost before: Seq<String> = keys@;
        keys.push(key);
        proof {
            assert(texts(keys@) =~= texts(before).push(all[i + 1]));
            assert(all.take(i + 2) =~= all.take(i + 1).push(all[i + 1]));
            let grown: Seq<Seq<char>> = all.take(i + 2);
            assert forall|a: int, b: int| 0 <= a < b < i + 2 implies grown[a] != grown[b] by {
                assert(all.take(i + 1)[a] == all[a]);
                if b == i + 1 {
                    assert(texts(before)[a] == all[a]);
                } else {
                    assert(all.take(i + 1)[b] == all[b]);
                }
            }
        }
        i = i + 1;
    }
    assert(all.take(4) == all);
    true
}

/// Whether a question of `category` may follow one of the group `previous`:
/// where more than one group is active, not another one of that group.
pub open spec fn can_follow(
    previous: Option<Seq<char>>,
    category: Seq<char>,
    active_group_count: nat,
) -> bool {
    active_group_count <= 1 || previous != Some(normalised(group_label(category)))
}

/// Whether a question of `candidate_category` may follow one of the group
/// `previous_normalized_group`, see `can_follow`.
pub fn category_can_follow(
    previous_normalized_group: Option<&str>,
    candidate_category: &str,
    active_group_count: usize,
) -> (r: bool)
    ensures
        r == can_follow(
            opt_str(previous_normalized_group),
            candidate_category@,
            active_group_count as nat,
        ),
{
    if active_group_count <= 1 {
        return true;
    }
    let label = category_group_label(candidate_category);
    let key = normalise(label.as_str());
    match previous_normalized_group {
        Some(previous) => !same(previous, key.as_str()),
        None => true,
    }
}

// ── Request spacing ──────────────────────────────────────────────────────────

/// The least time between two requests to OpenTDB, in nanoseconds: 5.5 s.
pub const MIN_REQUEST_INTERVAL: u64 = 5500000000;

/// How long to wait at `now` before the next request, the previous one having
/// gone out at `previous_request`. A request in the future counts as one made
/// now.
pub open spec fn wait_after(previous_request: int, now: int, min_interval: int) -> int {
    if now >= previous_request + min_interval {
        0
    } else if now >= previous_request {
        previous_request + min_interval - now
    } else {
        min_interval
    }
}

/// How much longer to wait before the next request, see `wait_after`. Times are
/// nanoseconds of one monotonic clock.
pub fn remaining_wait(previous_request: u64, now: u64, min_interval: u64) -> (r: u64)
    ensures
        r == wait_after(previous_request as int, now as int, min_interval as int),
{
    let elapsed: u64 = if now > previous_request {
        now - previous_request
    } else {
        0
    };
    if min_interval > elapsed {
        min_interval - elapsed
    } else {
        0
    }
}

/// Whoever waits keeps the least time between two requests, and waits no longer
/// than that takes.
pub proof fn law_requests_are_spaced(previous_request: int, now: int, min_interval: int)
    requires
        previous_request <= now,
        0 <= min_interval,
    ensures
        now + wait_after(previous_request, now, min_interval) >= previous_request + min_interval,
        wait_after(previous_request, now, min_interval) > 0 ==> now + wait_after(
            previous_request,
            now,
            min_interval,
        ) == previous_request + min_interval,
{
}

// ── Token fingerprints ───────────────────────────────────────────────────────

/// Eight hexadecimal digits of a token's hash, for log lines: the token
/// itself is never logged.
pub fn fingerprint_of_hash(hash: u64) -> (r: String)
    ensures
        r@ == hex(hash as nat, 8),
{
    let mut out = String::new();
    push_hex(&mut out, hash, 8);
    out
}

/// A short identifier of a token for log lines, always the same for the same
/// token.
pub fn token_fingerprint(token: &str) -> (r: String)
    ensures
        r@ == hex(default_hash(token@) as nat, 8),
{
    fingerprint_of_hash(hash_of(token))
}

// ── Laws ─────────────────────────────────────────────────────────────────────

/// A question can be asked exactly where nothing in it is blank and it has three
/// wrong answers that differ from the right one and from each other, whatever
/// the case and the space in them.
pub proof fn law_what_can_be_asked(q: QuestionView)
    ensures
        valid_question(q) <==> {
            &&& trimmed(q.category).len() > 0
            &&& trimmed(q.difficulty).len() > 0
            &&& trimmed(q.question).len() > 0
            &&& trimmed(q.correct_answer).len() > 0
            &&& q.incorrect_answers.len() == 3
            &&& forall|i: int|
                0 <= i < 3 ==> trimmed(#[trigger] q.incorrect_answers[i]).len() > 0 && normalised(
                    trimmed(q.incorrect_answers[i]),
                ) != normalised(trimmed(q.correct_answer))
            &&& forall|i: int, j: int|
                0 <= i < j < 3 ==> normalised(trimmed(#[trigger] q.incorrect_answers[i]))
                    != normalised(trimmed(#[trigger] q.incorrect_answers[j]))
        },
{
    let keys: Seq<Seq<char>> = answer_keys(q);
    if q.incorrect_answers.len() == 3 {
        assert(keys.len() == 4);
        assert(keys[0] == normalised(trimmed(q.correct_answer)));
        assert forall|i: int| 0 <= i < 3 implies keys[i + 1] == normalised(
            trimmed(#[trigger] q.incorrect_answers[i]),
        ) by {}
        if valid_question(q) {
            assert forall|i: int| 0 <= i < 3 implies normalised(
                trimmed(#[trigger] q.incorrect_answers[i]),
            ) != normalised(trimmed(q.correct_answer)) by {
                assert(keys[i + 1] != keys[0]);
            }
            assert forall|i: int, j: int| 0 <= i < j < 3 implies normalised(
                trimmed(#[trigger] q.incorrect_answers[i]),
            ) != normalised(trimmed(#[trigger] q.incorrect_answers[j])) by {
                assert(keys[i + 1] != keys[j + 1]);
            }
        }
        if (forall|i: int|
            0 <= i < 3 ==> normalised(trimmed(#[trigger] q.incorrect_answers[i])) != normalised(
                trimmed(q.correct_answer),
            )) && (forall|i: int, j: int|
            0 <= i < j < 3 ==> normalised(trimmed(#[trigger] q.incorrect_answers[i]))
                != normalised(trimmed(#[trigger] q.incorrect_answers[j]))) {
            assert forall|i: int, j: int| 0 <= i < j < keys.len() implies keys[i] != keys[j] by {
                assert(keys[j] == normalised(trimmed(q.incorrect_answers[j - 1])));
                if i > 0 {
                    assert(keys[i] == normalised(trimmed(q.incorrect_answers[i - 1])));
                }
            }
            assert(keys.no_duplicates());
        }
    }
}

/// Whether `s` is how OpenTDB sends the text `t`: as base64 of its UTF-8.
pub open spec fn encodes(s: Seq<char>, t: Seq<char>) -> bool {
    base64_bytes(s) == Some(encode_utf8(t))
}

/// A question that OpenTDB sends is read as what it is, field by field.
pub proof fn law_questions_are_decoded(sent: QuestionView, q: QuestionView)
    requires
        encodes(sent.category, q.category),
        encodes(sent.difficulty, q.difficulty),
        encodes(sent.question, q.question),
        encodes(sent.correct_answer, q.correct_answer),
        sent.incorrect_answers.len() == q.incorrect_answers.len(),
        forall|i: int|
            0 <= i < q.incorrect_answers.len() ==> encodes(
                #[trigger] sent.incorrect_answers[i],
                q.incorrect_answers[i],
            ),
    ensures
        decoded_question(sent) == q,
{
    let r: QuestionView = decoded_question(sent);
    lemma_decoded(sent.category, q.category);
    lemma_decoded(sent.difficulty, q.difficulty);
    lemma_decoded(sent.question, q.question);
    lemma_decoded(sent.correct_answer, q.correct_answer);
    assert forall|i: int| 0 <= i < r.incorrect_answers.len() implies #[trigger] r.incorrect_answers[i]
        == q.incorrect_answers[i] by {
        lemma_decoded(sent.incorrect_answers[i], q.incorrect_answers[i]);
    }
    assert(r.incorrect_answers =~= q.incorrect_answers);
}

proof fn lemma_decoded(s: Seq<char>, t: Seq<char>)
    requires
        encodes(s, t),
    ensures
        decoded(s) == t,
{
    encode_utf8_valid_utf8(t);
    encode_utf8_decode_utf8(t);
}

/// What is no base64, or no text, is taken as it is.
pub proof fn law_what_is_no_base64_stays(s: Seq<char>)
    requires
        base64_bytes(s) is None || !valid_utf8(base64_bytes(s)->0),
    ensures
        decoded(s) == s,
{
}

/// Where several groups are active, a question may follow exactly where it is of
/// another group; where one is, any may.
pub proof fn law_what_may_follow(previous: Seq<char>, category: Seq<char>, count: nat)
    ensures
        can_follow(None, category, count),
        count <= 1 ==> can_follow(Some(previous), category, count),
        count > 1 ==> (can_follow(Some(previous), category, count) <==> normalised(
            group_label(category),
        ) != previous),
{
}

/// Before a request that seems to lie in the future the whole interval is waited
/// for, and never more.
pub proof fn law_waits_are_bounded(previous_request: int, now: int, min_interval: int)
    requires
        0 <= min_interval,
    ensures
        0 <= wait_after(previous_request, now, min_interval) <= min_interval,
        now < previous_request ==> wait_after(previous_request, now, min_interval) == min_interval,
        now >= previous_request ==> {
            let next: int = now + wait_after(previous_request, now, min_interval);
            next >= previous_request + min_interval && (next == now || next == previous_request
                + min_interval)
        },
{
}

} // verus!
