//! The OpenTDB session token, and the requests that are made with it.

use vstd::prelude::*;

use crate::config::TriviaConfig;
use crate::numbers::{decimal, push_nat};
use crate::retry::{retry_decision, retry_step, RetryStep};
use crate::state::State;
use crate::text::{has_text, opt_str, opt_text, same, stands_at};

verus! {

/// Where tokens are requested and reset.
pub const TOKEN_URL: &'static str = "https://opentdb.com/api_token.php";

/// Where questions are requested.
pub const API_URL: &'static str = "https://opentdb.com/api.php";

// ── Sending again ────────────────────────────────────────────────────────────

/// How many times a request is sent before the network is given up on.
pub const MAX_NET_RETRIES: u32 = 5;

/// Decides whether a request that was sent `attempt` times without an answer
/// is sent once more.
pub fn network_attempt(attempt: u32) -> (r: RetryStep)
    ensures
        r == retry_decision(attempt as nat, MAX_NET_RETRIES as nat),
        r is GiveUp <==> attempt >= 5,
{
    retry_step(attempt, MAX_NET_RETRIES)
}

/// The message of a request that was given up on.
pub fn unreachable_message() -> (r: String)
    ensures
        r@ == "OpenTDB unreachable after "@ + decimal(MAX_NET_RETRIES as nat) + " attempts"@,
{
    let mut out = String::new();
    out.append("OpenTDB unreachable after ");
    push_nat(&mut out, MAX_NET_RETRIES as u64);
    out.append(" attempts");
    out
}

// ── Addresses ────────────────────────────────────────────────────────────────

/// The address that hands out a new token.
pub fn token_request_url(base: &str) -> (r: String)
    ensures
        r@ == base@ + "?command=request"@,
{
    let mut out = base.to_owned();
    out.append("?command=request");
    out
}

/// The address that makes a token forget which questions it has seen.
pub fn token_reset_url(base: &str, token: &str) -> (r: String)
    ensures
        r@ == base@ + "?command=reset&token="@ + token@,
{
    let mut out = base.to_owned();
    out.append("?command=reset&token=");
    out.append(token);
    out
}

/// The address of `amount` questions of a category.
pub open spec fn question_address(
    amount: nat,
    token: Seq<char>,
    category: nat,
    difficulty: Option<Seq<char>>,
) -> Seq<char> {
    let plain: Seq<char> = API_URL@ + "?amount="@ + decimal(amount)
        + "&type=multiple&encode=base64&token="@ + token + "&category="@ + decimal(category);
    match difficulty {
        Some(d) => plain + "&difficulty="@ + d,
        None => plain,
    }
}

/// The address of `amount` questions of a category, see `question_address`.
pub fn question_url(amount: u32, token: &str, category: u32, difficulty: Option<&str>) -> (r:
    String)
    ensures
        r@ == question_address(amount as nat, token@, category as nat, opt_str(difficulty)),
{
    let mut out = API_URL.to_owned();
    out.append("?amount=");
    push_nat(&mut out, amount as u64);
    out.append("&type=multiple&encode=base64&token=");
    out.append(token);
    out.append("&category=");
    push_nat(&mut out, category as u64);
    match difficulty {
        Some(d) => {
            out.append("&difficulty=");
            out.append(d);
        },
        None => {},
    }
    out
}

/// How many questions a batch asks for: as configured, but at least one and
/// at most 50.
pub fn batch_amount(trivia: &TriviaConfig) -> (r: u32)
    ensures
        r == (if trivia.batch_size < 1 {
            1
        } else if trivia.batch_size > 50 {
            50
        } else {
            trivia.batch_size as int
        }),
{
    if trivia.batch_size < 1 {
        1
    } else if trivia.batch_size > 50 {
        50
    } else {
        trivia.batch_size
    }
}

// ── The cached token ─────────────────────────────────────────────────────────

/// The token that is cached, or nothing where one has to be requested.
pub fn cached_token(state: &State) -> (r: Option<String>)
    ensures
        opt_text(r) == opt_text(state.opentdb_token),
{
    match &state.opentdb_token {
        Some(t) => Some(t.clone()),
        None => None,
    }
}

/// The message of a token request that OpenTDB refused with `code`.
pub open spec fn request_refused(code: nat) -> Seq<char> {
    "OpenTDB token request failed (code "@ + decimal(code) + ")"@
}

/// The message of a token reset that OpenTDB refused with `code`.
pub open spec fn reset_refused(code: nat) -> Seq<char> {
    "OpenTDB token reset failed (code "@ + decimal(code) + ")"@
}

/// Takes the answer to a token request: caches the token and returns it, or
/// returns the error and leaves the cache as it is. An answer without a token
/// counts as an empty one.
pub fn accept_token(state: &mut State, code: u8, token: Option<String>) -> (r: Result<
    String,
    String,
>)
    ensures
        code == 0 ==> r is Ok && r->Ok_0@ == (match token {
            Some(t) => t@,
            None => ""@,
        }) && opt_text(final(state).opentdb_token) == Some(r->Ok_0@),
        code != 0 ==> r is Err && r->Err_0@ == request_refused(code as nat)
            && final(state).opentdb_token == old(state).opentdb_token,
        final(state).cached_questions == old(state).cached_questions,
        final(state).created_at == old(state).created_at,
        final(state).last_quiz_dates == old(state).last_quiz_dates,
        final(state).scheduled_once == old(state).scheduled_once,
{
    if code != 0 {
        let mut out = String::new();
        out.append("OpenTDB token request failed (code ");
        push_nat(&mut out, code as u64);
        out.append(")");
        return Err(out);
    }
    let text = match token {
        Some(t) => t,
        None => "".to_owned(),
    };
    state.opentdb_token = Some(text.clone());
    Ok(text)
}

/// Takes the answer to a token reset. A reset token stays the same, so the
/// cache is not touched.
pub fn accept_reset(code: u8) -> (r: Result<(), String>)
    ensures
        code == 0 ==> r is Ok,
        code != 0 ==> r is Err && r->Err_0@ == reset_refused(code as nat),
{
    if code == 0 {
        return Ok(());
    }
    let mut out = String::new();
    out.append("OpenTDB token reset failed (code ");
    push_nat(&mut out, code as u64);
    out.append(")");
    Err(out)
}

/// Forgets the cached token if it is still `token`, and says whether it was.
/// One that was replaced meanwhile is kept.
pub fn clear_token_if_matches(state: &mut State, token: &str) -> (r: bool)
    ensures
        r == (opt_text(old(state).opentdb_token) == Some(token@)),
        r ==> final(state).opentdb_token is None,
        !r ==> final(state).opentdb_token == old(state).opentdb_token,
        final(state).cached_questions == old(state).cached_questions,
        final(state).created_at == old(state).created_at,
        final(state).last_quiz_dates == old(state).last_quiz_dates,
        final(state).scheduled_once == old(state).scheduled_once,
{
    let matches: bool = match &state.opentdb_token {
        Some(t) => same(t.as_str(), token),
        None => false,
    };
    if matches {
        state.opentdb_token = None;
    }
    matches
}

/// The address of questions asks for the amount, in base64 and with four answers
/// each, with the token, of the category, and of the difficulty where one is
/// wanted.
pub proof fn law_addresses_ask_for_what_is_wanted(
    amount: nat,
    token: Seq<char>,
    category: nat,
    difficulty: Seq<char>,
)
    ensures
        ({
            let plain: Seq<char> = question_address(amount, token, category, None);
            &&& API_URL@.is_prefix_of(plain)
            &&& has_text(plain, "?amount="@ + decimal(amount) + "&type=multiple&encode=base64"@)
            &&& has_text(plain, "&token="@ + token)
            &&& ("&category="@ + decimal(category)).is_suffix_of(plain)
            &&& question_address(amount, token, category, Some(difficulty)) == plain
                + "&difficulty="@ + difficulty
        }),
{
    reveal_strlit("&type=multiple&encode=base64");
    reveal_strlit("&type=multiple&encode=base64&token=");
    reveal_strlit("&token=");
    let plain: Seq<char> = question_address(amount, token, category, None);
    let asked: Seq<char> = "?amount="@ + decimal(amount) + "&type=multiple&encode=base64"@;
    let with: Seq<char> = "&token="@ + token;
    let end: Seq<char> = "&category="@ + decimal(category);
    assert(plain =~= API_URL@ + asked + with + end);
    assert(plain.take(API_URL@.len() as int) =~= API_URL@);
    let a: int = API_URL@.len() as int;
    assert(plain.subrange(a, a + asked.len()) =~= asked);
    assert(stands_at(plain, asked, a));
    let b: int = a + asked.len();
    assert(plain.subrange(b, b + with.len()) =~= with);
    assert(stands_at(plain, with, b));
    assert(plain.skip(plain.len() - end.len()) =~= end);
}

/// A refusal tells the code that came, and what was refused.
pub proof fn law_refusals_tell_the_code(code: nat)
    ensures
        ("(code "@ + decimal(code) + ")"@).is_suffix_of(request_refused(code)),
        ("(code "@ + decimal(code) + ")"@).is_suffix_of(reset_refused(code)),
        "OpenTDB token request failed"@.is_prefix_of(request_refused(code)),
        "OpenTDB token reset failed"@.is_prefix_of(reset_refused(code)),
{
    reveal_strlit("(code ");
    reveal_strlit("OpenTDB token request failed (code ");
    reveal_strlit("OpenTDB token reset failed (code ");
    reveal_strlit("OpenTDB token request failed");
    reveal_strlit("OpenTDB token reset failed");
    let end: Seq<char> = "(code "@ + decimal(code) + ")"@;
    let (a, b) = (request_refused(code), reset_refused(code));
    assert(a.skip(a.len() - end.len()) =~= end);
    assert(b.skip(b.len() - end.len()) =~= end);
    assert(a.take("OpenTDB token request failed"@.len() as int)
        =~= "OpenTDB token request failed"@);
    assert(b.take("OpenTDB token reset failed"@.len() as int) =~= "OpenTDB token reset failed"@);
}

} // verus!
