//! Chat completions of Groq: what is asked, and what is made of the reply.

use vstd::prelude::*;

use crate::retry::{backoff, backoff_secs};
use crate::text::{blank, contains_sub, has_prefix, has_text, is_blank, opt_text};

verus! {

/// How often a completion is asked for.
pub const MAX_ATTEMPTS: u32 = 3;

/// Where completions are asked for.
pub const API_URL: &'static str = "https://api.groq.com/openai/v1/chat/completions";

/// How a completion is asked for.
#[derive(Clone, Copy)]
pub struct Options {
    /// How long the reply may be, hidden reasoning included.
    pub max_tokens: u32,
    /// Whether the reply is to be one JSON object.
    pub json: bool,
}

impl Default for Options {
    fn default() -> (r: Options)
        ensures
            r.max_tokens == 1024,
            !r.json,
    {
        Options { max_tokens: 1024, json: false }
    }
}

/// Whether a model thinks before it answers.
pub open spec fn reasons(model: Seq<char>) -> bool {
    "openai/gpt-oss"@.is_prefix_of(model) || "qwen/qwen3"@.is_prefix_of(model)
}

/// Whether a model thinks before it answers, and so can be told to keep it
/// short.
pub fn is_reasoning_model(model: &str) -> (r: bool)
    ensures
        r == reasons(model@),
{
    has_prefix(model, "openai/gpt-oss") || has_prefix(model, "qwen/qwen3")
}

/// What is asked of Groq.
pub struct ApiRequest {
    pub model: String,
    pub max_tokens: u32,
    /// Role and content of each message.
    pub messages: Vec<(&'static str, String)>,
    /// The form of the reply, where one is asked for.
    pub response_format: Option<&'static str>,
    /// How hard to think, for models that do.
    pub reasoning_effort: Option<&'static str>,
}

/// Asks a model for a completion.
pub fn build_request(model: &str, system_prompt: &str, user_content: &str, options: Options) -> (r:
    ApiRequest)
    ensures
        r.model@ == model@,
        r.max_tokens == options.max_tokens,
        r.messages.len() == 2,
        r.messages@[0].0@ == "system"@,
        r.messages@[0].1@ == system_prompt@,
        r.messages@[1].0@ == "user"@,
        r.messages@[1].1@ == user_content@,
        options.json ==> r.response_format is Some && r.response_format->0@ == "json_object"@,
        !options.json ==> r.response_format is None,
        reasons(model@) ==> r.reasoning_effort is Some && r.reasoning_effort->0@ == "low"@,
        !reasons(model@) ==> r.reasoning_effort is None,
{
    let mut messages: Vec<(&'static str, String)> = Vec::new();
    messages.push(("system", system_prompt.to_owned()));
    messages.push(("user", user_content.to_owned()));
    ApiRequest {
        model: model.to_owned(),
        max_tokens: options.max_tokens,
        messages,
        response_format: if options.json {
            Some("json_object")
        } else {
            None
        },
        reasoning_effort: if is_reasoning_model(model) {
            Some("low")
        } else {
            None
        },
    }
}

// ── Replies ──────────────────────────────────────────────────────────────────

/// What a status calls for.
#[derive(Clone, Copy, Debug, PartialEq, Eq, Structural)]
pub enum StatusAction {
    /// The reply is to be read.
    Read,
    /// It may work another time.
    Retry,
    /// The key is refused.
    AuthFailed,
    /// There is no such model.
    NoModel,
    /// The request makes no sense to Groq.
    Rejected,
}

/// What a status calls for, with the body that came along. Only what another
/// attempt may mend is tried again.
pub open spec fn action_for(status: u16, body: Seq<char>) -> StatusAction {
    if status == 401 || status == 403 {
        StatusAction::AuthFailed
    } else if 200 <= status < 300 {
        StatusAction::Read
    } else if status == 404 || has_text(body, "model_not_found"@) {
        StatusAction::NoModel
    } else if status == 400 && !has_text(body, "json_validate_failed"@) {
        StatusAction::Rejected
    } else {
        StatusAction::Retry
    }
}

/// What a status calls for, see `action_for`.
pub fn judge_status(status: u16, body: &str) -> (r: StatusAction)
    ensures
        r == action_for(status, body@),
{
    if status == 401 || status == 403 {
        StatusAction::AuthFailed
    } else if 200 <= status && status < 300 {
        StatusAction::Read
    } else if status == 404 || contains_sub(body, "model_not_found") {
        StatusAction::NoModel
    } else if status == 400 && !contains_sub(body, "json_validate_failed") {
        StatusAction::Rejected
    } else {
        StatusAction::Retry
    }
}

/// What came of an attempt.
pub enum Reply {
    /// Nothing, or nothing that could be read.
    Lost,
    /// A status that is no success, and the body that came along.
    Failed { status: u16, body: String },
    /// The first choice of a reply that could be read.
    Content { content: Option<String> },
}

/// What a `Reply` stands for.
pub enum ReplyView {
    Lost,
    Failed { status: u16, body: Seq<char> },
    Content { content: Option<Seq<char>> },
}

impl View for Reply {
    type V = ReplyView;

    open spec fn view(&self) -> ReplyView {
        match self {
            Reply::Lost => ReplyView::Lost,
            Reply::Failed { status, body } => ReplyView::Failed { status: *status, body: body@ },
            Reply::Content { content } => ReplyView::Content { content: opt_text(*content) },
        }
    }
}

/// What asking for a completion does next.
pub enum CompletionStep {
    /// Wait, then ask.
    Ask { wait_secs: u64 },
    /// The completion, or nothing.
    Done { content: Option<String> },
}

/// What a `CompletionStep` stands for.
pub enum CompletionView {
    Ask { wait_secs: nat },
    Done { content: Option<Seq<char>> },
}

impl View for CompletionStep {
    type V = CompletionView;

    open spec fn view(&self) -> CompletionView {
        match self {
            CompletionStep::Ask { wait_secs } => CompletionView::Ask {
                wait_secs: *wait_secs as nat,
            },
            CompletionStep::Done { content } => CompletionView::Done {
                content: opt_text(*content),
            },
        }
    }
}

/// Whether a reply is a reason to ask again, after `made` attempts.
pub open spec fn ask_again(made: nat) -> CompletionView {
    if made < MAX_ATTEMPTS {
        CompletionView::Ask { wait_secs: backoff(made) }
    } else {
        CompletionView::Done { content: None }
    }
}

/// What follows a reply to the attempt number `made`.
pub open spec fn completion_step(made: nat, reply: ReplyView) -> CompletionView {
    match reply {
        ReplyView::Lost => ask_again(made),
        ReplyView::Failed { status, body } => match action_for(status, body) {
            StatusAction::AuthFailed | StatusAction::NoModel | StatusAction::Rejected => {
                CompletionView::Done { content: None }
            },
            _ => ask_again(made),
        },
        ReplyView::Content { content } => match content {
            Some(text) => if is_blank(text) {
                ask_again(made)
            } else {
                CompletionView::Done { content: Some(text) }
            },
            None => ask_again(made),
        },
    }
}

/// Asking for a completion.
pub struct Completion {
    /// Attempts that were made.
    pub made: u32,
}

impl Completion {
    /// The first attempt.
    pub fn start() -> (r: (Completion, CompletionStep))
        ensures
            r.0.made == 1,
            r.1@ == (CompletionView::Ask { wait_secs: 0 }),
    {
        (Completion { made: 1 }, CompletionStep::Ask { wait_secs: 0 })
    }

    fn again(&mut self) -> (r: CompletionStep)
        requires
            1 <= old(self).made <= MAX_ATTEMPTS,
        ensures
            r@ == ask_again(old(self).made as nat),
            r is Ask ==> final(self).made == old(self).made + 1,
            r !is Ask ==> final(self).made == old(self).made,
    {
        if self.made < MAX_ATTEMPTS {
            let wait_secs: u64 = backoff_secs(self.made);
            self.made = self.made + 1;
            CompletionStep::Ask { wait_secs }
        } else {
            CompletionStep::Done { content: None }
        }
    }

    /// Goes on after a reply.
    pub fn on_reply(&mut self, reply: Reply) -> (r: CompletionStep)
        requires
            1 <= old(self).made <= MAX_ATTEMPTS,
        ensures
            r@ == completion_step(old(self).made as nat, reply@),
            r is Ask ==> final(self).made == old(self).made + 1 <= MAX_ATTEMPTS,
            r !is Ask ==> final(self).made == old(self).made,
    {
        match reply {
            Reply::Lost => self.again(),
            Reply::Failed { status, body } => match judge_status(status, body.as_str()) {
                StatusAction::AuthFailed | StatusAction::NoModel | StatusAction::Rejected => {
                    CompletionStep::Done { content: None }
                },
                _ => self.again(),
            },
            Reply::Content { content } => match content {
                Some(text) => {
                    if blank(text.as_str()) {
                        self.again()
                    } else {
                        CompletionStep::Done { content: Some(text) }
                    }
                },
                None => self.again(),
            },
        }
    }
}

/// What comes back as a completion is never blank.
pub proof fn law_completions_are_not_blank(made: nat, reply: ReplyView)
    requires
        completion_step(made, reply) is Done,
        completion_step(made, reply)->content is Some,
    ensures
        !is_blank(completion_step(made, reply)->content->0),
{
}

/// A refused key is not tried again, however many attempts are left.
pub proof fn law_permanent_errors_end_the_attempts(made: nat, status: u16, body: Seq<char>)
    requires
        status == 401 || status == 403 || status == 404,
    ensures
        completion_step(made, (ReplyView::Failed { status, body })) == (CompletionView::Done {
            content: None,
        }),
{
}

/// A reply with a success is read, a refused key and an unknown model or a
/// request that makes no sense end the matter, and everything else may work
/// another time: too many requests and troubles of the server among it.
pub proof fn law_statuses_are_told_apart(status: u16, body: Seq<char>)
    ensures
        action_for(status, body) == StatusAction::Read <==> 200 <= status <= 299,
        action_for(status, body) == StatusAction::AuthFailed <==> status == 401 || status == 403,
        action_for(status, body) == StatusAction::NoModel <==> status == 404 || has_text(
            body,
            "model_not_found"@,
        ) && status != 401 && status != 403 && !(200 <= status <= 299),
        (status < 200 || status > 299) && status != 400 && status != 401 && status != 403 && status
            != 404 && !has_text(body, "model_not_found"@) ==> action_for(status, body)
            == StatusAction::Retry,
        status == 400 && !has_text(body, "model_not_found"@) ==> action_for(status, body) == (
        if has_text(body, "json_validate_failed"@) {
            StatusAction::Retry
        } else {
            StatusAction::Rejected
        }),
{
}

/// A text that is not blank is the completion, as it came; a reply that may work
/// another time is asked for again as long as attempts are left, with longer
/// and longer waits.
pub proof fn law_completions_come_as_they_are(made: nat, text: Seq<char>, reply: ReplyView)
    requires
        !is_blank(text),
    ensures
        completion_step(made, (ReplyView::Content { content: Some(text) })) == (
        CompletionView::Done { content: Some(text) }),
        reply is Lost || reply is Content && (reply->content is None || is_blank(
            reply->content->0,
        )) || reply is Failed && action_for(reply->status, reply->body) == StatusAction::Retry
            ==> completion_step(made, reply) == (if made < 3 {
            CompletionView::Ask { wait_secs: backoff(made) }
        } else {
            CompletionView::Done { content: None }
        }),
{
}

/// A model thinks exactly where its name begins as those of the two families do
/// that can be told how hard to.
pub proof fn law_reasoning_models_are_known_by_name(model: Seq<char>)
    ensures
        reasons(model) <==> (exists|rest: Seq<char>|
            model == "openai/gpt-oss"@ + rest || model == #[trigger] ("qwen/qwen3"@ + rest)),
{
    let (a, b) = ("openai/gpt-oss"@, "qwen/qwen3"@);
    if a.is_prefix_of(model) {
        let rest: Seq<char> = model.skip(a.len() as int);
        assert(model =~= a + rest);
        assert(b + rest == b + rest);
    }
    if b.is_prefix_of(model) {
        let rest: Seq<char> = model.skip(b.len() as int);
        assert(model =~= b + rest);
    }
    if exists|rest: Seq<char>| model == a + rest || model == #[trigger] (b + rest) {
        let rest: Seq<char> = choose|rest: Seq<char>|
            model == a + rest || model == #[trigger] (b + rest);
        if model == a + rest {
            assert(model.take(a.len() as int) =~= a);
        } else {
            assert(model.take(b.len() as int) =~= b);
        }
    }
}

} // verus!
