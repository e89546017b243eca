//! Chat completions.

use quiz_bot::groq::{
    build_request, is_reasoning_model, judge_status, Completion, CompletionStep, Options, Reply,
    StatusAction,
};

#[test]
fn reasoning_effort_is_only_sent_to_reasoning_models() {
    let body = |model: &str| {
        build_request(model, "", "", Options { max_tokens: 10, json: true })
    };
    assert_eq!(body("openai/gpt-oss-120b").reasoning_effort, Some("low"));
    assert!(body("llama-3.3-70b-versatile").reasoning_effort.is_none());
    assert_eq!(body("llama-3.3-70b-versatile").response_format, Some("json_object"));
}

#[test]
fn a_request_holds_both_messages() {
    let r = build_request("m", "be brief", "why?", Options::default());
    assert_eq!(r.model, "m");
    assert_eq!(r.max_tokens, 1024);
    assert_eq!(
        r.messages,
        vec![("system", "be brief".to_owned()), ("user", "why?".to_owned())]
    );
    assert_eq!(r.response_format, None);
    assert!(is_reasoning_model("qwen/qwen3-32b"));
    assert!(!is_reasoning_model("qwen/qwen2"));
}

#[test]
fn each_status_has_its_consequence() {
    assert_eq!(judge_status(200, ""), StatusAction::Read);
    assert_eq!(judge_status(299, ""), StatusAction::Read);
    assert_eq!(judge_status(401, ""), StatusAction::AuthFailed);
    assert_eq!(judge_status(403, "model_not_found"), StatusAction::AuthFailed);
    assert_eq!(judge_status(404, ""), StatusAction::NoModel);
    assert_eq!(judge_status(500, "x model_not_found y"), StatusAction::NoModel);
    assert_eq!(judge_status(400, "bad"), StatusAction::Rejected);
    assert_eq!(judge_status(400, "json_validate_failed"), StatusAction::Retry);
    assert_eq!(judge_status(429, "slow down"), StatusAction::Retry);
    assert_eq!(judge_status(503, ""), StatusAction::Retry);
}

#[test]
fn transient_failures_are_retried_twice() {
    let (mut completion, step) = Completion::start();
    assert!(matches!(step, CompletionStep::Ask { wait_secs: 0 }));
    assert!(matches!(completion.on_reply(Reply::Lost), CompletionStep::Ask { wait_secs: 1 }));
    let step = completion.on_reply(Reply::Content { content: Some(" \n".to_owned()) });
    assert!(matches!(step, CompletionStep::Ask { wait_secs: 2 }));
    let step = completion.on_reply(Reply::Content { content: None });
    assert!(matches!(step, CompletionStep::Done { content: None }));
}

#[test]
fn a_permanent_error_ends_it_and_content_is_handed_on() {
    let (mut completion, _) = Completion::start();
    let step = completion.on_reply(Reply::Failed { status: 401, body: String::new() });
    assert!(matches!(step, CompletionStep::Done { content: None }));
    let (mut completion, _) = Completion::start();
    let step = completion.on_reply(Reply::Failed { status: 502, body: String::new() });
    assert!(matches!(step, CompletionStep::Ask { wait_secs: 1 }));
    let CompletionStep::Done { content } =
        completion.on_reply(Reply::Content { content: Some(" text ".to_owned()) })
    else {
        panic!("should be done");
    };
    assert_eq!(content.as_deref(), Some(" text "));
}
