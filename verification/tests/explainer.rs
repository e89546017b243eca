//! Explanations with pictures.

use quiz_bot::explainer::{
    commons_api_url, commons_title, explain_attempt, first_reply, is_auth_error, is_commons_page,
    is_image, media_type, parse_response, usable_content, user_content, Asking, ExplainStep,
};
use quiz_bot::groq::{CompletionStep, Reply};
use quiz_bot::retry::RetryStep;

#[test]
fn the_image_line_is_taken_out() {
    let raw = "One.\nTwo.\n\nIMAGE: https://x.org/a.png \n".to_owned();
    let (text, url) = parse_response(raw);
    assert_eq!(text, "One.\nTwo.");
    assert_eq!(url.as_deref(), Some("https://x.org/a.png"));
    let (text, url) = parse_response("A\nIMAGE: none\nB\n  \n".to_owned());
    assert_eq!(text, "A\nB");
    assert_eq!(url, None);
    let (text, url) =
        parse_response("IMAGE: http://x/1\nIMAGE:http://x/2\nIMAGE: gone".to_owned());
    assert_eq!(text, "");
    assert_eq!(url.as_deref(), Some("http://x/2"));
}

#[test]
fn commons_pages_are_looked_up() {
    let page = "https://commons.wikimedia.org/wiki/File:Foo.jpg";
    assert!(is_commons_page(page));
    assert!(!is_commons_page("https://en.wikipedia.org/wiki/Foo"));
    assert_eq!(commons_title(page).as_deref(), Some("File:Foo.jpg"));
    assert_eq!(commons_title("https://x/wiki/a/wiki/b").as_deref(), Some("a"));
    assert_eq!(commons_title("https://x/none"), None);
    assert_eq!(
        commons_api_url("File:Foo.jpg"),
        "https://commons.wikimedia.org/w/api.php?action=query&titles=File:Foo.jpg\
         &prop=imageinfo&iiprop=url&format=json"
    );
}

#[test]
fn only_images_count_as_images() {
    assert!(is_image(200, "image/png"));
    assert!(!is_image(404, "image/png"));
    assert!(!is_image(200, "text/html"));
    assert!(!is_image(200, "Image/png"));
    assert_eq!(media_type(Some("image/png; charset=x")), "image/png");
    assert_eq!(media_type(Some(" image/gif ")), "image/gif");
    assert_eq!(media_type(None), "image/jpeg");
    assert_eq!(media_type(Some("")), "");
}

#[test]
fn three_attempts_are_made() {
    assert!(matches!(explain_attempt(0), RetryStep::Try { wait_secs: 0 }));
    assert!(matches!(explain_attempt(1), RetryStep::Try { wait_secs: 1 }));
    assert!(matches!(explain_attempt(2), RetryStep::Try { wait_secs: 2 }));
    assert!(matches!(explain_attempt(3), RetryStep::GiveUp));
    assert!(is_auth_error(401));
    assert!(is_auth_error(403));
    assert!(!is_auth_error(404));
    assert_eq!(usable_content(None), None);
    assert_eq!(usable_content(Some(" \n".to_owned())), None);
    assert_eq!(usable_content(Some(" a ".to_owned())).as_deref(), Some(" a "));
    assert_eq!(user_content("Who?", "Me"), "Question: Who?\nProvided Answer: Me");
}

#[test]
fn a_usable_picture_is_kept() {
    let (explanation, step) = first_reply("Text.\nIMAGE: https://x/a.png".to_owned());
    assert!(matches!(step, ExplainStep::Resolve { url } if url == "https://x/a.png"));
    let step = explanation.resolved(Some("https://x/b.png".to_owned()));
    let ExplainStep::Done { result } = step else {
        panic!("should be done");
    };
    assert_eq!(result.text, "Text.");
    assert_eq!(result.image_url.as_deref(), Some("https://x/b.png"));
}

#[test]
fn a_broken_picture_does_not_prevent_the_explanation() {
    let (explanation, _) = first_reply("Text.\nIMAGE: https://x/a.png".to_owned());
    assert!(matches!(explanation.resolved(None), ExplainStep::AskTextOnly));
    let result = explanation.second_reply(None);
    assert_eq!(result.text, "Text.");
    assert_eq!(result.image_url, None);
    let (explanation, _) = first_reply("Text.\nIMAGE: https://x/a.png".to_owned());
    assert_eq!(explanation.second_reply(Some("Better.".to_owned())).text, "Better.");
    let (explanation, _) = first_reply("Text.\nIMAGE: https://x/a.png".to_owned());
    assert_eq!(explanation.second_reply(Some("IMAGE: https://x/c".to_owned())).text, "Text.");
}

#[test]
fn without_a_picture_or_a_text_there_is_nothing_to_resolve() {
    let (_, step) = first_reply("Text.".to_owned());
    let ExplainStep::Done { result } = step else {
        panic!("should be done");
    };
    assert_eq!((result.text.as_str(), result.image_url), ("Text.", None));
    let (_, step) = first_reply("\nIMAGE: https://x/a.png".to_owned());
    assert!(matches!(step, ExplainStep::GiveUp));
}

#[test]
fn asking_goes_on_until_there_is_text_or_no_use() {
    let (mut asking, step) = Asking::start();
    assert!(matches!(step, CompletionStep::Ask { wait_secs: 0 }));
    let step = asking.on_reply(Reply::Lost);
    assert!(matches!(step, CompletionStep::Ask { wait_secs: 1 }));
    let step = asking.on_reply(Reply::Failed { status: 404, body: String::new() });
    assert!(matches!(step, CompletionStep::Ask { wait_secs: 2 }));
    let step = asking.on_reply(Reply::Content { content: Some("  ".to_owned()) });
    assert!(matches!(step, CompletionStep::Done { content: None }));

    let (mut asking, _) = Asking::start();
    let step = asking.on_reply(Reply::Failed { status: 403, body: String::new() });
    assert!(matches!(step, CompletionStep::Done { content: None }));

    let (mut asking, _) = Asking::start();
    match asking.on_reply(Reply::Content { content: Some("So.".to_owned()) }) {
        CompletionStep::Done { content } => assert_eq!(content.as_deref(), Some("So.")),
        CompletionStep::Ask { .. } => panic!("there is text"),
    }
}
