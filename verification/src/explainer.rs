//! Explanations of answers: what is asked for, and what is made of the reply.

use vstd::prelude::*;

use crate::groq::{CompletionStep, CompletionView, Reply, ReplyView};
use crate::retry::{backoff, retry_decision, retry_step, RetryStep};
use crate::text::{
    blank, chars_of, contains_sub, copy_range, find_char, has_prefix, has_text, is_blank, is_line,
    is_white, join, join_texts, law_joined_lines_read_back, lemma_find_char_at, lemma_trimmed_of,
    lines_of, matches_at, opt_text, position_of, split_lines, stands_at, text_of, texts, trim,
    trimmed,
};

verus! {

/// Asks for an explanation and an image.
pub const SYSTEM_PROMPT_WITH_IMAGE: &'static str = "\
You are a trivia explanation assistant for a Matrix chat quiz bot.

After each question you receive the question text and its correct answer (sourced from OpenTDB).
Your job is to help players understand and remember the answer.

Write a short, engaging explanation (2–4 sentences) covering why the answer is correct and an \
interesting fact or context. No sections, no headers, no bullet points — just natural prose.

On the very last line, include one image that illustrates the answer:
IMAGE: <url>

Rules for the IMAGE line:
- The most important thing: the image must be the best possible illustration of the answer.
- Only include a URL you are confident actually exists and is publicly accessible. \
If you are not certain the URL is real, omit the IMAGE line — a missing image is better than a broken one.
- Any source is fine: Wikimedia Commons, Wikipedia, news archives, museums, etc.
- Nothing may appear after the IMAGE line.";

/// Asks for an explanation without an image.
pub const SYSTEM_PROMPT_TEXT_ONLY: &'static str = "\
You are a trivia explanation assistant for a Matrix chat quiz bot.

After each question you receive the question text and its correct answer (sourced from OpenTDB).
Your job is to help players understand and remember the answer.

Write a short, engaging explanation (2–4 sentences) covering why the answer is correct and an \
interesting fact or context. No sections, no headers, no bullet points — just natural prose.";

/// How often an explanation is asked for.
pub const MAX_ATTEMPTS: u32 = 3;

/// Seconds to wait for an explanation.
pub const REQUEST_TIMEOUT: u64 = 30;

/// Seconds to wait for news of an image.
pub const IMAGE_TIMEOUT: u64 = 8;

/// Seconds to wait for an image.
pub const FETCH_TIMEOUT: u64 = 15;

/// An explanation.
pub struct ExplainerResult {
    pub text: String,
    /// The address of an image, where there is one.
    pub image_url: Option<String>,
}

/// What an `ExplainerResult` stands for.
pub struct ExplainerView {
    pub text: Seq<char>,
    pub image_url: Option<Seq<char>>,
}

impl View for ExplainerResult {
    type V = ExplainerView;

    open spec fn view(&self) -> ExplainerView {
        ExplainerView { text: self.text@, image_url: opt_text(self.image_url) }
    }
}

/// Decides whether an explanation is asked for once more, after `made`
/// attempts.
pub fn explain_attempt(made: u32) -> (r: RetryStep)
    ensures
        r == retry_decision(made as nat, MAX_ATTEMPTS as nat),
        r is GiveUp <==> made >= 3,
{
    retry_step(made, MAX_ATTEMPTS)
}

/// Whether a status makes further attempts useless: the key is refused.
pub fn is_auth_error(status: u16) -> (r: bool)
    ensures
        r == (status == 401 || status == 403),
{
    status == 401 || status == 403
}

/// The text of a reply, if it has any to use.
pub fn usable_content(content: Option<String>) -> (r: Option<String>)
    ensures
        content is Some && !is_blank(content->0@) ==> r == content,
        content is None || is_blank(content->0@) ==> r is None,
{
    match content {
        Some(text) => {
            if blank(text.as_str()) {
                None
            } else {
                Some(text)
            }
        },
        None => None,
    }
}

/// What follows a reply to the attempt number `made`: a refused key ends the
/// attempts, and so does a text that is not blank.
pub open spec fn asking_step(made: nat, reply: ReplyView) -> CompletionView {
    let again: CompletionView = if made < MAX_ATTEMPTS {
        CompletionView::Ask { wait_secs: backoff(made) }
    } else {
        CompletionView::Done { content: None }
    };
    match reply {
        ReplyView::Lost => again,
        ReplyView::Failed { status, body } => if status == 401 || status == 403 {
            CompletionView::Done { content: None }
        } else {
            again
        },
        ReplyView::Content { content } => if content is Some && !is_blank(content->0) {
            CompletionView::Done { content }
        } else {
            again
        },
    }
}

/// Asking for an explanation.
pub struct Asking {
    /// Attempts that were made.
    pub made: u32,
}

impl Asking {
    /// The first attempt.
    pub fn start() -> (r: (Asking, CompletionStep))
        ensures
            r.0.made == 1,
            r.1@ == (CompletionView::Ask { wait_secs: 0 }),
    {
        (Asking { made: 1 }, CompletionStep::Ask { wait_secs: 0 })
    }

    fn again(&mut self) -> (r: CompletionStep)
        requires
            1 <= old(self).made <= MAX_ATTEMPTS,
        ensures
            r@ == asking_step(old(self).made as nat, ReplyView::Lost),
            r is Ask ==> final(self).made == old(self).made + 1,
            r !is Ask ==> final(self).made == old(self).made,
    {
        match explain_attempt(self.made) {
            RetryStep::Try { wait_secs } => {
                self.made = self.made + 1;
                CompletionStep::Ask { wait_secs }
            },
            RetryStep::GiveUp => CompletionStep::Done { content: None },
        }
    }

    /// Goes on after a reply.
    pub fn on_reply(&mut self, reply: Reply) -> (r: CompletionStep)
        requires
            1 <= old(self).made <= MAX_ATTEMPTS,
        ensures
            r@ == asking_step(old(self).made as nat, reply@),
            r is Ask ==> final(self).made == old(self).made + 1 <= MAX_ATTEMPTS,
            r !is Ask ==> final(self).made == old(self).made,
    {
        match reply {
            Reply::Lost => self.again(),
            Reply::Failed { status, body: _ } => {
                if is_auth_error(status) {
                    CompletionStep::Done { content: None }
                } else {
                    self.again()
                }
            },
            Reply::Content { content } => match usable_content(content) {
                Some(text) => CompletionStep::Done { content: Some(text) },
                None => self.again(),
            },
        }
    }
}

/// What is told about a question.
pub fn user_content(question: &str, answer: &str) -> (r: String)
    ensures
        r@ == "Question: "@ + question@ + "\nProvided Answer: "@ + answer@,
{
    let mut out = "Question: ".to_owned();
    out.append(question);
    out.append("\nProvided Answer: ");
    out.append(answer);
    out
}

// ── Replies ──────────────────────────────────────────────────────────────────

/// Whether a line names an image.
pub open spec fn is_image_line(line: Seq<char>) -> bool {
    "IMAGE:"@.is_prefix_of(line)
}

/// The address that a line names, if it looks like one.
pub open spec fn image_in(line: Seq<char>) -> Option<Seq<char>> {
    let url: Seq<char> = trimmed(line.skip("IMAGE:"@.len() as int));
    if is_image_line(line) && "http"@.is_prefix_of(url) {
        Some(url)
    } else {
        None
    }
}

/// The last image that lines name.
pub open spec fn last_image(lines: Seq<Seq<char>>) -> Option<Seq<char>>
    decreases lines.len(),
{
    if lines.len() == 0 {
        None
    } else if image_in(lines.last()) is Some {
        image_in(lines.last())
    } else {
        last_image(lines.drop_last())
    }
}

/// Lines without the blank ones at the end.
pub open spec fn drop_blank_end(lines: Seq<Seq<char>>) -> Seq<Seq<char>>
    decreases lines.len(),
{
    if lines.len() > 0 && is_blank(lines.last()) {
        drop_blank_end(lines.drop_last())
    } else {
        lines
    }
}

/// The explanation in a reply: all lines but those that name an image.
pub open spec fn explanation_in(raw: Seq<char>) -> Seq<char> {
    join(drop_blank_end(lines_of(raw).filter(|l: Seq<char>| !is_image_line(l))), "\n"@)
}

/// Parts a reply into the explanation and the address of an image.
pub fn parse_response(raw: String) -> (r: (String, Option<String>))
    ensures
        r.0@ == explanation_in(raw@),
        opt_text(r.1) == last_image(lines_of(raw@)),
{
    let lines = split_lines(raw.as_str());
    let ghost all: Seq<Seq<char>> = texts(lines@);
    let ghost keep = |l: Seq<char>| !is_image_line(l);
    let mut kept: Vec<String> = Vec::new();
    let mut image: Option<String> = None;
    let mut i: usize = 0;
    proof {
        reveal_strlit("IMAGE:");
        assert(all.take(0).filter(keep) =~= Seq::<Seq<char>>::empty()) by {
            reveal(Seq::filter);
        }
    }
    while i < lines.len()
        invariant
            i <= lines.len(),
            all == texts(lines@),
            keep == (|l: Seq<char>| !is_image_line(l)),
            "IMAGE:"@.len() == 6,
            texts(kept@) == all.take(i as int).filter(keep),
            opt_text(image) == last_image(all.take(i as int)),
        decreases lines.len() - i,
    {
        let ghost line: Seq<char> = lines@[i as int]@;
        proof {
            assert(all.take(i + 1).drop_last() =~= all.take(i as int));
            assert(all.take(i + 1).last() == line);
            reveal(Seq::filter);
        }
        if has_prefix(lines[i].as_str(), "IMAGE:") {
            let chars = chars_of(lines[i].as_str());
            let rest = copy_range(&chars, 6, chars.len());
            assert(rest@ =~= line.skip(6));
            let url = text_of(&trim(&rest));
            if has_prefix(url.as_str(), "http") {
                image = Some(url);
            }
        } else {
            let ghost before: Seq<String> = kept@;
            kept.push(lines[i].clone());
            assert(texts(kept@) =~= texts(before).push(line));
        }
        i = i + 1;
    }
    assert(all.take(lines.len() as int) =~= all);
    let ghost full: Seq<Seq<char>> = texts(kept@);
    while kept.len() > 0 && blank(kept[kept.len() - 1].as_str())
        invariant
            drop_blank_end(full) == drop_blank_end(texts(kept@)),
        ensures
            kept.len() == 0 || !is_blank(kept@.last()@),
            drop_blank_end(full) == drop_blank_end(texts(kept@)),
        decreases kept.len(),
    {
        let ghost before: Seq<String> = kept@;
        let last = kept.pop();
        proof {
            assert(texts(kept@) =~= texts(before).drop_last());
            assert(texts(before).last() == before.last()@);
        }
    }
    proof {
        if kept.len() > 0 {
            assert(texts(kept@).last() == kept@.last()@);
        }
        assert(drop_blank_end(texts(kept@)) == texts(kept@));
    }
    (join_texts(&kept, "\n"), image)
}

// ── Images ───────────────────────────────────────────────────────────────────

/// Where `p` first stands in `s` from `from` on, or the length of `s`.
pub open spec fn find_from(s: Seq<char>, p: Seq<char>, from: int) -> int
    decreases s.len() - from,
{
    if from >= s.len() {
        s.len() as int
    } else if stands_at(s, p, from) {
        from
    } else {
        find_from(s, p, from + 1)
    }
}

fn position_from(s: &Vec<char>, p: &Vec<char>, from: usize) -> (r: usize)
    requires
        from <= s.len(),
        p.len() > 0,
    ensures
        r == find_from(s@, p@, from as int),
        from <= r <= s.len(),
        r < s.len() ==> stands_at(s@, p@, r as int),
{
    let mut i: usize = from;
    while i < s.len()
        invariant
            from <= i <= s.len(),
            find_from(s@, p@, from as int) == find_from(s@, p@, i as int),
        decreases s.len() - i,
    {
        if matches_at(s, p, i) {
            return i;
        }
        i = i + 1;
    }
    i
}

/// What stands between the first and the second "/wiki/" of an address, or
/// after the first.
pub open spec fn title_in(url: Seq<char>) -> Option<Seq<char>> {
    let first: int = find_from(url, "/wiki/"@, 0);
    if first < url.len() {
        let from: int = first + 6;
        Some(url.subrange(from, find_from(url, "/wiki/"@, from)))
    } else {
        None
    }
}

/// The title of the file that a page of Wikimedia Commons shows.
pub fn commons_title(url: &str) -> (r: Option<String>)
    ensures
        opt_text(r) == title_in(url@),
{
    let s = chars_of(url);
    let p = chars_of("/wiki/");
    proof {
        reveal_strlit("/wiki/");
    }
    let first: usize = position_from(&s, &p, 0);
    if first < s.len() {
        let from: usize = first + 6;
        let to: usize = position_from(&s, &p, from);
        Some(text_of(&copy_range(&s, from, to)))
    } else {
        None
    }
}

/// Where Wikimedia Commons is asked for the address of a file.
pub fn commons_api_url(title: &str) -> (r: String)
    ensures
        r@ == "https://commons.wikimedia.org/w/api.php?action=query&titles="@ + title@
            + "&prop=imageinfo&iiprop=url&format=json"@,
{
    let mut out = "https://commons.wikimedia.org/w/api.php?action=query&titles=".to_owned();
    out.append(title);
    out.append("&prop=imageinfo&iiprop=url&format=json");
    out
}

/// Whether an address is a page of Wikimedia Commons.
pub fn is_commons_page(url: &str) -> (r: bool)
    ensures
        r == has_text(url@, "commons.wikimedia.org/wiki/"@),
{
    contains_sub(url, "commons.wikimedia.org/wiki/")
}

/// Whether an answer about an address shows that an image is there.
pub fn is_image(status: u16, content_type: &str) -> (r: bool)
    ensures
        r == (200 <= status < 300 && "image/"@.is_prefix_of(content_type@)),
{
    200 <= status && status < 300 && has_prefix(content_type, "image/")
}

/// The type in a content type, without its parameters.
pub open spec fn bare_type(content_type: Seq<char>) -> Seq<char> {
    trimmed(content_type.take(find_char(content_type, ';') as int))
}

/// The type of an image that was downloaded: "image/jpeg" where nothing is
/// said.
pub fn media_type(content_type: Option<&str>) -> (r: String)
    ensures
        r@ == (match content_type {
            Some(t) => bare_type(t@),
            None => bare_type("image/jpeg"@),
        }),
{
    let chars = match content_type {
        Some(t) => chars_of(t),
        None => chars_of("image/jpeg"),
    };
    let n: usize = position_of(&chars, ';');
    let head = copy_range(&chars, 0, n);
    assert(head@ =~= chars@.take(n as int));
    text_of(&trim(&head))
}

// ── The course of an explanation ─────────────────────────────────────────────

/// What explaining an answer does next.
pub enum ExplainStep {
    /// There is no explanation.
    GiveUp,
    /// Find out whether an image is there, then go on with `resolved`.
    Resolve { url: String },
    /// Ask again, without an image, then go on with `second_reply`.
    AskTextOnly,
    /// The explanation is there.
    Done { result: ExplainerResult },
}

/// An explanation in the making.
pub struct Explanation {
    /// The text of the first reply.
    pub text: String,
}

/// What a first reply leads to: the text, and what to do.
pub fn first_reply(raw: String) -> (r: (Explanation, ExplainStep))
    ensures
        r.0.text@ == explanation_in(raw@),
        is_blank(explanation_in(raw@)) ==> r.1 is GiveUp,
        !is_blank(explanation_in(raw@)) && last_image(lines_of(raw@)) is Some ==> r.1 is Resolve
            && r.1->url@ == last_image(lines_of(raw@))->0,
        !is_blank(explanation_in(raw@)) && last_image(lines_of(raw@)) is None ==> r.1 is Done
            && r.1->result@ == (ExplainerView {
            text: explanation_in(raw@),
            image_url: None,
        }),
{
    let (text, image) = parse_response(raw);
    if blank(text.as_str()) {
        return (Explanation { text }, ExplainStep::GiveUp);
    }
    match image {
        Some(url) => (Explanation { text }, ExplainStep::Resolve { url }),
        None => {
            let result = ExplainerResult { text: text.clone(), image_url: None };
            (Explanation { text }, ExplainStep::Done { result })
        },
    }
}

impl Explanation {
    /// Goes on when it is known whether the image is there.
    pub fn resolved(&self, image_url: Option<String>) -> (r: ExplainStep)
        ensures
            image_url is Some ==> r is Done && r->result@ == (ExplainerView {
                text: self.text@,
                image_url: opt_text(image_url),
            }),
            image_url is None ==> r is AskTextOnly,
    {
        match image_url {
            Some(url) => ExplainStep::Done {
                result: ExplainerResult { text: self.text.clone(), image_url: Some(url) },
            },
            None => ExplainStep::AskTextOnly,
        }
    }

    /// Takes the second reply, or the text of the first where it has none.
    pub fn second_reply(self, raw: Option<String>) -> (r: ExplainerResult)
        ensures
            r@ == (ExplainerView {
                text: (if raw is Some && !is_blank(explanation_in(raw->0@)) {
                    explanation_in(raw->0@)
                } else {
                    self.text@
                }),
                image_url: None,
            }),
    {
        match raw {
            Some(text) => {
                let (second, image) = parse_response(text);
                if blank(second.as_str()) {
                    ExplainerResult { text: self.text, image_url: None }
                } else {
                    ExplainerResult { text: second, image_url: None }
                }
            },
            None => ExplainerResult { text: self.text, image_url: None },
        }
    }
}

/// No line of the explanation names an image, whatever became of it.
pub proof fn law_explanation_has_no_image_line(raw: Seq<char>, i: int)
    requires
        0 <= i < drop_blank_end(lines_of(raw).filter(|l: Seq<char>| !is_image_line(l))).len(),
    ensures
        !is_image_line(drop_blank_end(lines_of(raw).filter(|l: Seq<char>| !is_image_line(l)))[i]),
{
    let keep = |l: Seq<char>| !is_image_line(l);
    let kept: Seq<Seq<char>> = lines_of(raw).filter(keep);
    lemma_drop_blank_end(kept);
    lines_of(raw).lemma_filter_pred(keep, i);
}

proof fn lemma_drop_blank_end(lines: Seq<Seq<char>>)
    ensures
        drop_blank_end(lines).len() <= lines.len(),
        forall|i: int|
            0 <= i < drop_blank_end(lines).len() ==> #[trigger] drop_blank_end(lines)[i]
                == lines[i],
    decreases lines.len(),
{
    if lines.len() > 0 && is_blank(lines.last()) {
        lemma_drop_blank_end(lines.drop_last());
    }
}

/// Once there is text, there is an explanation: an image that cannot be had
/// does not prevent it.
pub proof fn law_a_missing_image_does_not_prevent_the_explanation(
    first: Seq<char>,
    second: Option<Seq<char>>,
)
    requires
        !is_blank(first),
    ensures
        !is_blank(
            if second is Some && !is_blank(explanation_in(second->0)) {
                explanation_in(second->0)
            } else {
                first
            },
        ),
{
}

// ── Laws of replies ──────────────────────────────────────────────────────────

/// A line "IMAGE:" with an address behind it names that address, whatever white
/// space is around; an address is what begins with "http".
pub proof fn law_image_lines_name_their_address(
    before: Seq<char>,
    url: Seq<char>,
    after: Seq<char>,
)
    requires
        url.len() > 0,
        !is_white(url[0]),
        !is_white(url.last()),
        forall|i: int| 0 <= i < before.len() ==> is_white(#[trigger] before[i]),
        forall|i: int| 0 <= i < after.len() ==> is_white(#[trigger] after[i]),
    ensures
        image_in("IMAGE:"@ + before + url + after) == (if "http"@.is_prefix_of(url) {
            Some(url)
        } else {
            None
        }),
{
    let mark: Seq<char> = "IMAGE:"@;
    let line: Seq<char> = mark + before + url + after;
    assert(line.take(mark.len() as int) =~= mark);
    assert(line.skip(mark.len() as int) =~= before + url + after);
    lemma_trimmed_of(before, url, after);
}

/// The image of a reply is that of the last line that names one.
pub proof fn law_the_last_image_counts(lines: Seq<Seq<char>>, i: int)
    requires
        0 <= i < lines.len(),
        forall|j: int| i < j < lines.len() ==> image_in(#[trigger] lines[j]) is None,
    ensures
        image_in(lines[i]) is Some ==> last_image(lines) == image_in(lines[i]),
        last_image(lines) is Some ==> exists|k: int|
            0 <= k <= i && image_in(#[trigger] lines[k]) == last_image(lines),
    decreases lines.len(),
{
    if i == lines.len() - 1 {
        assert(lines[i] == lines.last());
        if image_in(lines[i]) is None && last_image(lines) is Some {
            lemma_some_image(lines.drop_last());
            let k: int = choose|k: int|
                0 <= k < lines.drop_last().len() && image_in(#[trigger] lines.drop_last()[k])
                    == last_image(lines.drop_last());
            assert(lines[k] == lines.drop_last()[k]);
        }
    } else {
        let head: Seq<Seq<char>> = lines.drop_last();
        assert(image_in(lines[lines.len() - 1]) is None);
        assert forall|j: int| i < j < head.len() implies image_in(#[trigger] head[j]) is None by {
            assert(head[j] == lines[j]);
        }
        law_the_last_image_counts(head, i);
        if last_image(lines) is Some {
            let k: int = choose|k: int|
                0 <= k <= i && image_in(#[trigger] head[k]) == last_image(head);
            assert(lines[k] == head[k]);
        }
    }
}

proof fn lemma_some_image(lines: Seq<Seq<char>>)
    requires
        last_image(lines) is Some,
    ensures
        exists|k: int| 0 <= k < lines.len() && image_in(#[trigger] lines[k]) == last_image(lines),
    decreases lines.len(),
{
    if image_in(lines.last()) is Some {
        assert(image_in(lines[lines.len() - 1]) == last_image(lines));
    } else {
        let head: Seq<Seq<char>> = lines.drop_last();
        lemma_some_image(head);
        let k: int = choose|k: int|
            0 <= k < head.len() && image_in(#[trigger] head[k]) == last_image(head);
        assert(lines[k] == head[k]);
    }
}

/// Only blank lines at the end are dropped: what is left ends in a line that is
/// not blank, and all lines behind it are.
pub proof fn law_only_blank_ends_are_dropped(lines: Seq<Seq<char>>)
    ensures
        ({
            let kept: Seq<Seq<char>> = drop_blank_end(lines);
            &&& kept.len() <= lines.len()
            &&& kept == lines.take(kept.len() as int)
            &&& kept.len() > 0 ==> !is_blank(kept.last())
            &&& forall|i: int| kept.len() <= i < lines.len() ==> is_blank(#[trigger] lines[i])
        }),
    decreases lines.len(),
{
    if lines.len() > 0 && is_blank(lines.last()) {
        let head: Seq<Seq<char>> = lines.drop_last();
        law_only_blank_ends_are_dropped(head);
        let kept: Seq<Seq<char>> = drop_blank_end(lines);
        assert(head.take(kept.len() as int) =~= lines.take(kept.len() as int));
        assert forall|i: int| kept.len() <= i < lines.len() implies is_blank(
            #[trigger] lines[i],
        ) by {
            if i < head.len() {
                assert(head[i] == lines[i]);
            }
        }
    } else {
        assert(lines.take(lines.len() as int) =~= lines);
    }
}

/// An explanation that names no image is kept whole, line by line, where its
/// last line is not blank.
pub proof fn law_plain_explanations_are_kept(lines: Seq<Seq<char>>)
    requires
        lines.len() > 0,
        forall|i: int|
            0 <= i < lines.len() ==> is_line(#[trigger] lines[i]) && !"IMAGE:"@.is_prefix_of(
                lines[i],
            ),
        !is_blank(lines.last()),
    ensures
        explanation_in(join(lines, "\n"@)) == join(lines, "\n"@),
        last_image(lines_of(join(lines, "\n"@))) is None,
{
    assert(lines.last().len() > 0) by {
        if lines.last().len() == 0 {
            assert(trimmed(lines.last()).len() == 0);
        }
    }
    law_joined_lines_read_back(lines);
    lemma_no_image_lines(lines);
}

proof fn lemma_no_image_lines(lines: Seq<Seq<char>>)
    requires
        forall|i: int| 0 <= i < lines.len() ==> !"IMAGE:"@.is_prefix_of(#[trigger] lines[i]),
    ensures
        lines.filter(|l: Seq<char>| !is_image_line(l)) == lines,
        last_image(lines) is None,
    decreases lines.len(),
{
    reveal(Seq::filter);
    if lines.len() > 0 {
        let head: Seq<Seq<char>> = lines.drop_last();
        assert forall|i: int| 0 <= i < head.len() implies !"IMAGE:"@.is_prefix_of(
            #[trigger] head[i],
        ) by {
            assert(head[i] == lines[i]);
        }
        lemma_no_image_lines(head);
        assert(!is_image_line(lines[lines.len() - 1]));
        assert(head.push(lines.last()) =~= lines);
    }
}

/// The title of a page is what follows "/wiki/" in its address.
pub proof fn law_titles_follow_wiki(front: Seq<char>, title: Seq<char>)
    requires
        forall|i: int| 0 <= i < front.len() ==> !stands_at(
            front + "/wiki/"@ + title,
            "/wiki/"@,
            i,
        ),
        forall|i: int| front.len() < i ==> !stands_at(front + "/wiki/"@ + title, "/wiki/"@, i),
    ensures
        title_in(front + "/wiki/"@ + title) == Some(title),
{
    reveal_strlit("/wiki/");
    let p: Seq<char> = "/wiki/"@;
    let url: Seq<char> = front + p + title;
    let n: int = front.len() as int;
    assert(url.subrange(n, n + p.len()) =~= p);
    assert(stands_at(url, p, n));
    lemma_find_from(url, p, 0, n);
    lemma_find_none(url, p, n + 6);
    assert(url.subrange(n + 6, url.len() as int) =~= title);
}

proof fn lemma_find_from(s: Seq<char>, p: Seq<char>, from: int, n: int)
    requires
        0 <= from <= n < s.len(),
        stands_at(s, p, n),
        forall|i: int| from <= i < n ==> !stands_at(s, p, i),
    ensures
        find_from(s, p, from) == n,
    decreases n - from,
{
    if from < n {
        assert(!stands_at(s, p, from));
        lemma_find_from(s, p, from + 1, n);
    }
}

proof fn lemma_find_none(s: Seq<char>, p: Seq<char>, from: int)
    requires
        0 <= from,
        forall|i: int| from <= i ==> !stands_at(s, p, i),
    ensures
        find_from(s, p, from) == s.len(),
    decreases s.len() - from,
{
    if from < s.len() {
        assert(!stands_at(s, p, from));
        lemma_find_none(s, p, from + 1);
    }
}

/// The type of an image is what stands before the first semicolon, trimmed.
pub proof fn law_types_end_at_a_semicolon(kind: Seq<char>, parameters: Seq<char>)
    requires
        !kind.contains(';'),
    ensures
        bare_type(kind + seq![';'] + parameters) == trimmed(kind),
        bare_type(kind) == trimmed(kind),
{
    let whole: Seq<char> = kind + seq![';'] + parameters;
    let n: int = kind.len() as int;
    assert forall|i: int| 0 <= i < n implies whole[i] != ';' && kind[i] != ';' by {
        assert(kind.contains(kind[i]));
    }
    lemma_find_char_at(whole, ';', n);
    lemma_find_char_at(kind, ';', n);
    assert(whole.take(n) =~= kind);
    assert(kind.take(n) =~= kind);
}

/// Asking for an explanation ends with the first text that is not blank, which
/// is taken as it came, and with a refused key; otherwise it goes on as long as
/// attempts are left, with longer and longer waits.
pub proof fn law_asking_ends_with_a_text(made: nat, text: Seq<char>, reply: ReplyView)
    requires
        !is_blank(text),
    ensures
        asking_step(made, (ReplyView::Content { content: Some(text) })) == (CompletionView::Done {
            content: Some(text),
        }),
        reply is Failed && (reply->status == 401 || reply->status == 403) ==> asking_step(
            made,
            reply,
        ) == (CompletionView::Done { content: None }),
        reply is Lost || reply is Content && (reply->content is None || is_blank(
            reply->content->0,
        )) || reply is Failed && reply->status != 401 && reply->status != 403 ==> asking_step(
            made,
            reply,
        ) == (if made < 3 {
            CompletionView::Ask { wait_secs: backoff(made) }
        } else {
            CompletionView::Done { content: None }
        }),
{
}

/// The title of a page ends before a second "/wiki/".
pub proof fn law_titles_end_before_the_next(url: Seq<char>, first: int, second: int)
    requires
        0 <= first,
        first + 6 <= second < url.len(),
        stands_at(url, "/wiki/"@, first),
        stands_at(url, "/wiki/"@, second),
        forall|i: int| 0 <= i < first ==> !stands_at(url, "/wiki/"@, i),
        forall|i: int| first + 6 <= i < second ==> !stands_at(url, "/wiki/"@, i),
    ensures
        title_in(url) == Some(url.subrange(first + 6, second)),
{
    lemma_find_from(url, "/wiki/"@, 0, first);
    lemma_find_from(url, "/wiki/"@, first + 6, second);
}

/// An address without "/wiki/" has no title.
pub proof fn law_other_pages_have_no_title(url: Seq<char>)
    requires
        !has_text(url, "/wiki/"@),
    ensures
        title_in(url) is None,
{
    lemma_find_none(url, "/wiki/"@, 0);
}

/// Blank lines and images behind the last line of text are left out.
pub proof fn law_what_follows_the_text_is_left_out(lines: Seq<Seq<char>>, end: Seq<Seq<char>>)
    requires
        lines.len() > 0,
        forall|i: int|
            0 <= i < lines.len() ==> is_line(#[trigger] lines[i]) && !"IMAGE:"@.is_prefix_of(
                lines[i],
            ),
        !is_blank(lines.last()),
        forall|i: int|
            0 <= i < end.len() ==> is_line(#[trigger] end[i]) && (is_blank(end[i])
                || "IMAGE:"@.is_prefix_of(end[i])),
        end.len() > 0,
        end.last().len() > 0,
    ensures
        explanation_in(join(lines + end, "\n"@)) == join(lines, "\n"@),
{
    let all: Seq<Seq<char>> = lines + end;
    let keep = |l: Seq<char>| !is_image_line(l);
    assert forall|i: int| 0 <= i < all.len() implies is_line(#[trigger] all[i]) by {
        if i < lines.len() {
            assert(all[i] == lines[i]);
        } else {
            assert(all[i] == end[i - lines.len()]);
        }
    }
    law_joined_lines_read_back(all);
    Seq::filter_distributes_over_add(lines, end, keep);
    lemma_no_image_lines(lines);
    let rest: Seq<Seq<char>> = end.filter(keep);
    assert forall|i: int| 0 <= i < rest.len() implies is_blank(#[trigger] rest[i]) by {
        end.lemma_filter_pred(keep, i);
        end.lemma_filter_contains_rev(keep, rest[i]);
        let j: int = end.index_of(rest[i]);
        assert(end[j] == rest[i]);
    }
    let kept: Seq<Seq<char>> = lines + rest;
    assert(all.filter(keep) == kept);
    law_only_blank_ends_are_dropped(kept);
    let n: int = drop_blank_end(kept).len() as int;
    if n < lines.len() {
        assert(kept[lines.len() - 1] == lines.last());
    } else if n > lines.len() {
        assert(drop_blank_end(kept).last() == kept[n - 1]);
        assert(kept[n - 1] == rest[n - 1 - lines.len()]);
    }
    assert(kept.take(n) =~= lines);
}

} // verus!
