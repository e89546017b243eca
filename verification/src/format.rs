//! Messages: mention pills, bold and struck-out text.

use matrix_sdk::ruma::OwnedUserId;
use vstd::prelude::*;
use vstd::utf8::encode_utf8;

use crate::names::{name_texts, NameMap};
use crate::text::{
    chars_of, contains_text, control, copy_range, find_char, has_text, is_control, is_white,
    lemma_find_char_at, lemma_nothing_to_trim, lemma_trimmed_ends, position_of, stands_at, text_of, texts, trim_end_of,
    trim_start, trim_start_of, trimmed, white, CharClass,
};

verus! {

/// Whether ruma's `OwnedUserId::try_from` takes a text for a user ID.
pub uninterp spec fn valid_user_id(s: Seq<char>) -> bool;

/// ruma's `OwnedUserId::try_from`: whether it succeeds depends on the text
/// alone. The ID that it makes is that text.
#[verifier::external_body]
fn ruma_user_id(s: &str) -> (r: bool)
    ensures
        r == valid_user_id(s@),
{
    OwnedUserId::try_from(s).is_ok()
}

// ── Names ────────────────────────────────────────────────────────────────────

/// A display name without control characters, trimmed.
pub open spec fn cleaned_name(name: Seq<char>) -> Seq<char> {
    trimmed(
        name.map_values(
            |c: char|
                if is_control(c) {
                    ' '
                } else {
                    c
                },
        ),
    )
}

/// Cleans a display name for a pill: control characters become spaces, and
/// the ends are trimmed. Nothing is left of a blank name.
pub fn sanitize_display_name(name: &str) -> (r: Option<String>)
    ensures
        cleaned_name(name@).len() == 0 ==> r is None,
        cleaned_name(name@).len() > 0 ==> r is Some && r->0@ == cleaned_name(name@),
{
    let chars = chars_of(name);
    let mut out: Vec<char> = Vec::new();
    let mut i: usize = 0;
    while i < chars.len()
        invariant
            i <= chars.len(),
            out.len() == i,
            forall|j: int|
                0 <= j < i ==> #[trigger] out@[j] == (if is_control(chars@[j]) {
                    ' '
                } else {
                    chars@[j]
                }),
        decreases chars.len() - i,
    {
        out.push(
            if control(chars[i]) {
                ' '
            } else {
                chars[i]
            },
        );
        i = i + 1;
    }
    assert(out@ =~= name@.map_values(
        |c: char|
            if is_control(c) {
                ' '
            } else {
                c
            },
    ));
    let cleaned = crate::text::trim(&out);
    if cleaned.len() == 0 {
        None
    } else {
        Some(text_of(&cleaned))
    }
}

/// The label of a user ID: what stands before its first colon, without the @.
pub open spec fn short_label(token: Seq<char>) -> Seq<char> {
    trim_start_of(token.take(find_char(token, ':') as int), CharClass::At)
}

fn default_label(token: &Vec<char>) -> (r: Vec<char>)
    ensures
        r@ == short_label(token@),
{
    let n: usize = position_of(token, ':');
    let head = copy_range(token, 0, n);
    assert(head@ =~= token@.take(n as int));
    trim_start(&head, &CharClass::At)
}

/// The label of a user ID: the name that is known of it, or its short label.
pub open spec fn label_of(token: Seq<char>, names: Map<Seq<char>, Seq<char>>) -> Seq<char> {
    if names.dom().contains(token) {
        names[token]
    } else {
        short_label(token)
    }
}

// ── Markup ───────────────────────────────────────────────────────────────────

/// A character of an attribute or a label in markup.
pub open spec fn escaped_char(c: char) -> Seq<char> {
    if c == '&' {
        "&amp;"@
    } else if c == '<' {
        "&lt;"@
    } else if c == '>' {
        "&gt;"@
    } else if c == '"' {
        "&quot;"@
    } else if c == '\'' {
        "&#39;"@
    } else {
        seq![c]
    }
}

/// An attribute or a label in markup.
pub open spec fn escaped(s: Seq<char>) -> Seq<char>
    decreases s.len(),
{
    if s.len() == 0 {
        Seq::empty()
    } else {
        escaped(s.drop_last()) + escaped_char(s.last())
    }
}

fn push_escaped(out: &mut String, value: &Vec<char>)
    ensures
        final(out)@ == old(out)@ + escaped(value@),
{
    let ghost start: Seq<char> = out@;
    let mut i: usize = 0;
    assert(value@.take(0) =~= Seq::<char>::empty());
    while i < value.len()
        invariant
            i <= value.len(),
            out@ == start + escaped(value@.take(i as int)),
        decreases value.len() - i,
    {
        let c: char = value[i];
        proof {
            assert(value@.take(i + 1).drop_last() =~= value@.take(i as int));
            assert(value@.take(i + 1).last() == c);
        }
        if c == '&' {
            out.append("&amp;");
        } else if c == '<' {
            out.append("&lt;");
        } else if c == '>' {
            out.append("&gt;");
        } else if c == '"' {
            out.append("&quot;");
        } else if c == '\'' {
            out.append("&#39;");
        } else {
            out.push(c);
            assert(out@ =~= start + escaped(value@.take(i as int)) + seq![c]);
        }
        assert(out@ =~= start + escaped(value@.take(i + 1)));
        i = i + 1;
    }
    assert(value@.take(value.len() as int) =~= value@);
}

/// A character of the text itself in markup.
pub open spec fn body_char(c: char) -> Seq<char> {
    if c == '&' {
        "&amp;"@
    } else if c == '<' {
        "&lt;"@
    } else if c == '>' {
        "&gt;"@
    } else if c == '"' {
        "&quot;"@
    } else if c == '\n' {
        "<br>"@
    } else {
        seq![c]
    }
}

/// Whether a user ID ends before this character.
pub open spec fn ends_token(c: char) -> bool {
    is_white(c) || c == ',' || c == '!' || c == '?' || c == '*' || c == ')' || c == ']' || c == '"'
        || c == '\''
}

/// How many characters of `s` stand before the first that ends a user ID.
pub open spec fn token_len(s: Seq<char>) -> nat
    decreases s.len(),
{
    if s.len() == 0 || ends_token(s[0]) {
        0
    } else {
        1 + token_len(s.skip(1))
    }
}

proof fn lemma_token_len(s: Seq<char>)
    ensures
        token_len(s) <= s.len(),
    decreases s.len(),
{
    if s.len() > 0 && !ends_token(s[0]) {
        lemma_token_len(s.skip(1));
    }
}

/// Whether a token is shown as a pill: it is longer than four bytes and holds
/// a colon.
pub open spec fn is_pill(token: Seq<char>) -> bool {
    encode_utf8(token).len() > 4 && token.contains(':')
}

/// The token that a pill is made of, if `s` begins with one.
pub open spec fn pill_at(s: Seq<char>) -> Option<Seq<char>> {
    if s.len() > 0 && s[0] == '@' && is_pill(s.take(token_len(s) as int)) {
        Some(s.take(token_len(s) as int))
    } else {
        None
    }
}

/// Whether `s` begins with a character twice.
pub open spec fn doubled_at(s: Seq<char>, c: char) -> bool {
    s.len() >= 2 && s[0] == c && s[1] == c
}

/// The markup of a pill.
pub open spec fn pill_html(token: Seq<char>, label: Seq<char>) -> Seq<char> {
    "<a href=\"https://matrix.to/#/"@ + escaped(token) + "\">"@ + escaped(label) + "</a>"@
}

/// A message as it is shown.
#[verifier::ext_equal]
pub struct Rendering {
    pub plain: Seq<char>,
    pub html: Seq<char>,
    /// Whether the markup says more than the plain text.
    pub marked: bool,
    /// The users that are mentioned.
    pub mentions: Set<Seq<char>>,
}

impl Rendering {
    /// What is shown before the rest.
    pub open spec fn before(
        plain: Seq<char>,
        html: Seq<char>,
        marked: bool,
        mentions: Set<Seq<char>>,
        rest: Rendering,
    ) -> Rendering {
        Rendering {
            plain: plain + rest.plain,
            html: html + rest.html,
            marked: marked || rest.marked,
            mentions: mentions.union(rest.mentions),
        }
    }
}

/// How a text is shown: `**` turns bold on and off, `~~` strikes out, and user
/// IDs become pills.
pub open spec fn rendered(
    s: Seq<char>,
    bold: bool,
    strike: bool,
    names: Map<Seq<char>, Seq<char>>,
) -> Rendering
    decreases s.len(),
{
    if s.len() == 0 {
        Rendering {
            plain: Seq::empty(),
            html: (if bold {
                "</strong>"@
            } else {
                Seq::empty()
            }) + (if strike {
                "</del>"@
            } else {
                Seq::empty()
            }),
            marked: false,
            mentions: Set::empty(),
        }
    } else if doubled_at(s, '*') {
        Rendering::before(
            Seq::empty(),
            if bold {
                "</strong>"@
            } else {
                "<strong>"@
            },
            true,
            Set::empty(),
            rendered(s.skip(2), !bold, strike, names),
        )
    } else if doubled_at(s, '~') {
        Rendering::before(
            Seq::empty(),
            if strike {
                "</del>"@
            } else {
                "<del>"@
            },
            true,
            Set::empty(),
            rendered(s.skip(2), bold, !strike, names),
        )
    } else {
        match pill_at(s) {
            Some(token) => {
                let n: nat = token_len(s);
                if 0 < n <= s.len() {
                    Rendering::before(
                        label_of(token, names),
                        pill_html(token, label_of(token, names)),
                        true,
                        if valid_user_id(token) {
                            Set::empty().insert(token)
                        } else {
                            Set::empty()
                        },
                        rendered(s.skip(n as int), bold, strike, names),
                    )
                } else {
                    arbitrary()
                }
            },
            None => Rendering::before(
                seq![s[0]],
                body_char(s[0]),
                false,
                Set::empty(),
                rendered(s.skip(1), bold, strike, names),
            ),
        }
    }
}

/// A message that is ready to be sent.
pub struct Message {
    pub plain: String,
    /// Markup, where it says more than the plain text.
    pub html: Option<String>,
    /// The users that are mentioned, each once.
    pub mentions: Vec<String>,
}

impl Message {
    /// Whether this is how a text is sent that is shown as `shown`.
    pub open spec fn shows(self, text: Seq<char>, shown: Rendering) -> bool {
        &&& shown.marked ==> self.plain@ == shown.plain && self.html is Some && self.html->0@
            == shown.html
        &&& !shown.marked ==> self.plain@ == text && self.html is None
        &&& texts(self.mentions@).to_set() == shown.mentions
        &&& texts(self.mentions@).no_duplicates()
    }
}

/// The user ID token at the start of a text.
fn token_at(v: &Vec<char>, from: usize) -> (r: usize)
    requires
        from <= v.len(),
    ensures
        from <= r <= v.len(),
        r - from == token_len(v@.skip(from as int)),
{
    let mut i: usize = from;
    while i < v.len() && !(white(v[i]) || v[i] == ',' || v[i] == '!' || v[i] == '?' || v[i] == '*'
        || v[i] == ')' || v[i] == ']' || v[i] == '"' || v[i] == '\'')
        invariant
            from <= i <= v.len(),
            token_len(v@.skip(from as int)) == i - from + token_len(v@.skip(i as int)),
        decreases v.len() - i,
    {
        assert(v@.skip(i as int).skip(1) =~= v@.skip(i + 1));
        i = i + 1;
    }
    i
}

/// Adds `x` to a list that holds nothing twice.
fn add_once(list: &mut Vec<String>, x: String)
    requires
        texts(old(list)@).no_duplicates(),
    ensures
        texts(final(list)@).to_set() == texts(old(list)@).to_set().insert(x@),
        texts(final(list)@).no_duplicates(),
{
    let ghost names: Seq<Seq<char>> = texts(list@);
    let ghost key: Seq<char> = x@;
    if contains_text(list, x.as_str()) {
        assert(names.to_set().insert(key) =~= names.to_set());
    } else {
        list.push(x);
        proof {
            let more: Seq<Seq<char>> = texts(list@);
            assert(more =~= names.push(key));
            assert forall|y: Seq<char>| more.contains(y) <==> names.contains(y) || y == key by {
                if names.contains(y) {
                    let i: int = names.index_of(y);
                    assert(more[i] == y);
                }
                assert(more[names.len() as int] == key);
            }
            assert(more.to_set() =~= names.to_set().insert(key));
        }
    }
}

#[verifier::rlimit(60)]
#[verifier::spinoff_prover]
fn build(text: &str, names: &NameMap<String>) -> (r: Message)
    ensures
        r.shows(text@, rendered(text@, false, false, name_texts(names@))),
{
    let v = chars_of(text);
    let ghost whole: Rendering = rendered(text@, false, false, name_texts(names@));
    let ghost known: Map<Seq<char>, Seq<char>> = name_texts(names@);
    let mut plain = String::new();
    let mut html = String::new();
    let mut found: bool = false;
    let mut bold: bool = false;
    let mut strike: bool = false;
    let mut mentions: Vec<String> = Vec::new();
    let mut i: usize = 0;
    proof {
        assert(v@.skip(0) =~= text@);
        assert(plain@ + whole.plain =~= whole.plain);
        assert(html@ + whole.html =~= whole.html);
        assert(texts(mentions@).to_set() =~= Set::<Seq<char>>::empty());
        assert(texts(mentions@).to_set().union(whole.mentions) =~= whole.mentions);
    }
    while i < v.len()
        invariant
            i <= v.len(),
            v@ == text@,
            known == name_texts(names@),
            whole == rendered(text@, false, false, known),
            texts(mentions@).no_duplicates(),
            ({
                let rest: Rendering = rendered(v@.skip(i as int), bold, strike, known);
                &&& whole.plain == plain@ + rest.plain
                &&& whole.html == html@ + rest.html
                &&& whole.marked == (found || rest.marked)
                &&& whole.mentions == texts(mentions@).to_set().union(rest.mentions)
            }),
        decreases v.len() - i,
    {
        let ghost s: Seq<char> = v@.skip(i as int);
        let ghost rest: Rendering = rendered(s, bold, strike, known);
        let ghost old_mentions: Set<Seq<char>> = texts(mentions@).to_set();
        let ghost old_plain: Seq<char> = plain@;
        let ghost old_html: Seq<char> = html@;
        let c: char = v[i];
        if c == '*' && i + 1 < v.len() && v[i + 1] == '*' {
            proof {
                assert(s.skip(2) =~= v@.skip(i + 2));
                let next: Rendering = rendered(s.skip(2), !bold, strike, known);
                assert(rest.plain =~= next.plain);
                assert(rest.mentions =~= next.mentions);
            }
            html.append(if bold { "</strong>" } else { "<strong>" });
            bold = !bold;
            found = true;
            i = i + 2;
            assert(whole.html =~= html@ + rendered(s.skip(2), bold, strike, known).html);
        } else if c == '~' && i + 1 < v.len() && v[i + 1] == '~' {
            proof {
                assert(s.skip(2) =~= v@.skip(i + 2));
                let next: Rendering = rendered(s.skip(2), bold, !strike, known);
                assert(rest.plain =~= next.plain);
                assert(rest.mentions =~= next.mentions);
            }
            html.append(if strike { "</del>" } else { "<del>" });
            strike = !strike;
            found = true;
            i = i + 2;
            assert(whole.html =~= html@ + rendered(s.skip(2), bold, strike, known).html);
        } else {
            let mut pill: Option<Vec<char>> = None;
            if c == '@' {
                let end: usize = token_at(&v, i);
                let token = copy_range(&v, i, end);
                assert(token@ =~= s.take(token_len(s) as int));
                let token_text = text_of(&token);
                let colon: usize = position_of(&token, ':');
                if token_text.as_str().as_bytes().len() > 4 && colon < token.len() {
                    pill = Some(token);
                }
            }
            assert(pill is Some == pill_at(s) is Some);
            match pill {
                Some(token) => {
                    let token_text = text_of(&token);
                    proof {
                        lemma_token_len(s);
                        assert(token@ == pill_at(s)->0);
                        assert(token.len() > 0);
                        assert(token.len() == token_len(s));
                        assert(s.skip(token.len() as int) =~= v@.skip(i + token.len()));
                    }
                    let label: Vec<char> = match names.get(token_text.as_str()) {
                        Some(name) => chars_of(name.as_str()),
                        None => default_label(&token),
                    };
                    plain.append(text_of(&label).as_str());
                    html.append("<a href=\"https://matrix.to/#/");
                    push_escaped(&mut html, &token);
                    html.append("\">");
                    push_escaped(&mut html, &label);
                    html.append("</a>");
                    found = true;
                    let n: usize = token.len();
                    let ghost tok: Seq<char> = token@;
                    if ruma_user_id(token_text.as_str()) {
                        add_once(&mut mentions, token_text);
                    }
                    proof {
                        let next: Rendering = rendered(s.skip(n as int), bold, strike, known);
                        assert(rest.plain == label@ + next.plain);
                        assert(whole.plain =~= plain@ + next.plain);
                        assert(html@ =~= old_html + pill_html(tok, label@));
                        assert(whole.html =~= html@ + next.html);
                        assert(whole.mentions =~= texts(mentions@).to_set().union(next.mentions));
                    }
                    i = i + n;
                },
                None => {
                    plain.push(c);
                    if c == '&' {
                        html.append("&amp;");
                    } else if c == '<' {
                        html.append("&lt;");
                    } else if c == '>' {
                        html.append("&gt;");
                    } else if c == '"' {
                        html.append("&quot;");
                    } else if c == '\n' {
                        html.append("<br>");
                    } else {
                        html.push(c);
                    }
                    proof {
                        assert(s.skip(1) =~= v@.skip(i + 1));
                        let next: Rendering = rendered(s.skip(1), bold, strike, known);
                        assert(html@ =~= old_html + body_char(c));
                        assert(plain@ =~= old_plain + seq![c]);
                        assert(whole.plain =~= plain@ + next.plain);
                        assert(whole.html =~= html@ + next.html);
                        assert(whole.mentions =~= texts(mentions@).to_set().union(next.mentions));
                    }
                    i = i + 1;
                },
            }
        }
    }
    let ghost before_end: Seq<char> = html@;
    if bold {
        html.append("</strong>");
    }
    if strike {
        html.append("</del>");
    }
    proof {
        assert(v@.skip(i as int) =~= Seq::<char>::empty());
        let rest: Rendering = rendered(v@.skip(i as int), bold, strike, known);
        assert(html@ =~= before_end + rest.html);
        assert(whole.plain =~= plain@);
        assert(whole.mentions =~= texts(mentions@).to_set());
    }
    if found {
        Message { plain, html: Some(html), mentions }
    } else {
        Message { plain: text.to_owned(), html: None, mentions }
    }
}

/// Makes a message of a text, with a pill for each user ID in it.
pub fn mentionify(text: &str) -> (r: Message)
    ensures
        r.shows(text@, rendered(text@, false, false, Map::<Seq<char>, Seq<char>>::empty())),
{
    let names: NameMap<String> = NameMap::new();
    assert(name_texts(names@) =~= Map::<Seq<char>, Seq<char>>::empty());
    build(text, &names)
}

/// Makes a message of a text, with a pill for each user ID in it that shows
/// the name in `names`, if there is one.
pub fn mentionify_with_names(text: &str, names: &NameMap<String>) -> (r: Message)
    ensures
        r.shows(text@, rendered(text@, false, false, name_texts(names@))),
{
    build(text, names)
}

// ── Laws ─────────────────────────────────────────────────────────────────────

/// Where the markup says nothing more, the plain text is the text itself, and
/// nobody is mentioned.
pub proof fn law_unmarked_text_is_plain(
    s: Seq<char>,
    bold: bool,
    strike: bool,
    names: Map<Seq<char>, Seq<char>>,
)
    requires
        !rendered(s, bold, strike, names).marked,
    ensures
        rendered(s, bold, strike, names).plain == s,
        rendered(s, bold, strike, names).mentions == Set::<Seq<char>>::empty(),
    decreases s.len(),
{
    lemma_token_len(s);
    if s.len() > 0 {
        if pill_at(s) is Some {
            assert(token_len(s) > 0);
        }
        law_unmarked_text_is_plain(s.skip(1), bold, strike, names);
        assert(seq![s[0]] + s.skip(1) =~= s);
        assert(rendered(s, bold, strike, names).mentions =~= Set::<Seq<char>>::empty());
    } else {
        assert(rendered(s, bold, strike, names).plain =~= s);
    }
}

/// A text without `*`, `~` and `@` has no markup.
pub proof fn law_text_without_marks_is_unmarked(
    s: Seq<char>,
    names: Map<Seq<char>, Seq<char>>,
)
    requires
        !s.contains('*'),
        !s.contains('~'),
        !s.contains('@'),
    ensures
        !rendered(s, false, false, names).marked,
    decreases s.len(),
{
    if s.len() > 0 {
        assert(s.contains(s[0]));
        assert forall|c: char| s.skip(1).contains(c) implies s.contains(c) by {
            let i: int = s.skip(1).index_of(c);
            assert(s[i + 1] == c);
        }
        law_text_without_marks_is_unmarked(s.skip(1), names);
    }
}

/// Whoever is mentioned stands in the text, with a valid user ID.
pub proof fn law_mentions_stand_in_the_text(
    s: Seq<char>,
    bold: bool,
    strike: bool,
    names: Map<Seq<char>, Seq<char>>,
    user: Seq<char>,
)
    requires
        rendered(s, bold, strike, names).mentions.contains(user),
    ensures
        has_text(s, user),
        valid_user_id(user),
    decreases s.len(),
{
    lemma_token_len(s);
    if s.len() > 0 {
        let n: int = if doubled_at(s, '*') || doubled_at(s, '~') {
            2
        } else if pill_at(s) is Some {
            token_len(s) as int
        } else {
            1
        };
        if pill_at(s) is Some && n == token_len(s) && user == pill_at(s)->0 && !doubled_at(s, '*')
            && !doubled_at(s, '~') {
            assert(s.subrange(0, n) =~= user);
            assert(stands_at(s, user, 0));
            if !valid_user_id(user) {
                law_mentions_stand_in_the_text(s.skip(n), bold, strike, names, user);
            }
        } else {
            if pill_at(s) is Some {
                assert(token_len(s) > 0);
            }
            let b: bool = if doubled_at(s, '*') {
                !bold
            } else {
                bold
            };
            let k: bool = if !doubled_at(s, '*') && doubled_at(s, '~') {
                !strike
            } else {
                strike
            };
            law_mentions_stand_in_the_text(s.skip(n), b, k, names, user);
            let i: int = choose|i: int| stands_at(s.skip(n), user, i);
            assert(s.skip(n).subrange(i, i + user.len()) =~= s.subrange(
                i + n,
                i + n + user.len(),
            ));
            assert(stands_at(s, user, i + n));
        }
    }
}

/// What is escaped can neither open nor close a tag or an attribute.
pub proof fn law_escaped_text_is_inert(s: Seq<char>)
    ensures
        forall|i: int|
            0 <= i < escaped(s).len() ==> (#[trigger] escaped(s)[i]) != '<' && escaped(s)[i] != '>'
                && escaped(s)[i] != '"' && escaped(s)[i] != '\'',
    decreases s.len(),
{
    reveal_strlit("&amp;");
    reveal_strlit("&lt;");
    reveal_strlit("&gt;");
    reveal_strlit("&quot;");
    reveal_strlit("&#39;");
    if s.len() > 0 {
        law_escaped_text_is_inert(s.drop_last());
        let head: Seq<char> = escaped(s.drop_last());
        let tail: Seq<char> = escaped_char(s.last());
        assert forall|i: int| 0 <= i < escaped(s).len() implies (#[trigger] escaped(s)[i]) != '<'
            && escaped(s)[i] != '>' && escaped(s)[i] != '"' && escaped(s)[i] != '\'' by {
            if i < head.len() {
                assert(escaped(s)[i] == head[i]);
            } else {
                assert(escaped(s)[i] == tail[i - head.len()]);
            }
        }
    }
}

proof fn lemma_trim_start_keeps(s: Seq<char>, class: CharClass)
    ensures
        exists|k: int| 0 <= k <= s.len() && trim_start_of(s, class) == s.skip(k),
    decreases s.len(),
{
    if s.len() > 0 && class.has(s[0]) {
        lemma_trim_start_keeps(s.skip(1), class);
        let k: int = choose|k: int|
            0 <= k <= s.skip(1).len() && trim_start_of(s.skip(1), class) == s.skip(1).skip(k);
        assert(s.skip(1).skip(k) =~= s.skip(k + 1));
    } else {
        assert(s.skip(0) =~= s);
    }
}

proof fn lemma_trim_end_keeps(s: Seq<char>, class: CharClass)
    ensures
        exists|k: int| 0 <= k <= s.len() && trim_end_of(s, class) == s.take(k),
    decreases s.len(),
{
    if s.len() > 0 && class.has(s.last()) {
        lemma_trim_end_keeps(s.drop_last(), class);
        let k: int = choose|k: int|
            0 <= k <= s.drop_last().len() && trim_end_of(s.drop_last(), class)
                == s.drop_last().take(k);
        assert(s.drop_last().take(k) =~= s.take(k));
    } else {
        assert(s.take(s.len() as int) =~= s);
    }
}

/// A cleaned display name has no control characters.
pub proof fn law_cleaned_names_have_no_control_characters(name: Seq<char>)
    ensures
        forall|i: int|
            0 <= i < cleaned_name(name).len() ==> !is_control(#[trigger] cleaned_name(name)[i]),
{
    let m: Seq<char> = name.map_values(
        |c: char|
            if is_control(c) {
                ' '
            } else {
                c
            },
    );
    lemma_trim_start_keeps(m, CharClass::White);
    let a: int = choose|k: int|
        0 <= k <= m.len() && trim_start_of(m, CharClass::White) == m.skip(k);
    lemma_trim_end_keeps(m.skip(a), CharClass::White);
    let b: int = choose|k: int|
        0 <= k <= m.skip(a).len() && trim_end_of(m.skip(a), CharClass::White) == m.skip(a).take(k);
    assert forall|i: int| 0 <= i < cleaned_name(name).len() implies !is_control(
        #[trigger] cleaned_name(name)[i],
    ) by {
        assert(cleaned_name(name)[i] == m[a + i]);
    }
}

/// Cleaning a display name again changes nothing.
pub proof fn law_cleaned_names_stay(name: Seq<char>)
    ensures
        cleaned_name(cleaned_name(name)) == cleaned_name(name),
{
    let once: Seq<char> = cleaned_name(name);
    law_cleaned_names_have_no_control_characters(name);
    let again: Seq<char> = once.map_values(
        |c: char|
            if is_control(c) {
                ' '
            } else {
                c
            },
    );
    assert(again =~= once);
    lemma_trimmed_ends(
        name.map_values(
            |c: char|
                if is_control(c) {
                    ' '
                } else {
                    c
                },
        ),
    );
    lemma_nothing_to_trim(once);
}

// ── Laws of pills and markup ─────────────────────────────────────────────────

/// Without a known name a pill shows the whole localpart of a user ID, whatever
/// characters it holds.
pub proof fn law_label_is_the_localpart(local: Seq<char>, server: Seq<char>)
    requires
        !local.contains(':'),
        local.len() > 0 ==> local[0] != '@',
    ensures
        short_label(seq!['@'] + local + seq![':'] + server) == local,
{
    let token: Seq<char> = seq!['@'] + local + seq![':'] + server;
    let n: int = local.len() as int + 1;
    assert forall|i: int| 0 <= i < n implies token[i] != ':' by {
        if i > 0 {
            assert(token[i] == local[i - 1]);
            assert(local.contains(local[i - 1]));
        }
    }
    lemma_find_char_at(token, ':', n);
    let head: Seq<char> = token.take(n);
    assert(head =~= seq!['@'] + local);
    assert(head.skip(1) =~= local);
    assert(trim_start_of(local, CharClass::At) == local);
}

/// Whether a character may stand in a user ID within a text.
pub open spec fn may_stand_in_id(c: char) -> bool {
    !is_white(c) && c != ',' && c != '!' && c != '?' && c != '*' && c != ')' && c != ']' && c != '"'
        && c != '\''
}

proof fn lemma_token_len_at(token: Seq<char>, rest: Seq<char>)
    requires
        forall|i: int| 0 <= i < token.len() ==> may_stand_in_id(#[trigger] token[i]),
        rest.len() > 0 ==> !may_stand_in_id(rest[0]),
    ensures
        token_len(token + rest) == token.len(),
    decreases token.len(),
{
    if token.len() == 0 {
        assert(token + rest =~= rest);
    } else {
        assert(may_stand_in_id(token[0]));
        assert forall|i: int| 0 <= i < token.skip(1).len() implies may_stand_in_id(
            #[trigger] token.skip(1)[i],
        ) by {
            assert(token.skip(1)[i] == token[i + 1]);
        }
        lemma_token_len_at(token.skip(1), rest);
        assert((token + rest).skip(1) =~= token.skip(1) + rest);
    }
}

/// A user ID becomes a pill that links to the user and shows their name: the
/// one that is known, or the localpart. What follows is shown as it would be
/// alone. The user is mentioned where the ID is a valid one.
pub proof fn law_user_ids_become_pills(
    local: Seq<char>,
    server: Seq<char>,
    rest: Seq<char>,
    bold: bool,
    strike: bool,
    names: Map<Seq<char>, Seq<char>>,
)
    requires
        !local.contains(':'),
        local.len() > 0 ==> local[0] != '@',
        forall|i: int| 0 <= i < local.len() ==> may_stand_in_id(#[trigger] local[i]),
        forall|i: int| 0 <= i < server.len() ==> may_stand_in_id(#[trigger] server[i]),
        rest.len() > 0 ==> !may_stand_in_id(rest[0]),
        encode_utf8(seq!['@'] + local + seq![':'] + server).len() > 4,
    ensures
        ({
            let id: Seq<char> = seq!['@'] + local + seq![':'] + server;
            let label: Seq<char> = if names.dom().contains(id) {
                names[id]
            } else {
                local
            };
            let shown: Rendering = rendered(id + rest, bold, strike, names);
            let behind: Rendering = rendered(rest, bold, strike, names);
            &&& shown.plain == label + behind.plain
            &&& shown.html == "<a href=\"https://matrix.to/#/"@ + escaped(id) + "\">"@ + escaped(
                label,
            ) + "</a>"@ + behind.html
            &&& shown.marked
            &&& shown.mentions == (if valid_user_id(id) {
                behind.mentions.insert(id)
            } else {
                behind.mentions
            })
        }),
{
    let id: Seq<char> = seq!['@'] + local + seq![':'] + server;
    let s: Seq<char> = id + rest;
    law_label_is_the_localpart(local, server);
    assert forall|i: int| 0 <= i < id.len() implies may_stand_in_id(#[trigger] id[i]) by {
        if 0 < i <= local.len() {
            assert(id[i] == local[i - 1]);
        } else if i > local.len() + 1 {
            assert(id[i] == server[i - local.len() - 2]);
        }
    }
    lemma_token_len_at(id, rest);
    assert(s.take(id.len() as int) =~= id);
    assert(s.skip(id.len() as int) =~= rest);
    assert(id[local.len() as int + 1] == ':');
    assert(pill_at(s) == Some(id));
    let behind: Rendering = rendered(rest, bold, strike, names);
    let shown: Rendering = rendered(s, bold, strike, names);
    let label: Seq<char> = label_of(id, names);
    assert(shown.html =~= "<a href=\"https://matrix.to/#/"@ + escaped(id) + "\">"@ + escaped(label)
        + "</a>"@ + behind.html);
    assert(shown.mentions =~= (if valid_user_id(id) {
        behind.mentions.insert(id)
    } else {
        behind.mentions
    }));
}

/// Any other character is shown as it is, in markup as what stands for it
/// there.
pub proof fn law_other_characters_are_shown(
    c: char,
    rest: Seq<char>,
    bold: bool,
    strike: bool,
    names: Map<Seq<char>, Seq<char>>,
)
    requires
        c != '@',
        rest.len() > 0 && (c == '*' || c == '~') ==> rest[0] != c,
    ensures
        ({
            let shown: Rendering = rendered(seq![c] + rest, bold, strike, names);
            let behind: Rendering = rendered(rest, bold, strike, names);
            &&& shown.plain == seq![c] + behind.plain
            &&& shown.html == (match c {
                '&' => "&amp;"@,
                '<' => "&lt;"@,
                '>' => "&gt;"@,
                '"' => "&quot;"@,
                '\n' => "<br>"@,
                _ => seq![c],
            }) + behind.html
            &&& shown.marked == behind.marked
            &&& shown.mentions == behind.mentions
        }),
{
    let s: Seq<char> = seq![c] + rest;
    assert(s.skip(1) =~= rest);
    assert(rendered(s, bold, strike, names).mentions =~= rendered(
        rest,
        bold,
        strike,
        names,
    ).mentions);
}

/// Two stars turn bold on and off, and two tildes strike out and stop striking
/// out; they are not shown themselves. What is still on at the end is turned
/// off.
pub proof fn law_marks_turn_on_and_off(
    rest: Seq<char>,
    bold: bool,
    strike: bool,
    names: Map<Seq<char>, Seq<char>>,
)
    ensures
        ({
            let shown: Rendering = rendered("**"@ + rest, bold, strike, names);
            let behind: Rendering = rendered(rest, !bold, strike, names);
            &&& shown.plain == behind.plain
            &&& shown.html == (if bold {
                "</strong>"@
            } else {
                "<strong>"@
            }) + behind.html
            &&& shown.marked
            &&& shown.mentions == behind.mentions
        }),
        ({
            let shown: Rendering = rendered("~~"@ + rest, bold, strike, names);
            let behind: Rendering = rendered(rest, bold, !strike, names);
            &&& shown.plain == behind.plain
            &&& shown.html == (if strike {
                "</del>"@
            } else {
                "<del>"@
            }) + behind.html
            &&& shown.marked
            &&& shown.mentions == behind.mentions
        }),
        ({
            let shown: Rendering = rendered(Seq::empty(), bold, strike, names);
            &&& shown.plain.len() == 0
            &&& bold && !strike ==> shown.html == "</strong>"@
            &&& strike && !bold ==> shown.html == "</del>"@
            &&& bold && strike ==> shown.html == "</strong>"@ + "</del>"@
            &&& !bold && !strike ==> shown.html.len() == 0
            &&& shown.mentions == Set::<Seq<char>>::empty()
        }),
{
    reveal_strlit("**");
    reveal_strlit("~~");
    assert(("**"@ + rest).skip(2) =~= rest);
    assert(("~~"@ + rest).skip(2) =~= rest);
    let stars: Rendering = rendered("**"@ + rest, bold, strike, names);
    let tildes: Rendering = rendered("~~"@ + rest, bold, strike, names);
    assert(stars.plain =~= rendered(rest, !bold, strike, names).plain);
    assert(stars.mentions =~= rendered(rest, !bold, strike, names).mentions);
    assert(tildes.plain =~= rendered(rest, bold, !strike, names).plain);
    assert(tildes.mentions =~= rendered(rest, bold, !strike, names).mentions);
    let none: Seq<char> = Seq::empty();
    assert("</strong>"@ + none =~= "</strong>"@);
    assert(none + "</del>"@ =~= "</del>"@);
}

/// What a reader of markup sees: tags are not shown, a line break is a new line,
/// and entities are the characters that they stand for.
pub open spec fn read_markup(s: Seq<char>) -> Seq<char>
    decreases s.len(),
{
    if s.len() == 0 {
        Seq::empty()
    } else if s[0] == '<' {
        let n: int = find_char(s, '>') as int;
        if n < s.len() {
            (if s.take(n + 1) == "<br>"@ {
                seq!['\n']
            } else {
                Seq::empty()
            }) + read_markup(s.skip(n + 1))
        } else {
            s
        }
    } else if s[0] == '&' {
        let n: int = find_char(s, ';') as int;
        let entity: Seq<char> = s.take(n + 1);
        if n < s.len() && entity == "&amp;"@ {
            seq!['&'] + read_markup(s.skip(n + 1))
        } else if n < s.len() && entity == "&lt;"@ {
            seq!['<'] + read_markup(s.skip(n + 1))
        } else if n < s.len() && entity == "&gt;"@ {
            seq!['>'] + read_markup(s.skip(n + 1))
        } else if n < s.len() && entity == "&quot;"@ {
            seq!['"'] + read_markup(s.skip(n + 1))
        } else if n < s.len() && entity == "&#39;"@ {
            seq!['\''] + read_markup(s.skip(n + 1))
        } else {
            s
        }
    } else {
        seq![s[0]] + read_markup(s.skip(1))
    }
}

/// A tag is not shown.
proof fn lemma_read_tag(tag: Seq<char>, rest: Seq<char>)
    requires
        tag.len() > 1,
        tag[0] == '<',
        tag.last() == '>',
        forall|i: int| 0 <= i < tag.len() - 1 ==> tag[i] != '>',
    ensures
        tag == "<br>"@ ==> read_markup(tag + rest) == seq!['\n'] + read_markup(rest),
        tag != "<br>"@ ==> read_markup(tag + rest) == read_markup(rest),
{
    let s: Seq<char> = tag + rest;
    let n: int = tag.len() - 1;
    assert(s[n] == '>');
    lemma_find_char_at(s, '>', n);
    assert(s.take(n + 1) =~= tag);
    assert(s.skip(n + 1) =~= rest);
    assert(Seq::<char>::empty() + read_markup(rest) =~= read_markup(rest));
}

/// What stands for a character is read as that character.
proof fn lemma_read_entity(c: char, rest: Seq<char>)
    ensures
        read_markup(escaped_char(c) + rest) == seq![c] + read_markup(rest),
        read_markup(body_char(c) + rest) == seq![c] + read_markup(rest),
{
    reveal_strlit("&amp;");
    reveal_strlit("&lt;");
    reveal_strlit("&gt;");
    reveal_strlit("&quot;");
    reveal_strlit("&#39;");
    reveal_strlit("<br>");
    let e: Seq<char> = escaped_char(c);
    let s: Seq<char> = e + rest;
    if c == '&' || c == '<' || c == '>' || c == '"' || c == '\'' {
        let n: int = e.len() - 1;
        assert(e[n] == ';');
        assert forall|i: int| 0 <= i < n implies s[i] != ';' by {
            assert(s[i] == e[i]);
        }
        lemma_find_char_at(s, ';', n);
        assert(s.take(n + 1) =~= e);
        assert(s.skip(n + 1) =~= rest);
        assert("&amp;"@[1] == 'a' && "&lt;"@[1] == 'l' && "&gt;"@[1] == 'g' && "&quot;"@[1] == 'q'
            && "&#39;"@[1] == '#');
    } else {
        assert(s.skip(1) =~= rest);
    }
    let b: Seq<char> = body_char(c);
    if c == '\n' {
        assert forall|i: int| 0 <= i < b.len() - 1 implies b[i] != '>' by {}
        lemma_read_tag(b, rest);
    } else if c == '\'' {
        assert((b + rest).skip(1) =~= rest);
    }
}

proof fn lemma_read_escaped(s: Seq<char>, rest: Seq<char>)
    ensures
        read_markup(escaped(s) + rest) == s + read_markup(rest),
    decreases s.len(),
{
    if s.len() == 0 {
        assert(escaped(s) + rest =~= rest);
        assert(s + read_markup(rest) =~= read_markup(rest));
    } else {
        let tail: Seq<char> = escaped_char(s.last()) + rest;
        lemma_read_escaped(s.drop_last(), tail);
        lemma_read_entity(s.last(), rest);
        assert(escaped(s) + rest =~= escaped(s.drop_last()) + tail);
        assert(s.drop_last() + (seq![s.last()] + read_markup(rest)) =~= s + read_markup(rest));
    }
}

proof fn lemma_read_pill(token: Seq<char>, label: Seq<char>, rest: Seq<char>)
    ensures
        read_markup(pill_html(token, label) + rest) == label + read_markup(rest),
{
    reveal_strlit("<a href=\"https://matrix.to/#/");
    reveal_strlit("\">");
    reveal_strlit("</a>");
    reveal_strlit("<br>");
    let open: Seq<char> = "<a href=\"https://matrix.to/#/"@ + escaped(token) + "\">"@;
    let close: Seq<char> = "</a>"@;
    law_escaped_text_is_inert(token);
    let head: int = "<a href=\"https://matrix.to/#/"@.len() as int;
    assert forall|i: int| 0 <= i < open.len() - 1 implies open[i] != '>' by {
        if i < head {
            assert(open[i] == "<a href=\"https://matrix.to/#/"@[i]);
        } else if i < head + escaped(token).len() {
            assert(open[i] == escaped(token)[i - head]);
        }
    }
    assert(open[1] == 'a');
    assert("<br>"@[1] == 'b' && close[1] == '/');
    lemma_read_tag(open, escaped(label) + (close + rest));
    lemma_read_escaped(label, close + rest);
    lemma_read_tag(close, rest);
    assert(pill_html(token, label) + rest =~= open + (escaped(label) + (close + rest)));
}

/// The markup of a message reads as its plain text.
pub proof fn law_markup_reads_as_the_plain_text(
    s: Seq<char>,
    bold: bool,
    strike: bool,
    names: Map<Seq<char>, Seq<char>>,
)
    ensures
        read_markup(rendered(s, bold, strike, names).html) == rendered(
            s,
            bold,
            strike,
            names,
        ).plain,
    decreases s.len(),
{
    reveal_strlit("<strong>");
    reveal_strlit("</strong>");
    reveal_strlit("<del>");
    reveal_strlit("</del>");
    reveal_strlit("<br>");
    assert("<strong>"@[1] == 's' && "</strong>"@[1] == '/' && "<del>"@[1] == 'd' && "</del>"@[1]
        == '/' && "<br>"@[1] == 'b');
    let shown: Rendering = rendered(s, bold, strike, names);
    lemma_token_len(s);
    if s.len() == 0 {
        let none: Seq<char> = Seq::empty();
        let end: Seq<char> = if strike {
            "</del>"@
        } else {
            none
        };
        assert(read_markup(end) =~= none) by {
            if strike {
                lemma_read_tag("</del>"@, none);
                assert("</del>"@ + none =~= "</del>"@);
            }
        }
        if bold {
            lemma_read_tag("</strong>"@, end);
        } else {
            assert(none + end =~= end);
        }
        assert(read_markup(shown.html) =~= shown.plain);
    } else if doubled_at(s, '*') {
        law_markup_reads_as_the_plain_text(s.skip(2), !bold, strike, names);
        let behind: Rendering = rendered(s.skip(2), !bold, strike, names);
        lemma_read_tag(
            if bold {
                "</strong>"@
            } else {
                "<strong>"@
            },
            behind.html,
        );
        assert(shown.plain =~= behind.plain);
    } else if doubled_at(s, '~') {
        law_markup_reads_as_the_plain_text(s.skip(2), bold, !strike, names);
        let behind: Rendering = rendered(s.skip(2), bold, !strike, names);
        lemma_read_tag(
            if strike {
                "</del>"@
            } else {
                "<del>"@
            },
            behind.html,
        );
        assert(shown.plain =~= behind.plain);
    } else {
        match pill_at(s) {
            Some(token) => {
                let n: int = token_len(s) as int;
                assert(n > 0);
                law_markup_reads_as_the_plain_text(s.skip(n), bold, strike, names);
                lemma_read_pill(
                    token,
                    label_of(token, names),
                    rendered(s.skip(n), bold, strike, names).html,
                );
            },
            None => {
                law_markup_reads_as_the_plain_text(s.skip(1), bold, strike, names);
                lemma_read_entity(s[0], rendered(s.skip(1), bold, strike, names).html);
            },
        }
    }
}

/// A display name without control characters is trimmed at most.
pub proof fn law_clean_names_are_trimmed_only(name: Seq<char>)
    requires
        forall|i: int| 0 <= i < name.len() ==> !is_control(#[trigger] name[i]),
    ensures
        cleaned_name(name) == trimmed(name),
{
    assert(name.map_values(
        |c: char|
            if is_control(c) {
                ' '
            } else {
                c
            },
    ) =~= name);
}

/// An at sign that begins no user ID, as what follows holds no colon or is too
/// short for one, is shown as it is.
pub proof fn law_other_at_signs_are_shown(
    word: Seq<char>,
    rest: Seq<char>,
    bold: bool,
    strike: bool,
    names: Map<Seq<char>, Seq<char>>,
)
    requires
        forall|i: int| 0 <= i < word.len() ==> may_stand_in_id(#[trigger] word[i]),
        rest.len() > 0 ==> !may_stand_in_id(rest[0]),
        !word.contains(':') || encode_utf8(seq!['@'] + word).len() <= 4,
    ensures
        ({
            let shown: Rendering = rendered(seq!['@'] + word + rest, bold, strike, names);
            let behind: Rendering = rendered(word + rest, bold, strike, names);
            &&& shown.plain == seq!['@'] + behind.plain
            &&& shown.html == seq!['@'] + behind.html
            &&& shown.marked == behind.marked
            &&& shown.mentions == behind.mentions
        }),
{
    let token: Seq<char> = seq!['@'] + word;
    let s: Seq<char> = seq!['@'] + word + rest;
    assert forall|i: int| 0 <= i < token.len() implies may_stand_in_id(#[trigger] token[i]) by {
        if i > 0 {
            assert(token[i] == word[i - 1]);
        }
    }
    lemma_token_len_at(token, rest);
    assert(s.take(token.len() as int) =~= token);
    assert(s.skip(1) =~= word + rest);
    if token.contains(':') {
        let i: int = token.index_of(':');
        assert(word[i - 1] == ':');
    }
    assert(pill_at(s) is None);
    assert(rendered(s, bold, strike, names).mentions =~= rendered(
        word + rest,
        bold,
        strike,
        names,
    ).mentions);
}

} // verus!
