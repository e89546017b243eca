//! What a message asks for.

use vstd::prelude::*;

use crate::letters::{ascii_lower, is_ascii, is_ascii_char, lower, lowered};
use crate::text::{
    char_texts, chars_of, contains_text, copy_range, is_white, lemma_trimmed_of, lemma_word_len, same, split_words, text_of, texts, trim, trim_both, trim_end_of, trim_of,
    trim_start_of, trimmed, white, word_len, words, CharClass,
};

verus! {

/// A command.
#[derive(Clone, Copy, Debug, PartialEq, Eq, Structural)]
pub enum Command {
    StartQuiz,
    ScheduleQuiz,
    CancelQuiz,
    Prefetch,
    ResetStats,
    Scores,
    MyStats,
    Categories,
    CatConfig,
    GameInfo,
    Fastest,
    Help,
}

/// The first word of a message in lower case, or nothing.
pub open spec fn command_word(body: Seq<char>) -> Seq<char> {
    if words(body).len() == 0 {
        lowered(""@)
    } else {
        lowered(words(body)[0])
    }
}

/// The command that a word stands for.
pub open spec fn command_named(word: Seq<char>) -> Option<Command> {
    if word == "!startquiz"@ {
        Some(Command::StartQuiz)
    } else if word == "!schedulequiz"@ {
        Some(Command::ScheduleQuiz)
    } else if word == "!cancelquiz"@ {
        Some(Command::CancelQuiz)
    } else if word == "!prefetch"@ {
        Some(Command::Prefetch)
    } else if word == "!resetstats"@ {
        Some(Command::ResetStats)
    } else if word == "!scores"@ || word == "!leaderboard"@ {
        Some(Command::Scores)
    } else if word == "!mystats"@ {
        Some(Command::MyStats)
    } else if word == "!categories"@ {
        Some(Command::Categories)
    } else if word == "!catconfig"@ {
        Some(Command::CatConfig)
    } else if word == "!gameinfo"@ {
        Some(Command::GameInfo)
    } else if word == "!fastest"@ {
        Some(Command::Fastest)
    } else if word == "!help"@ {
        Some(Command::Help)
    } else {
        None
    }
}

/// Whether a command is for admins only.
pub open spec fn is_admin_command(c: Command) -> bool {
    c == Command::StartQuiz || c == Command::ScheduleQuiz || c == Command::CancelQuiz || c
        == Command::Prefetch || c == Command::ResetStats
}

/// What to do about a command.
#[derive(Clone, Copy, Debug, PartialEq, Eq, Structural)]
pub enum Route {
    /// It is no command.
    Ignore,
    /// It is not for this user.
    NotAdmin,
    /// Run it.
    Run(Command),
}

/// What to do about a message, given whether its sender is an admin.
pub open spec fn route_of(body: Seq<char>, is_admin: bool) -> Route {
    match command_named(command_word(body)) {
        None => Route::Ignore,
        Some(c) => if is_admin_command(c) && !is_admin {
            Route::NotAdmin
        } else {
            Route::Run(c)
        },
    }
}

fn nth_word(body: &str, n: usize) -> (r: Option<String>)
    ensures
        n < words(body@).len() ==> r is Some && r->0@ == words(body@)[n as int],
        n >= words(body@).len() ==> r is None,
{
    let list = split_words(&chars_of(body));
    assert(char_texts(list@).len() == list.len());
    if n < list.len() {
        assert(char_texts(list@)[n as int] == list@[n as int]@);
        Some(text_of(&list[n]))
    } else {
        None
    }
}

/// The command that a message asks for, if it does.
pub fn command_of(body: &str) -> (r: Option<Command>)
    ensures
        r == command_named(command_word(body@)),
{
    let word = match nth_word(body, 0) {
        Some(w) => lower(w.as_str()),
        None => lower(""),
    };
    let w: &str = word.as_str();
    if same(w, "!startquiz") {
        Some(Command::StartQuiz)
    } else if same(w, "!schedulequiz") {
        Some(Command::ScheduleQuiz)
    } else if same(w, "!cancelquiz") {
        Some(Command::CancelQuiz)
    } else if same(w, "!prefetch") {
        Some(Command::Prefetch)
    } else if same(w, "!resetstats") {
        Some(Command::ResetStats)
    } else if same(w, "!scores") || same(w, "!leaderboard") {
        Some(Command::Scores)
    } else if same(w, "!mystats") {
        Some(Command::MyStats)
    } else if same(w, "!categories") {
        Some(Command::Categories)
    } else if same(w, "!catconfig") {
        Some(Command::CatConfig)
    } else if same(w, "!gameinfo") {
        Some(Command::GameInfo)
    } else if same(w, "!fastest") {
        Some(Command::Fastest)
    } else if same(w, "!help") {
        Some(Command::Help)
    } else {
        None
    }
}

/// Whether a user is an admin.
pub fn is_admin(admins: &Vec<String>, user: &str) -> (r: bool)
    ensures
        r == texts(admins@).contains(user@),
{
    contains_text(admins, user)
}

/// What to do about a message, see `route_of`.
pub fn route(body: &str, admins: &Vec<String>, sender: &str) -> (r: Route)
    ensures
        r == route_of(body@, texts(admins@).contains(sender@)),
{
    match command_of(body) {
        None => Route::Ignore,
        Some(c) => match c {
            Command::StartQuiz
            | Command::ScheduleQuiz
            | Command::CancelQuiz
            | Command::Prefetch
            | Command::ResetStats => if is_admin(admins, sender) {
                Route::Run(c)
            } else {
                Route::NotAdmin
            },
            _ => Route::Run(c),
        },
    }
}

/// The reply to a command that is not for the user.
pub fn not_admin_text() -> (r: String)
    ensures
        r@ == "❌ This command requires admin privileges."@,
{
    "❌ This command requires admin privileges.".to_owned()
}

/// Whoever is no admin runs no command for admins, whatever they write.
pub proof fn law_admin_commands_are_for_admins(body: Seq<char>, c: Command)
    requires
        route_of(body, false) == Route::Run(c),
    ensures
        !is_admin_command(c),
{
}

// ── Answers in writing ───────────────────────────────────────────────────────

/// The choice that a message names.
pub open spec fn typed_choice(body: Seq<char>) -> Option<u8> {
    let w: Seq<char> = lowered(body);
    if w == "!a"@ {
        Some(0)
    } else if w == "!b"@ {
        Some(1)
    } else if w == "!c"@ {
        Some(2)
    } else if w == "!d"@ {
        Some(3)
    } else {
        None
    }
}

/// What a message in the room is.
#[derive(Clone, Copy, Debug, PartialEq, Eq, Structural)]
pub enum MessageKind {
    /// It is not for the bot.
    Other,
    /// It answers the open question.
    Answer(u8),
    /// It may be a command.
    Command,
}

/// What a message in the room is: one that begins with "!" is for the bot.
pub open spec fn kind_of(text: Seq<char>) -> MessageKind {
    let body: Seq<char> = trimmed(text);
    if body.len() == 0 || body[0] != '!' {
        MessageKind::Other
    } else {
        match typed_choice(body) {
            Some(c) => MessageKind::Answer(c),
            None => MessageKind::Command,
        }
    }
}

/// What a message in the room is, see `kind_of`.
pub fn classify_message(text: &str) -> (r: MessageKind)
    ensures
        r == kind_of(text@),
{
    let body = trim(&chars_of(text));
    if body.len() == 0 || body[0] != '!' {
        return MessageKind::Other;
    }
    let low = lower(text_of(&body).as_str());
    let w: &str = low.as_str();
    if same(w, "!a") {
        MessageKind::Answer(0)
    } else if same(w, "!b") {
        MessageKind::Answer(1)
    } else if same(w, "!c") {
        MessageKind::Answer(2)
    } else if same(w, "!d") {
        MessageKind::Answer(3)
    } else {
        MessageKind::Command
    }
}

// ── Arguments ────────────────────────────────────────────────────────────────

/// Whether a reset is confirmed.
pub fn reset_confirmed(body: &str) -> (r: bool)
    ensures
        r == (words(body@).len() > 1 && words(body@)[1] == "confirm"@),
{
    match nth_word(body, 1) {
        Some(w) => same(w.as_str(), "confirm"),
        None => false,
    }
}

/// How many characters stand before the first white space.
pub open spec fn head_len(s: Seq<char>) -> nat
    decreases s.len(),
{
    if s.len() == 0 || is_white(s[0]) {
        0
    } else {
        1 + head_len(s.skip(1))
    }
}

/// What follows the command, without blanks and quotes around it.
pub open spec fn argument_of(body: Seq<char>) -> Seq<char> {
    let n: int = head_len(body) as int;
    if n < body.len() {
        trim_of(trimmed(body.skip(n + 1)), CharClass::Quote)
    } else {
        trim_of(trimmed(""@), CharClass::Quote)
    }
}

/// What follows the command, see `argument_of`.
pub fn argument(body: &str) -> (r: String)
    ensures
        r@ == argument_of(body@),
{
    let v = chars_of(body);
    let mut n: usize = 0;
    assert(v@.skip(0) =~= v@);
    while n < v.len() && !white(v[n])
        invariant
            n <= v.len(),
            v@ == body@,
            head_len(v@) == n + head_len(v@.skip(n as int)),
        decreases v.len() - n,
    {
        assert(v@.skip(n as int).skip(1) =~= v@.skip(n + 1));
        n = n + 1;
    }
    if n < v.len() {
        let rest = copy_range(&v, n + 1, v.len());
        assert(rest@ =~= v@.skip(n + 1));
        text_of(&trim_both(&trim(&rest), &CharClass::Quote))
    } else {
        assert(v@.skip(n as int).len() == 0);
        text_of(&trim_both(&trim(&chars_of("")), &CharClass::Quote))
    }
}

// ── Laws ─────────────────────────────────────────────────────────────────────

/// A choice is typed as an exclamation mark and its letter, small or capital,
/// with or without white space around; nothing else is an answer.
pub proof fn law_choices_are_typed_by_letter(
    before: Seq<char>,
    letter: char,
    after: Seq<char>,
    choice: u8,
)
    requires
        choice < 4,
        letter as int == 'a' as int + choice || letter as int == 'A' as int + choice,
        forall|i: int| 0 <= i < before.len() ==> is_white(#[trigger] before[i]),
        forall|i: int| 0 <= i < after.len() ==> is_white(#[trigger] after[i]),
    ensures
        kind_of(before + seq!['!', letter] + after) == MessageKind::Answer(choice),
{
    reveal_strlit("!a");
    reveal_strlit("!b");
    reveal_strlit("!c");
    reveal_strlit("!d");
    let body: Seq<char> = seq!['!', letter];
    lemma_trimmed_of(before, body, after);
    assert(is_ascii(body));
    let low: Seq<char> = lowered(body);
    assert(low.len() == 2 && low[0] == '!' && low[1] == ascii_lower(letter));
    assert("!a"@[1] == 'a' && "!b"@[1] == 'b' && "!c"@[1] == 'c' && "!d"@[1] == 'd');
    if choice == 0 {
        assert(low =~= "!a"@);
    } else if choice == 1 {
        assert(low =~= "!b"@);
    } else if choice == 2 {
        assert(low =~= "!c"@);
    } else {
        assert(low =~= "!d"@);
    }
}

/// An ASCII message that is taken for an answer is an exclamation mark and the
/// letter of the choice.
pub proof fn law_only_letters_are_answers(text: Seq<char>, choice: u8)
    requires
        is_ascii(trimmed(text)),
        kind_of(text) == MessageKind::Answer(choice),
    ensures
        choice < 4,
        trimmed(text).len() == 2,
        trimmed(text)[0] == '!',
        trimmed(text)[1] as int == 'a' as int + choice || trimmed(text)[1] as int == 'A' as int
            + choice,
{
    reveal_strlit("!a");
    reveal_strlit("!b");
    reveal_strlit("!c");
    reveal_strlit("!d");
    let body: Seq<char> = trimmed(text);
    let low: Seq<char> = lowered(body);
    assert("!a"@[1] == 'a' && "!b"@[1] == 'b' && "!c"@[1] == 'c' && "!d"@[1] == 'd');
    assert(low.len() == body.len());
    assert(low[1] == ascii_lower(body[1]));
}

/// Starting, scheduling, cancelling, fetching and resetting are for admins, and
/// all other commands are for everyone.
pub proof fn law_what_is_for_admins(body: Seq<char>, c: Command)
    requires
        route_of(body, true) == Route::Run(c),
    ensures
        match c {
            Command::StartQuiz
            | Command::ScheduleQuiz
            | Command::CancelQuiz
            | Command::Prefetch
            | Command::ResetStats => route_of(body, false) == Route::NotAdmin,
            Command::Scores
            | Command::MyStats
            | Command::Categories
            | Command::CatConfig
            | Command::GameInfo
            | Command::Fastest
            | Command::Help => route_of(body, false) == Route::Run(c),
        },
{
}

/// The command is the first word, in whatever case: what stands around and
/// behind it makes no difference.
pub proof fn law_the_first_word_is_the_command(
    before: Seq<char>,
    word: Seq<char>,
    rest: Seq<char>,
    admin: bool,
)
    requires
        word.len() > 0,
        is_ascii(word),
        forall|i: int| 0 <= i < word.len() ==> !is_white(#[trigger] word[i]),
        forall|i: int| 0 <= i < before.len() ==> is_white(#[trigger] before[i]),
        rest.len() > 0 ==> is_white(rest[0]),
    ensures
        route_of(before + word + rest, admin) == route_of(
            word.map_values(|c: char| ascii_lower(c)),
            admin,
        ),
{
    let low: Seq<char> = word.map_values(|c: char| ascii_lower(c));
    lemma_first_word(before, word, rest);
    assert forall|i: int| 0 <= i < low.len() implies !is_white(#[trigger] low[i])
        && is_ascii_char(low[i]) by {
        assert(is_ascii_char(word[i]));
        assert(!is_white(word[i]));
    }
    lemma_first_word(Seq::empty(), low, Seq::empty());
    assert(Seq::<char>::empty() + low + Seq::<char>::empty() =~= low);
    assert(lowered(low) =~= low);
}

proof fn lemma_first_word(before: Seq<char>, word: Seq<char>, rest: Seq<char>)
    requires
        word.len() > 0,
        forall|i: int| 0 <= i < word.len() ==> !is_white(#[trigger] word[i]),
        forall|i: int| 0 <= i < before.len() ==> is_white(#[trigger] before[i]),
        rest.len() > 0 ==> is_white(rest[0]),
    ensures
        words(before + word + rest).len() > 0,
        words(before + word + rest)[0] == word,
    decreases before.len(),
{
    let s: Seq<char> = before + word + rest;
    if before.len() > 0 {
        assert(is_white(before[0]));
        assert forall|i: int| 0 <= i < before.skip(1).len() implies is_white(
            #[trigger] before.skip(1)[i],
        ) by {
            assert(before.skip(1)[i] == before[i + 1]);
        }
        lemma_first_word(before.skip(1), word, rest);
        assert(s.skip(1) =~= before.skip(1) + word + rest);
    } else {
        assert(!is_white(word[0]));
        lemma_word_len(s);
        let n: int = word_len(s) as int;
        if n < word.len() {
            assert(s[n] == word[n]);
        } else if n > word.len() {
            assert(!is_white(s[word.len() as int]));
            assert(s[word.len() as int] == rest[0]);
        }
        assert(s.take(n) =~= word);
    }
}

/// The argument is what follows the command, without white space and quotes
/// around it.
pub proof fn law_argument_follows_the_command(
    word: Seq<char>,
    before: Seq<char>,
    argument: Seq<char>,
    after: Seq<char>,
    quoted: bool,
)
    requires
        forall|i: int| 0 <= i < word.len() ==> !is_white(#[trigger] word[i]),
        before.len() > 0,
        forall|i: int| 0 <= i < before.len() ==> is_white(#[trigger] before[i]),
        forall|i: int| 0 <= i < after.len() ==> is_white(#[trigger] after[i]),
        argument.len() > 0,
        !is_white(argument[0]),
        !is_white(argument.last()),
        argument[0] != '"' && argument[0] != '\'',
        argument.last() != '"' && argument.last() != '\'',
    ensures
        argument_of(word + before + argument + after) == argument,
        argument_of(word + before + (seq!['"'] + argument + seq!['"']) + after) == argument,
        argument_of(word) == Seq::<char>::empty(),
{
    let quote: Seq<char> = seq!['"'];
    let inner: Seq<char> = quote + argument + quote;
    let a: Seq<char> = word + before + argument + after;
    let b: Seq<char> = word + before + inner + after;
    lemma_head_len(word, before + argument + after);
    lemma_head_len(word, before + inner + after);
    lemma_head_len(word, Seq::empty());
    assert(word + (before + argument + after) =~= a);
    assert(word + (before + inner + after) =~= b);
    assert(word + Seq::<char>::empty() =~= word);
    let n: int = word.len() as int;
    let gap: Seq<char> = before.skip(1);
    assert forall|i: int| 0 <= i < gap.len() implies is_white(#[trigger] gap[i]) by {
        assert(gap[i] == before[i + 1]);
    }
    lemma_trimmed_of(gap, argument, after);
    lemma_trimmed_of(gap, inner, after);
    assert(a.skip(n + 1) =~= gap + argument + after);
    assert(b.skip(n + 1) =~= gap + inner + after);
    assert(trim_of(argument, CharClass::Quote) == argument);
    assert(inner.skip(1) =~= argument + quote);
    assert(trim_start_of(argument + quote, CharClass::Quote) == argument + quote);
    assert((argument + quote).drop_last() =~= argument);
    assert(trim_end_of(argument, CharClass::Quote) == argument);
    reveal_strlit("");
    assert(""@ =~= Seq::<char>::empty());
    assert(trimmed(Seq::<char>::empty()) =~= Seq::<char>::empty());
    assert(trim_of(Seq::<char>::empty(), CharClass::Quote) =~= Seq::<char>::empty());
}

proof fn lemma_head_len(word: Seq<char>, rest: Seq<char>)
    requires
        forall|i: int| 0 <= i < word.len() ==> !is_white(#[trigger] word[i]),
        rest.len() > 0 ==> is_white(rest[0]),
    ensures
        head_len(word + rest) == word.len(),
    decreases word.len(),
{
    if word.len() > 0 {
        assert(!is_white(word[0]));
        assert forall|i: int| 0 <= i < word.skip(1).len() implies !is_white(
            #[trigger] word.skip(1)[i],
        ) by {
            assert(word.skip(1)[i] == word[i + 1]);
        }
        lemma_head_len(word.skip(1), rest);
        assert((word + rest).skip(1) =~= word.skip(1) + rest);
    } else {
        assert(word + rest =~= rest);
    }
}

/// Whether a command goes by a name.
pub open spec fn goes_by(c: Command, word: Seq<char>) -> bool {
    match c {
        Command::StartQuiz => word == "!startquiz"@,
        Command::ScheduleQuiz => word == "!schedulequiz"@,
        Command::CancelQuiz => word == "!cancelquiz"@,
        Command::Prefetch => word == "!prefetch"@,
        Command::ResetStats => word == "!resetstats"@,
        Command::Scores => word == "!scores"@ || word == "!leaderboard"@,
        Command::MyStats => word == "!mystats"@,
        Command::Categories => word == "!categories"@,
        Command::CatConfig => word == "!catconfig"@,
        Command::GameInfo => word == "!gameinfo"@,
        Command::Fastest => word == "!fastest"@,
        Command::Help => word == "!help"@,
    }
}

/// A word is a command exactly where it is a name of the command, and no name is
/// that of two commands.
pub proof fn law_commands_go_by_their_names(c: Command, word: Seq<char>)
    ensures
        command_named(word) == Some(c) <==> goes_by(c, word),
{
    reveal_strlit("!startquiz");
    reveal_strlit("!schedulequiz");
    reveal_strlit("!cancelquiz");
    reveal_strlit("!prefetch");
    reveal_strlit("!resetstats");
    reveal_strlit("!scores");
    reveal_strlit("!leaderboard");
    reveal_strlit("!mystats");
    reveal_strlit("!categories");
    reveal_strlit("!catconfig");
    reveal_strlit("!gameinfo");
    reveal_strlit("!fastest");
    reveal_strlit("!help");
    assert("!startquiz"@.len() == 10 && "!schedulequiz"@.len() == 13 && "!cancelquiz"@.len() == 11);
    assert("!prefetch"@.len() == 9 && "!resetstats"@.len() == 11 && "!scores"@.len() == 7);
    assert("!leaderboard"@.len() == 12 && "!mystats"@.len() == 8 && "!categories"@.len() == 11);
    assert("!catconfig"@.len() == 10 && "!gameinfo"@.len() == 9 && "!fastest"@.len() == 8);
    assert("!help"@.len() == 5);
    assert("!startquiz"@[1] == 's' && "!catconfig"@[1] == 'c');
    assert("!cancelquiz"@[3] == 'n' && "!categories"@[3] == 't' && "!resetstats"@[3] == 's');
    assert("!prefetch"@[1] == 'p' && "!gameinfo"@[1] == 'g');
    assert("!mystats"@[1] == 'm' && "!fastest"@[1] == 'f');
}

} // verus!
