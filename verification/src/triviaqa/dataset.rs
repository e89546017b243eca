//! The TriviaQA dataset: unpacking it, and what is taken over.

use std::io::Read;

use vstd::prelude::*;

use crate::config::QuestionSource;
use crate::numbers::{decimal, lemma_decimal_digits, lemma_digits_value, push_nat};
use crate::retry::RetryStep;
use crate::text::{
    blank, chars_of, contains_sub, has_suffix, has_text, is_blank, lemma_find_char_at, same,
    text_of, texts, trim, trim_text, trimmed,
};
use crate::triviaqa::archive::{may_overflow, overflows_tar};

verus! {

// ── Trusted items ────────────────────────────────────────────────────────────

/// What flate2's `GzDecoder` makes of bytes: the bytes that were packed, or
/// nothing where it fails.
pub uninterp spec fn gunzipped(bytes: Seq<u8>) -> Option<Seq<u8>>;

/// The paths of the entries that tar's `Archive::entries` finds in bytes, or
/// nothing where it fails.
pub uninterp spec fn tar_listing(bytes: Seq<u8>) -> Option<Seq<Seq<char>>>;

/// The content of the entry at an index of those that tar's
/// `Archive::entries` finds in bytes, or nothing where it cannot be read.
pub uninterp spec fn tar_entry(bytes: Seq<u8>, index: int) -> Option<Seq<u8>>;

/// Reading flate2's `GzDecoder` to its end: the result depends on the bytes
/// alone.
#[verifier::external_body]
fn flate2_gunzip(bytes: &[u8]) -> (r: Option<Vec<u8>>)
    ensures
        opt_seq(r) == gunzipped(bytes@),
{
    let mut out = Vec::new();
    flate2::read::GzDecoder::new(bytes).read_to_end(&mut out).ok()?;
    Some(out)
}

/// tar's `Archive::entries`, with `Entry::path` of each: the paths depend on
/// the bytes alone. Archives with an entry of 2^63 bytes or more are left out:
/// behind the header of a sparse file, tar adds to a position of that size
/// without a test.
#[verifier::external_body]
fn tar_paths(bytes: &[u8]) -> (r: Option<Vec<String>>)
    requires
        !overflows_tar(bytes@),
    ensures
        r is Some ==> tar_listing(bytes@) == Some(texts(r->0@)),
        r is None ==> tar_listing(bytes@) is None,
{
    let mut archive = tar::Archive::new(bytes);
    let mut paths = Vec::new();
    for entry in archive.entries().ok()? {
        paths.push(entry.ok()?.path().ok()?.to_string_lossy().into_owned());
    }
    Some(paths)
}

/// Reading one of the entries of tar's `Archive::entries` to its end: the
/// content depends on the bytes and the index alone. The same archives are left
/// out as for `tar_paths`.
#[verifier::external_body]
fn tar_content(bytes: &[u8], index: usize) -> (r: Option<Vec<u8>>)
    requires
        !overflows_tar(bytes@),
    ensures
        opt_seq(r) == tar_entry(bytes@, index as int),
{
    let mut archive = tar::Archive::new(bytes);
    let mut entry = archive.entries().ok()?.nth(index)?.ok()?;
    let mut out = Vec::new();
    entry.read_to_end(&mut out).ok()?;
    Some(out)
}

// ── Unpacking ────────────────────────────────────────────────────────────────

/// The content of an optional byte vector.
pub open spec fn opt_seq(v: Option<Vec<u8>>) -> Option<Seq<u8>> {
    match v {
        Some(b) => Some(b@),
        None => None,
    }
}

/// Why a dataset cannot be used.
#[derive(Clone, Copy, Debug, PartialEq, Eq, Structural)]
pub enum DatasetError {
    /// It looks like gzip, but is not.
    Gzip,
    /// It is no JSON, and no archive either.
    Listing,
    /// The archive holds no file that can be used.
    NoUsableFile,
    /// The file in the archive cannot be read.
    Reading,
}

impl DatasetError {
    /// The text of the error.
    pub open spec fn text(self) -> Seq<char> {
        match self {
            DatasetError::Gzip => "gzip decompression failed"@,
            DatasetError::Listing => "reading tar entry"@,
            DatasetError::NoUsableFile => "archive contained no usable TriviaQA JSON file"@,
            DatasetError::Reading => "reading chosen tar entry"@,
        }
    }

    /// The text of the error.
    pub fn message(&self) -> (r: &'static str)
        ensures
            r@ == self.text(),
    {
        match self {
            DatasetError::Gzip => "gzip decompression failed",
            DatasetError::Listing => "reading tar entry",
            DatasetError::NoUsableFile => "archive contained no usable TriviaQA JSON file",
            DatasetError::Reading => "reading chosen tar entry",
        }
    }
}

/// Whether bytes begin as gzip does.
pub open spec fn looks_gzipped(bytes: Seq<u8>) -> bool {
    bytes.len() >= 2 && bytes[0] == 0x1f && bytes[1] == 0x8b
}

/// The bytes, unpacked where they are gzip.
pub open spec fn unpacked(bytes: Seq<u8>) -> Option<Seq<u8>> {
    if looks_gzipped(bytes) {
        gunzipped(bytes)
    } else {
        Some(bytes)
    }
}

fn copy_bytes(bytes: &[u8]) -> (r: Vec<u8>)
    ensures
        r@ == bytes@,
{
    let mut out: Vec<u8> = Vec::new();
    let mut i: usize = 0;
    while i < bytes.len()
        invariant
            i <= bytes@.len(),
            out@ == bytes@.take(i as int),
        decreases bytes@.len() - i,
    {
        out.push(bytes[i]);
        assert(bytes@.take(i + 1) =~= bytes@.take(i as int).push(bytes@[i as int]));
        i = i + 1;
    }
    assert(bytes@.take(i as int) =~= bytes@);
    out
}

/// The bytes, unpacked where they are gzip, see `unpacked`.
pub fn gunzip_if_needed(bytes: &[u8]) -> (r: Result<Vec<u8>, DatasetError>)
    ensures
        unpacked(bytes@) is Some ==> r is Ok && r->Ok_0@ == unpacked(bytes@)->0,
        unpacked(bytes@) is None ==> r == Err::<Vec<u8>, DatasetError>(DatasetError::Gzip),
{
    if !(bytes.len() >= 2 && bytes[0] == 0x1f && bytes[1] == 0x8b) {
        return Ok(copy_bytes(bytes));
    }
    match flate2_gunzip(bytes) {
        Some(out) => Ok(out),
        None => Err(DatasetError::Gzip),
    }
}

/// Whether a byte is a space, a tab or a line end.
pub open spec fn is_ascii_white(b: u8) -> bool {
    b == 0x20 || b == 0x09 || b == 0x0a || b == 0x0c || b == 0x0d
}

/// Whether the first byte that is no white space opens a JSON object.
pub open spec fn looks_like_json(bytes: Seq<u8>) -> bool {
    exists|i: int|
        0 <= i < bytes.len() && #[trigger] bytes[i] == 0x7b && forall|j: int|
            0 <= j < i ==> is_ascii_white(#[trigger] bytes[j])
}

/// Whether bytes look like JSON, see `looks_like_json`.
pub fn starts_as_json(bytes: &Vec<u8>) -> (r: bool)
    ensures
        r == looks_like_json(bytes@),
{
    let mut i: usize = 0;
    while i < bytes.len()
        invariant
            i <= bytes.len(),
            forall|j: int| 0 <= j < i ==> is_ascii_white(#[trigger] bytes@[j]),
        decreases bytes.len() - i,
    {
        let b: u8 = bytes[i];
        if !(b == 0x20 || b == 0x09 || b == 0x0a || b == 0x0c || b == 0x0d) {
            proof {
                if looks_like_json(bytes@) {
                    let k: int = choose|k: int|
                        0 <= k < bytes@.len() && #[trigger] bytes@[k] == 0x7b && forall|j: int|
                            0 <= j < k ==> is_ascii_white(#[trigger] bytes@[j]);
                    if k > i {
                        assert(is_ascii_white(bytes@[i as int]));
                    }
                    if k < i {
                        assert(is_ascii_white(bytes@[k]));
                    }
                }
                if b == 0x7b {
                    assert(bytes@[i as int] == 0x7b);
                }
            }
            return b == 0x7b;
        }
        i = i + 1;
    }
    proof {
        if looks_like_json(bytes@) {
            let k: int = choose|k: int|
                0 <= k < bytes@.len() && #[trigger] bytes@[k] == 0x7b && forall|j: int|
                    0 <= j < k ==> is_ascii_white(#[trigger] bytes@[j]);
            assert(is_ascii_white(bytes@[k]));
        }
    }
    false
}

// ── Choosing a file ──────────────────────────────────────────────────────────

/// Whether a path names a JSON file.
pub open spec fn is_json_path(path: Seq<char>) -> bool {
    ".json"@.is_suffix_of(path)
}

/// Whether the file at the end of a path is named `name`.
pub open spec fn has_file_name(path: Seq<char>, name: Seq<char>) -> bool {
    path == name || (seq!['/'] + name).is_suffix_of(path)
}

/// The index of the first JSON path with the file name `name`, from `from` on.
pub open spec fn first_named(paths: Seq<Seq<char>>, name: Seq<char>, from: int) -> Option<int>
    decreases paths.len() - from,
{
    if from >= paths.len() {
        None
    } else if is_json_path(paths[from]) && has_file_name(paths[from], name) {
        Some(from)
    } else {
        first_named(paths, name, from + 1)
    }
}

/// The index of the first JSON path with answers, from `from` on.
pub open spec fn first_with_answers(paths: Seq<Seq<char>>, from: int) -> Option<int>
    decreases paths.len() - from,
{
    if from >= paths.len() {
        None
    } else if is_json_path(paths[from]) && !has_text(paths[from], "without-answers"@) {
        Some(from)
    } else {
        first_with_answers(paths, from + 1)
    }
}

/// The files of the official archives that are preferred, the best first. The
/// smaller ones come first: they hold more than enough.
pub open spec fn preferred_files() -> Seq<Seq<char>> {
    seq![
        "unfiltered-web-dev.json"@,
        "wikipedia-dev.json"@,
        "verified-wikipedia-dev.json"@,
        "unfiltered-web-train.json"@,
        "wikipedia-train.json"@,
    ]
}

/// The file that is used of those in an archive: the best of the preferred
/// ones from `rank` on, or else the first with answers.
pub open spec fn chosen_from(paths: Seq<Seq<char>>, rank: int) -> Option<int>
    decreases preferred_files().len() - rank,
{
    if rank >= preferred_files().len() {
        first_with_answers(paths, 0)
    } else {
        match first_named(paths, preferred_files()[rank], 0) {
            Some(i) => Some(i),
            None => chosen_from(paths, rank + 1),
        }
    }
}

/// The number of an optional index.
pub open spec fn opt_index(i: Option<usize>) -> Option<int> {
    match i {
        Some(x) => Some(x as int),
        None => None,
    }
}

fn find_named(paths: &Vec<String>, name: &str) -> (r: Option<usize>)
    ensures
        opt_index(r) == first_named(texts(paths@), name@, 0),
        r is Some ==> r->0 < paths.len(),
{
    let ghost all: Seq<Seq<char>> = texts(paths@);
    let mut behind_slash = "/".to_owned();
    behind_slash.append(name);
    proof {
        reveal_strlit("/");
        assert(behind_slash@ =~= seq!['/'] + name@);
    }
    let mut i: usize = 0;
    while i < paths.len()
        invariant
            i <= paths.len(),
            all == texts(paths@),
            behind_slash@ == seq!['/'] + name@,
            first_named(all, name@, 0) == first_named(all, name@, i as int),
        decreases paths.len() - i,
    {
        assert(all[i as int] == paths@[i as int]@);
        let path: &str = paths[i].as_str();
        if has_suffix(path, ".json") && (same(path, name) || has_suffix(
            path,
            behind_slash.as_str(),
        )) {
            return Some(i);
        }
        i = i + 1;
    }
    None
}

/// Chooses the file to use of those in an archive, see `chosen_from`.
pub fn choose_entry(paths: &Vec<String>) -> (r: Option<usize>)
    ensures
        opt_index(r) == chosen_from(texts(paths@), 0),
        r is Some ==> r->0 < paths.len(),
{
    let ghost all: Seq<Seq<char>> = texts(paths@);
    let preferred: Vec<&'static str> = vec![
        "unfiltered-web-dev.json",
        "wikipedia-dev.json",
        "verified-wikipedia-dev.json",
        "unfiltered-web-train.json",
        "wikipedia-train.json",
    ];
    let mut rank: usize = 0;
    while rank < preferred.len()
        invariant
            rank <= preferred.len(),
            preferred.len() == preferred_files().len(),
            forall|k: int|
                0 <= k < preferred.len() ==> (#[trigger] preferred@[k])@ == preferred_files()[k],
            all == texts(paths@),
            chosen_from(all, 0) == chosen_from(all, rank as int),
        decreases preferred.len() - rank,
    {
        assert(preferred@[rank as int]@ == preferred_files()[rank as int]);
        match find_named(paths, preferred[rank]) {
            Some(i) => {
                return Some(i);
            },
            None => {},
        }
        rank = rank + 1;
    }
    let mut i: usize = 0;
    while i < paths.len()
        invariant
            i <= paths.len(),
            all == texts(paths@),
            chosen_from(all, 0) == first_with_answers(all, i as int),
        decreases paths.len() - i,
    {
        assert(all[i as int] == paths@[i as int]@);
        if has_suffix(paths[i].as_str(), ".json") && !contains_sub(
            paths[i].as_str(),
            "without-answers",
        ) {
            return Some(i);
        }
        i = i + 1;
    }
    None
}

/// The JSON in a dataset: the dataset itself, or a file of the archive that it
/// is.
pub open spec fn dataset_json(bytes: Seq<u8>) -> Result<Seq<u8>, DatasetError> {
    match unpacked(bytes) {
        None => Err(DatasetError::Gzip),
        Some(data) => if looks_like_json(data) {
            Ok(data)
        } else if overflows_tar(data) {
            Err(DatasetError::Listing)
        } else {
            match tar_listing(data) {
                None => Err(DatasetError::Listing),
                Some(paths) => match chosen_from(paths, 0) {
                    None => Err(DatasetError::NoUsableFile),
                    Some(i) => match tar_entry(data, i) {
                        None => Err(DatasetError::Reading),
                        Some(content) => Ok(content),
                    },
                },
            }
        },
    }
}

/// The JSON in a dataset, which may be plain, packed with gzip, or a file in a
/// (packed) tar archive, see `dataset_json`.
pub fn extract_dataset_json(bytes: &[u8]) -> (r: Result<Vec<u8>, DatasetError>)
    ensures
        dataset_json(bytes@) is Ok ==> r is Ok && r->Ok_0@ == dataset_json(bytes@)->Ok_0,
        dataset_json(bytes@) is Err ==> r is Err && r->Err_0 == dataset_json(bytes@)->Err_0,
{
    let data = match gunzip_if_needed(bytes) {
        Ok(d) => d,
        Err(e) => {
            return Err(e);
        },
    };
    if starts_as_json(&data) {
        return Ok(data);
    }
    if may_overflow(&data) {
        return Err(DatasetError::Listing);
    }
    let paths = match tar_paths(data.as_slice()) {
        Some(p) => p,
        None => {
            return Err(DatasetError::Listing);
        },
    };
    match choose_entry(&paths) {
        None => Err(DatasetError::NoUsableFile),
        Some(i) => match tar_content(data.as_slice(), i) {
            Some(content) => Ok(content),
            None => Err(DatasetError::Reading),
        },
    }
}

// ── Taking over ──────────────────────────────────────────────────────────────

/// A question of the dataset, as it was read.
pub struct Entry {
    pub question: String,
    pub answer: String,
    pub aliases: Vec<String>,
}

/// A question that is taken over into the pool.
pub struct TriviaQaImportRow {
    pub question_text: String,
    pub correct_answer: String,
    pub aliases: Vec<String>,
}

/// A question, its answer, and other names of the answer.
#[verifier::ext_equal]
pub struct PairView {
    pub question: Seq<char>,
    pub answer: Seq<char>,
    pub aliases: Seq<Seq<char>>,
}

impl View for Entry {
    type V = PairView;

    open spec fn view(&self) -> PairView {
        PairView {
            question: self.question@,
            answer: self.answer@,
            aliases: texts(self.aliases@),
        }
    }
}

impl View for TriviaQaImportRow {
    type V = PairView;

    open spec fn view(&self) -> PairView {
        PairView {
            question: self.question_text@,
            answer: self.correct_answer@,
            aliases: texts(self.aliases@),
        }
    }
}

/// What a list of entries stands for.
pub open spec fn entry_views(v: Seq<Entry>) -> Seq<PairView> {
    v.map_values(|e: Entry| e@)
}

/// What a list of rows stands for.
pub open spec fn import_views(v: Seq<TriviaQaImportRow>) -> Seq<PairView> {
    v.map_values(|e: TriviaQaImportRow| e@)
}

/// Whether an entry has a question and an answer.
pub open spec fn is_usable(e: PairView) -> bool {
    !is_blank(e.question) && !is_blank(e.answer)
}

/// Other names, trimmed, without blank ones.
pub open spec fn clean_aliases(aliases: Seq<Seq<char>>) -> Seq<Seq<char>> {
    aliases.map_values(|a: Seq<char>| trimmed(a)).filter(|a: Seq<char>| a.len() > 0)
}

/// An entry as it is taken over.
pub open spec fn imported(e: PairView) -> PairView {
    PairView {
        question: trimmed(e.question),
        answer: trimmed(e.answer),
        aliases: clean_aliases(e.aliases),
    }
}

/// What is taken over of a dataset: the first usable entries, at most `max`.
pub open spec fn import_of(entries: Seq<PairView>, max: nat) -> Seq<PairView> {
    let usable: Seq<PairView> = entries.filter(|e: PairView| is_usable(e));
    usable.take(
        if usable.len() < max {
            usable.len() as int
        } else {
            max as int
        },
    ).map_values(|e: PairView| imported(e))
}

fn trimmed_aliases(aliases: &Vec<String>) -> (r: Vec<String>)
    ensures
        texts(r@) == clean_aliases(texts(aliases@)),
{
    let ghost all: Seq<Seq<char>> = texts(aliases@).map_values(|a: Seq<char>| trimmed(a));
    let ghost keep = |a: Seq<char>| a.len() > 0;
    let mut out: Vec<String> = Vec::new();
    let mut i: usize = 0;
    assert(all.take(0).filter(keep) =~= Seq::<Seq<char>>::empty()) by {
        reveal(Seq::filter);
    }
    while i < aliases.len()
        invariant
            i <= aliases.len(),
            all == texts(aliases@).map_values(|a: Seq<char>| trimmed(a)),
            keep == (|a: Seq<char>| a.len() > 0),
            texts(out@) == all.take(i as int).filter(keep),
        decreases aliases.len() - i,
    {
        let name = trim(&chars_of(aliases[i].as_str()));
        proof {
            assert(all.take(i + 1).drop_last() =~= all.take(i as int));
            assert(all.take(i + 1).last() == name@);
            reveal(Seq::filter);
        }
        if name.len() > 0 {
            let ghost before: Seq<String> = out@;
            out.push(text_of(&name));
            assert(texts(out@) =~= texts(before).push(name@));
        }
        i = i + 1;
    }
    assert(all.take(aliases.len() as int) =~= all);
    out
}

/// What is taken over of a dataset, see `import_of`.
pub fn import_rows(entries: &Vec<Entry>, max_entries: usize) -> (r: Vec<TriviaQaImportRow>)
    ensures
        import_views(r@) == import_of(entry_views(entries@), max_entries as nat),
        r.len() <= max_entries,
{
    let ghost all: Seq<PairView> = entry_views(entries@);
    let ghost keep = |e: PairView| is_usable(e);
    let ghost bring = |e: PairView| imported(e);
    let mut out: Vec<TriviaQaImportRow> = Vec::new();
    let mut i: usize = 0;
    proof {
        assert(all.take(0).filter(keep) =~= Seq::<PairView>::empty()) by {
            reveal(Seq::filter);
        }
        assert(import_views(out@) =~= all.take(0).filter(keep).map_values(bring));
    }
    while i < entries.len() && out.len() < max_entries
        invariant
            i <= entries.len(),
            all == entry_views(entries@),
            keep == (|e: PairView| is_usable(e)),
            bring == (|e: PairView| imported(e)),
            out.len() <= max_entries,
            import_views(out@) == all.take(i as int).filter(keep).map_values(bring),
        decreases entries.len() - i,
    {
        let e: &Entry = &entries[i];
        proof {
            assert(all.take(i + 1).drop_last() =~= all.take(i as int));
            assert(all.take(i + 1).last() == entries@[i as int]@);
            reveal(Seq::filter);
        }
        if !blank(e.question.as_str()) && !blank(e.answer.as_str()) {
            let ghost before: Seq<TriviaQaImportRow> = out@;
            let row = TriviaQaImportRow {
                question_text: trim_text(e.question.as_str()),
                correct_answer: trim_text(e.answer.as_str()),
                aliases: trimmed_aliases(&e.aliases),
            };
            let ghost view: PairView = row@;
            out.push(row);
            proof {
                assert(view == imported(entries@[i as int]@));
                assert(import_views(out@) =~= import_views(before).push(view));
                assert(all.take(i + 1).filter(keep).map_values(bring) =~= all.take(
                    i as int,
                ).filter(keep).map_values(bring).push(view));
            }
        }
        i = i + 1;
    }
    proof {
        let usable: Seq<PairView> = all.filter(keep);
        let seen: Seq<PairView> = all.take(i as int).filter(keep);
        assert(all =~= all.take(i as int) + all.skip(i as int));
        Seq::filter_distributes_over_add(all.take(i as int), all.skip(i as int), keep);
        assert(import_views(out@).len() == out.len());
        assert(usable == seen + all.skip(i as int).filter(keep));
        if out.len() < max_entries {
            assert(all.skip(i as int) =~= Seq::<PairView>::empty());
            assert(all.skip(i as int).filter(keep) =~= Seq::<PairView>::empty()) by {
                reveal(Seq::filter);
            }
            assert(usable =~= seen);
        }
        let n: int = if usable.len() < max_entries {
            usable.len() as int
        } else {
            max_entries as int
        };
        assert(usable.take(n) =~= seen);
    }
    out
}

// ── When to take over ────────────────────────────────────────────────────────

/// The key under which it is noted that a dataset was taken over.
pub open spec fn ingest_key(dataset_url: Seq<char>, max_pool_size: nat) -> Seq<char> {
    "triviaqa_ingested:"@ + decimal(max_pool_size) + ":"@ + dataset_url
}

/// The key under which it is noted that a dataset was taken over. Another
/// address or size makes another key, so that the pool is filled anew.
pub fn ingest_kv_key(dataset_url: &str, max_pool_size: usize) -> (r: String)
    ensures
        r@ == ingest_key(dataset_url@, max_pool_size as nat),
{
    let mut out = "triviaqa_ingested:".to_owned();
    push_nat(&mut out, max_pool_size as u64);
    out.append(":");
    out.append(dataset_url);
    out
}

/// Different addresses or sizes have different keys.
pub proof fn law_ingest_keys_differ(url_a: Seq<char>, max_a: nat, url_b: Seq<char>, max_b: nat)
    requires
        ingest_key(url_a, max_a) == ingest_key(url_b, max_b),
    ensures
        url_a == url_b,
        max_a == max_b,
{
    let head: Seq<char> = "triviaqa_ingested:"@;
    let a: Seq<char> = decimal(max_a) + ":"@ + url_a;
    let b: Seq<char> = decimal(max_b) + ":"@ + url_b;
    reveal_strlit(":");
    assert(ingest_key(url_a, max_a) =~= head + a);
    assert(ingest_key(url_b, max_b) =~= head + b);
    assert(a =~= (head + a).skip(head.len() as int));
    assert(b =~= (head + b).skip(head.len() as int));
    assert(a == b);
    lemma_decimal_digits(max_a);
    lemma_decimal_digits(max_b);
    let m: int = decimal(max_a).len() as int;
    let n: int = decimal(max_b).len() as int;
    assert(a[m] == ':' && b[n] == ':');
    assert forall|i: int| 0 <= i < m implies a[i] != ':' by {
        assert(a[i] == decimal(max_a)[i]);
    }
    assert forall|i: int| 0 <= i < n implies b[i] != ':' by {
        assert(b[i] == decimal(max_b)[i]);
    }
    lemma_find_char_at(a, ':', m);
    lemma_find_char_at(b, ':', n);
    assert(m == n);
    assert(decimal(max_a) =~= a.take(m));
    assert(decimal(max_b) =~= b.take(n));
    lemma_digits_value(max_a);
    lemma_digits_value(max_b);
    assert(url_a =~= a.skip(m + 1));
    assert(url_b =~= b.skip(n + 1));
}

/// What to do about the dataset.
pub enum IngestStep {
    /// TriviaQA is not used.
    Disabled,
    /// No address is configured.
    NoUrl,
    /// Take it over, unless that is noted under the key.
    Ingest { key: String },
}

/// Decides what to do about the dataset.
pub fn ingest_step(
    source: QuestionSource,
    dataset_url: Option<&str>,
    max_pool_size: usize,
) -> (r: IngestStep)
    ensures
        source is Opentdb ==> r is Disabled,
        source !is Opentdb && dataset_url is None ==> r is NoUrl,
        source !is Opentdb && dataset_url is Some ==> r is Ingest && r->key@ == ingest_key(
            dataset_url->0@,
            max_pool_size as nat,
        ),
{
    match source {
        QuestionSource::Opentdb => IngestStep::Disabled,
        _ => match dataset_url {
            None => IngestStep::NoUrl,
            Some(url) => IngestStep::Ingest { key: ingest_kv_key(url, max_pool_size) },
        },
    }
}

/// Whether a dataset was taken over: it is noted, and there are questions.
pub fn already_ingested(noted: bool, pool_count: i64) -> (r: bool)
    ensures
        r == (noted && pool_count > 0),
{
    noted && pool_count > 0
}

/// How often a download is tried.
pub const MAX_DOWNLOADS: u32 = 3;

/// Decides whether a download is tried once more: after 5 seconds, then after
/// 25.
pub fn download_attempt(attempt: u32) -> (r: RetryStep)
    ensures
        attempt == 0 ==> r == (RetryStep::Try { wait_secs: 0 }),
        attempt == 1 ==> r == (RetryStep::Try { wait_secs: 5 }),
        attempt == 2 ==> r == (RetryStep::Try { wait_secs: 25 }),
        attempt >= MAX_DOWNLOADS ==> r == RetryStep::GiveUp,
        attempt >= 3 ==> r == RetryStep::GiveUp,
{
    if attempt >= MAX_DOWNLOADS {
        RetryStep::GiveUp
    } else if attempt == 0 {
        RetryStep::Try { wait_secs: 0 }
    } else if attempt == 1 {
        RetryStep::Try { wait_secs: 5 }
    } else {
        RetryStep::Try { wait_secs: 25 }
    }
}

/// The message of a download that failed.
pub fn download_failed_message() -> (r: String)
    ensures
        r@ == "TriviaQA dataset download failed after "@ + decimal(MAX_DOWNLOADS as nat)
            + " attempts"@,
{
    let mut out = "TriviaQA dataset download failed after ".to_owned();
    push_nat(&mut out, MAX_DOWNLOADS as u64);
    out.append(" attempts");
    out
}

// ── Laws ─────────────────────────────────────────────────────────────────────

/// Whether one of the JSON files in a list is named `name`.
pub open spec fn has_named(paths: Seq<Seq<char>>, name: Seq<char>) -> bool {
    exists|i: int|
        0 <= i < paths.len() && ".json"@.is_suffix_of(#[trigger] paths[i]) && (paths[i] == name || (
        seq!['/'] + name).is_suffix_of(paths[i]))
}

/// Whether the path at an index is the first JSON file named `name`.
pub open spec fn is_first_named(paths: Seq<Seq<char>>, name: Seq<char>, i: int) -> bool {
    &&& 0 <= i < paths.len()
    &&& ".json"@.is_suffix_of(paths[i])
    &&& paths[i] == name || (seq!['/'] + name).is_suffix_of(paths[i])
    &&& forall|j: int|
        0 <= j < i ==> !(".json"@.is_suffix_of(#[trigger] paths[j]) && (paths[j] == name || (
        seq!['/'] + name).is_suffix_of(paths[j])))
}

proof fn lemma_first_named(paths: Seq<Seq<char>>, name: Seq<char>, from: int)
    requires
        0 <= from,
        forall|j: int|
            0 <= j < from ==> !(is_json_path(#[trigger] paths[j]) && has_file_name(
                paths[j],
                name,
            )),
    ensures
        has_named(paths, name) <==> first_named(paths, name, from) is Some,
        first_named(paths, name, from) is Some ==> is_first_named(
            paths,
            name,
            first_named(paths, name, from)->0,
        ),
    decreases paths.len() - from,
{
    if from < paths.len() {
        if is_json_path(paths[from]) && has_file_name(paths[from], name) {
            assert(has_named(paths, name));
        } else {
            lemma_first_named(paths, name, from + 1);
        }
    } else if has_named(paths, name) {
        let i: int = choose|i: int|
            0 <= i < paths.len() && ".json"@.is_suffix_of(#[trigger] paths[i]) && (paths[i] == name
                || (seq!['/'] + name).is_suffix_of(paths[i]));
        assert(is_json_path(paths[i]) && has_file_name(paths[i], name));
    }
}

/// The file that is used of an archive is the first with the best name that
/// there is: the small files before the large ones.
pub proof fn law_the_best_file_is_chosen(paths: Seq<Seq<char>>)
    ensures
        ({
            let chosen: Option<int> = chosen_from(paths, 0);
            let web_dev: Seq<char> = "unfiltered-web-dev.json"@;
            let wiki_dev: Seq<char> = "wikipedia-dev.json"@;
            let verified: Seq<char> = "verified-wikipedia-dev.json"@;
            let web_train: Seq<char> = "unfiltered-web-train.json"@;
            let wiki_train: Seq<char> = "wikipedia-train.json"@;
            if has_named(paths, web_dev) {
                chosen is Some && is_first_named(paths, web_dev, chosen->0)
            } else if has_named(paths, wiki_dev) {
                chosen is Some && is_first_named(paths, wiki_dev, chosen->0)
            } else if has_named(paths, verified) {
                chosen is Some && is_first_named(paths, verified, chosen->0)
            } else if has_named(paths, web_train) {
                chosen is Some && is_first_named(paths, web_train, chosen->0)
            } else if has_named(paths, wiki_train) {
                chosen is Some && is_first_named(paths, wiki_train, chosen->0)
            } else {
                chosen == first_with_answers(paths, 0)
            }
        }),
{
    let files: Seq<Seq<char>> = preferred_files();
    assert(files.len() == 5);
    lemma_first_named(paths, files[0], 0);
    lemma_first_named(paths, files[1], 0);
    lemma_first_named(paths, files[2], 0);
    lemma_first_named(paths, files[3], 0);
    lemma_first_named(paths, files[4], 0);
    assert(chosen_from(paths, 5) == first_with_answers(paths, 0));
    assert(chosen_from(paths, 4) == (match first_named(paths, files[4], 0) {
        Some(i) => Some(i),
        None => chosen_from(paths, 5),
    }));
    assert(chosen_from(paths, 3) == (match first_named(paths, files[3], 0) {
        Some(i) => Some(i),
        None => chosen_from(paths, 4),
    }));
    assert(chosen_from(paths, 2) == (match first_named(paths, files[2], 0) {
        Some(i) => Some(i),
        None => chosen_from(paths, 3),
    }));
    assert(chosen_from(paths, 1) == (match first_named(paths, files[1], 0) {
        Some(i) => Some(i),
        None => chosen_from(paths, 2),
    }));
}

/// Where no file is preferred, the first JSON file is used that is none without
/// answers.
pub proof fn law_files_without_answers_are_left_out(paths: Seq<Seq<char>>, from: int)
    requires
        0 <= from,
    ensures
        match first_with_answers(paths, from) {
            Some(i) => from <= i < paths.len() && ".json"@.is_suffix_of(paths[i]) && !has_text(
                paths[i],
                "without-answers"@,
            ) && forall|j: int|
                from <= j < i ==> !".json"@.is_suffix_of(#[trigger] paths[j]) || has_text(
                    paths[j],
                    "without-answers"@,
                ),
            None => forall|j: int|
                from <= j < paths.len() ==> !".json"@.is_suffix_of(#[trigger] paths[j]) || has_text(
                    paths[j],
                    "without-answers"@,
                ),
        },
    decreases paths.len() - from,
{
    if from < paths.len() && !(is_json_path(paths[from]) && !has_text(
        paths[from],
        "without-answers"@,
    )) {
        law_files_without_answers_are_left_out(paths, from + 1);
    }
}

/// A dataset that is JSON already is used as it is, packed or not; of an archive
/// the chosen file is.
pub proof fn law_datasets_are_found(bytes: Seq<u8>, data: Seq<u8>)
    requires
        bytes.len() >= 2 && bytes[0] == 0x1f && bytes[1] == 0x8b ==> gunzipped(bytes) == Some(
            data,
        ),
        !(bytes.len() >= 2 && bytes[0] == 0x1f && bytes[1] == 0x8b) ==> data == bytes,
    ensures
        looks_like_json(data) ==> dataset_json(bytes) == Ok::<Seq<u8>, DatasetError>(data),
        !looks_like_json(data) && !overflows_tar(data) && tar_listing(data) is Some && chosen_from(
            tar_listing(data)->0,
            0,
        ) is Some && tar_entry(data, chosen_from(tar_listing(data)->0, 0)->0) is Some
            ==> dataset_json(bytes) == Ok::<Seq<u8>, DatasetError>(
            tar_entry(data, chosen_from(tar_listing(data)->0, 0)->0)->0,
        ),
{
}

/// Bytes look like JSON exactly where the first that is no white space is an
/// opening brace.
pub proof fn law_json_begins_with_a_brace(white: Seq<u8>, first: u8, rest: Seq<u8>)
    requires
        forall|i: int|
            0 <= i < white.len() ==> (#[trigger] white[i]) == 0x20 || white[i] == 0x09 || white[i]
                == 0x0a || white[i] == 0x0c || white[i] == 0x0d,
        first != 0x20 && first != 0x09 && first != 0x0a && first != 0x0c && first != 0x0d,
    ensures
        looks_like_json(white + seq![first] + rest) <==> first == 0x7b,
{
    let bytes: Seq<u8> = white + seq![first] + rest;
    let n: int = white.len() as int;
    assert(bytes[n] == first);
    assert forall|j: int| 0 <= j < n implies is_ascii_white(#[trigger] bytes[j]) by {
        assert(bytes[j] == white[j]);
    }
    if looks_like_json(bytes) {
        let i: int = choose|i: int|
            0 <= i < bytes.len() && #[trigger] bytes[i] == 0x7b && forall|j: int|
                0 <= j < i ==> is_ascii_white(#[trigger] bytes[j]);
        if i > n {
            assert(is_ascii_white(bytes[n]));
        } else if i < n {
            assert(is_ascii_white(bytes[i]));
        }
    }
}

/// What is taken over are usable entries, in their order, up to the number
/// allowed: of each the question, the answer and the other names, trimmed.
pub proof fn law_usable_entries_are_taken_over(entries: Seq<PairView>, max: nat, i: int)
    requires
        0 <= i < import_of(entries, max).len(),
    ensures
        ({
            let usable: Seq<PairView> = entries.filter(
                |e: PairView| trimmed(e.question).len() > 0 && trimmed(e.answer).len() > 0,
            );
            let row: PairView = import_of(entries, max)[i];
            &&& import_of(entries, max).len() == (if usable.len() < max {
                usable.len()
            } else {
                max
            })
            &&& row.question == trimmed(usable[i].question)
            &&& row.answer == trimmed(usable[i].answer)
            &&& row.question.len() > 0 && row.answer.len() > 0
            &&& forall|a: Seq<char>| #[trigger]
                row.aliases.contains(a) <==> a.len() > 0 && exists|k: int|
                    0 <= k < usable[i].aliases.len() && trimmed(#[trigger] usable[i].aliases[k])
                        == a
        }),
{
    let keep = |e: PairView| is_usable(e);
    let said = |e: PairView| trimmed(e.question).len() > 0 && trimmed(e.answer).len() > 0;
    lemma_same_filter(entries, keep, said);
    let usable: Seq<PairView> = entries.filter(keep);
    let row: PairView = import_of(entries, max)[i];
    assert(row == imported(usable[i]));
    entries.lemma_filter_pred(keep, i);
    let e: PairView = usable[i];
    let shown: Seq<Seq<char>> = e.aliases.map_values(|a: Seq<char>| trimmed(a));
    let full = |a: Seq<char>| a.len() > 0;
    assert(row.aliases == shown.filter(full));
    assert forall|a: Seq<char>| #[trigger] row.aliases.contains(a) <==> a.len() > 0 && exists|k: int|
        0 <= k < e.aliases.len() && trimmed(#[trigger] e.aliases[k]) == a by {
        if row.aliases.contains(a) {
            shown.lemma_filter_contains_rev(full, a);
            let at: int = row.aliases.index_of(a);
            shown.lemma_filter_pred(full, at);
            let k: int = shown.index_of(a);
            assert(trimmed(e.aliases[k]) == a);
        }
        if a.len() > 0 && exists|k: int|
            0 <= k < e.aliases.len() && trimmed(#[trigger] e.aliases[k]) == a {
            let k: int = choose|k: int|
                0 <= k < e.aliases.len() && trimmed(#[trigger] e.aliases[k]) == a;
            assert(shown[k] == a);
            shown.lemma_filter_contains(full, k);
        }
    }
}

proof fn lemma_same_filter(
    s: Seq<PairView>,
    p: spec_fn(PairView) -> bool,
    q: spec_fn(PairView) -> bool,
)
    requires
        forall|e: PairView| #[trigger] p(e) == q(e),
    ensures
        s.filter(p) == s.filter(q),
    decreases s.len(),
{
    reveal(Seq::filter);
    if s.len() > 0 {
        lemma_same_filter(s.drop_last(), p, q);
    }
}

} // verus!
