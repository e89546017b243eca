//! Walking through the headers of a tar archive, to know beforehand whether
//! tar's own count of positions would take more than 64 bits.

use vstd::prelude::*;

use crate::numbers::{decimal, lemma_decimal_digits};
use crate::triviaqa::dataset::opt_seq;

verus! {

// ── Trusted items of tar ─────────────────────────────────────────────────────

/// The size that tar's `Header::entry_size` reads in a header, or nothing where
/// it cannot be read.
pub uninterp spec fn header_size(block: Seq<u8>) -> Option<u64>;

/// The keys and values that tar's `PaxExtensions` finds in the content of a pax
/// header, in order; nothing stands for a record that is malformed.
pub uninterp spec fn pax_records(bytes: Seq<u8>) -> Seq<Option<(Seq<u8>, Seq<u8>)>>;

/// tar's `Header::entry_size`: the size depends on the header alone.
#[verifier::external_body]
fn tar_header_size(block: &[u8]) -> (r: Option<u64>)
    requires
        block@.len() == 512,
    ensures
        r == header_size(block@),
{
    tar::Header::from_byte_slice(block).entry_size().ok()
}

/// tar's `PaxExtensions`, with `PaxExtension::key_bytes` and `value_bytes` of
/// each record: they depend on the bytes alone.
#[verifier::external_body]
fn tar_pax_records(bytes: &[u8]) -> (r: Vec<Option<(Vec<u8>, Vec<u8>)>>)
    ensures
        record_views(r@) == pax_records(bytes@),
{
    tar::PaxExtensions::new(bytes)
        .map(|record| record.ok().map(|e| (e.key_bytes().to_vec(), e.value_bytes().to_vec())))
        .collect()
}

/// What a list of records stands for.
pub open spec fn record_views(v: Seq<Option<(Vec<u8>, Vec<u8>)>>) -> Seq<
    Option<(Seq<u8>, Seq<u8>)>,
> {
    v.map_values(
        |r: Option<(Vec<u8>, Vec<u8>)>|
            match r {
                Some(pair) => Some((pair.0@, pair.1@)),
                None => None,
            },
    )
}

// ── Bytes ────────────────────────────────────────────────────────────────────

/// Whether `what` stands in `data` at the index `at`.
pub open spec fn bytes_stand_at(data: Seq<u8>, at: int, what: Seq<u8>) -> bool {
    0 <= at && at + what.len() <= data.len() && data.subrange(at, at + what.len()) == what
}

fn stands_at_byte(data: &Vec<u8>, at: usize, what: &Vec<u8>) -> (r: bool)
    requires
        at + what.len() <= data.len(),
    ensures
        r == bytes_stand_at(data@, at as int, what@),
{
    let mut i: usize = 0;
    while i < what.len()
        invariant
            i <= what.len(),
            at + what.len() <= data.len(),
            forall|j: int| 0 <= j < i ==> data@[at + j] == what@[j],
        decreases what.len() - i,
    {
        if data[at + i] != what[i] {
            assert(data@.subrange(at as int, at + what.len())[i as int] != what@[i as int]);
            return false;
        }
        i = i + 1;
    }
    assert(data@.subrange(at as int, at + what.len()) =~= what@);
    true
}

fn copy_bytes(data: &Vec<u8>, from: usize, to: usize) -> (r: Vec<u8>)
    requires
        from <= to <= data.len(),
    ensures
        r@ == data@.subrange(from as int, to as int),
{
    let mut out: Vec<u8> = Vec::new();
    let mut i: usize = from;
    while i < to
        invariant
            from <= i <= to <= data.len(),
            out@ == data@.subrange(from as int, i as int),
        decreases to - i,
    {
        out.push(data[i]);
        assert(data@.subrange(from as int, i + 1) =~= data@.subrange(from as int, i as int).push(
            data@[i as int],
        ));
        i = i + 1;
    }
    out
}

/// Whether a byte is a decimal digit.
pub open spec fn is_digit_byte(x: u8) -> bool {
    0x30 <= x <= 0x39
}

/// The number that digits write.
pub open spec fn byte_value(s: Seq<u8>) -> nat
    decreases s.len(),
{
    if s.len() == 0 {
        0
    } else {
        10 * byte_value(s.drop_last()) + (s.last() - 0x30) as nat
    }
}

/// Whether bytes are digits throughout.
pub open spec fn all_digit_bytes(s: Seq<u8>) -> bool {
    forall|i: int| 0 <= i < s.len() ==> is_digit_byte(#[trigger] s[i])
}

/// The digits of a number, without the plus sign that may stand before them.
pub open spec fn unsigned_part(s: Seq<u8>) -> Seq<u8> {
    if s.len() > 0 && s[0] == 0x2b {
        s.skip(1)
    } else {
        s
    }
}

/// The 64-bit number that bytes write: digits, with or without a plus sign
/// before them. Nothing else is a number, nor is one that does not fit.
pub open spec fn parsed_u64(s: Seq<u8>) -> Option<u64> {
    let body: Seq<u8> = unsigned_part(s);
    if body.len() > 0 && all_digit_bytes(body) && byte_value(body) <= u64::MAX {
        Some(byte_value(body) as u64)
    } else {
        None
    }
}

/// Digits further right never make a number smaller.
proof fn lemma_byte_value_grows(s: Seq<u8>, n: int)
    requires
        0 <= n <= s.len(),
    ensures
        byte_value(s.take(n)) <= byte_value(s),
    decreases s.len(),
{
    if n < s.len() {
        lemma_byte_value_grows(s.drop_last(), n);
        assert(s.drop_last().take(n) =~= s.take(n));
    } else {
        assert(s.take(n) =~= s);
    }
}

fn parse_u64_bytes(s: &Vec<u8>) -> (r: Option<u64>)
    ensures
        r == parsed_u64(s@),
{
    let start: usize = if s.len() > 0 && s[0] == 0x2b {
        1
    } else {
        0
    };
    let ghost body: Seq<u8> = s@.skip(start as int);
    assert(s@.skip(0) =~= s@);
    if start == s.len() {
        return None;
    }
    let mut value: u64 = 0;
    let mut i: usize = start;
    assert(body.take(0).len() == 0);
    while i < s.len()
        invariant
            start <= i <= s.len(),
            start < s.len(),
            body == s@.skip(start as int),
            body == unsigned_part(s@),
            forall|k: int| 0 <= k < i - start ==> is_digit_byte(#[trigger] body[k]),
            value == byte_value(body.take(i - start)),
        decreases s.len() - i,
    {
        let x: u8 = s[i];
        assert(body[i - start] == x);
        if x < 0x30 || 0x39 < x {
            assert(!is_digit_byte(body[i - start]));
            return None;
        }
        proof {
            let next: Seq<u8> = body.take(i - start + 1);
            assert(next.drop_last() =~= body.take(i - start));
            assert(next.last() == x);
            lemma_byte_value_grows(body, i - start + 1);
        }
        let wide: u128 = value as u128 * 10 + (x - 0x30) as u128;
        if wide > 0xffff_ffff_ffff_ffff {
            return None;
        }
        value = wide as u64;
        i = i + 1;
    }
    assert(body.take(body.len() as int) =~= body);
    Some(value)
}

// ── Headers ──────────────────────────────────────────────────────────────────

/// How a GNU header is marked.
pub open spec fn gnu_mark() -> Seq<u8> {
    seq![0x75u8, 0x73, 0x74, 0x61, 0x72, 0x20, 0x20, 0x00]
}

/// How a ustar header is marked.
pub open spec fn ustar_mark() -> Seq<u8> {
    seq![0x75u8, 0x73, 0x74, 0x61, 0x72, 0x00, 0x30, 0x30]
}

/// The key of a size in a pax record.
pub open spec fn size_key() -> Seq<u8> {
    seq![0x73u8, 0x69, 0x7a, 0x65]
}

/// The type of the entry under the header at `pos`.
pub open spec fn kind_at(data: Seq<u8>, pos: int) -> u8 {
    data[pos + 156]
}

/// Whether the header at `pos` is marked as GNU's.
pub open spec fn is_gnu_at(data: Seq<u8>, pos: int) -> bool {
    bytes_stand_at(data, pos + 257, gnu_mark())
}

/// Whether the header at `pos` is marked at all.
pub open spec fn is_marked_at(data: Seq<u8>, pos: int) -> bool {
    is_gnu_at(data, pos) || bytes_stand_at(data, pos + 257, ustar_mark())
}

/// Whether a type says that the entry describes another one: a long name or
/// link name, or pax records.
pub open spec fn describes_another(kind: u8) -> bool {
    kind == 0x4c || kind == 0x4b || kind == 0x78 || kind == 0x67
}

/// The size that pax records give, as tar reads them: the first record with the
/// key counts, and a malformed record ends the search.
pub open spec fn pax_size(records: Seq<Option<(Seq<u8>, Seq<u8>)>>) -> Option<u64>
    decreases records.len(),
{
    if records.len() == 0 {
        None
    } else {
        match records[0] {
            None => None,
            Some((key, value)) => if key == size_key() {
                parsed_u64(value)
            } else {
                pax_size(records.skip(1))
            },
        }
    }
}

/// The size of the entry under the header at `pos`, given the pax records before
/// it.
pub open spec fn entry_size_at(data: Seq<u8>, pos: int, pax: Option<Seq<u8>>) -> Option<u64> {
    match header_size(data.subrange(pos, pos + 512)) {
        None => None,
        Some(size) => if pax is Some && !describes_another(kind_at(data, pos)) && pax_size(
            pax_records(pax->0),
        ) is Some {
            pax_size(pax_records(pax->0))
        } else {
            Some(size)
        },
    }
}

/// Whether the block at `pos` is empty, which ends an archive.
pub open spec fn is_empty_at(data: Seq<u8>, pos: int) -> bool {
    forall|i: int| pos <= i < pos + 512 ==> #[trigger] data[i] == 0
}

/// Where the blocks end in which the header of a sparse file goes on, from `at`
/// on; nothing where the archive ends before they do.
pub open spec fn sparse_end(data: Seq<u8>, at: int) -> Option<int>
    decreases data.len() - at,
{
    if at < 0 || at + 512 > data.len() {
        None
    } else if data[at + 504] == 1 {
        sparse_end(data, at + 512)
    } else {
        Some(at + 512)
    }
}

/// A size, rounded up to whole blocks.
pub open spec fn whole_blocks(size: int) -> int {
    (size + 511) / 512 * 512
}

/// The content under the header at `pos`, as far as it is there.
pub open spec fn content_at(data: Seq<u8>, pos: int, size: int) -> Seq<u8> {
    data.subrange(
        pos + 512,
        if pos + 512 + size <= data.len() {
            pos + 512 + size
        } else {
            data.len() as int
        },
    )
}

/// The sizes from which on positions may take more than 64 bits.
pub const HUGE: u64 = 0x8000_0000_0000_0000;

/// Where tar looks for the header after the one at `pos`, and the pax records
/// that hold for it; nothing where it stops.
pub open spec fn next_header(data: Seq<u8>, pos: int, pax: Option<Seq<u8>>, size: int) -> Option<
    (int, Option<Seq<u8>>),
> {
    let next: int = pos + 512 + whole_blocks(size);
    let kind: u8 = kind_at(data, pos);
    if is_marked_at(data, pos) && (kind == 0x4c || kind == 0x4b) {
        Some((next, pax))
    } else if is_marked_at(data, pos) && kind == 0x78 {
        Some((next, Some(content_at(data, pos, size))))
    } else if kind == 0x53 && !is_gnu_at(data, pos) {
        None
    } else if kind == 0x53 && data[pos + 482] == 1 {
        match sparse_end(data, pos + 512) {
            None => None,
            Some(end) => Some((next + (end - (pos + 512)), None)),
        }
    } else {
        Some((next, None))
    }
}

/// Whether one of the headers that tar reaches from `pos` on gives an entry a
/// size of 2^63 or more.
pub open spec fn reaches_huge(data: Seq<u8>, pos: int, pax: Option<Seq<u8>>) -> bool
    decreases data.len() - pos,
{
    if pos < 0 || pos + 512 > data.len() || is_empty_at(data, pos) {
        false
    } else {
        match entry_size_at(data, pos, pax) {
            None => false,
            Some(size) => if size >= HUGE {
                true
            } else {
                match next_header(data, pos, pax, size as int) {
                    None => false,
                    Some((next, next_pax)) => if pos < next <= data.len() {
                        reaches_huge(data, next, next_pax)
                    } else {
                        false
                    },
                }
            },
        }
    }
}

/// Whether an archive gives one of its entries a size of 2^63 or more. tar
/// cannot list such an archive: the entry does not fit into it.
pub open spec fn overflows_tar(data: Seq<u8>) -> bool {
    reaches_huge(data, 0, None)
}

// ── The walk ─────────────────────────────────────────────────────────────────

fn find_pax_size(bytes: &Vec<u8>) -> (r: Option<u64>)
    ensures
        r == pax_size(pax_records(bytes@)),
{
    let records = tar_pax_records(bytes.as_slice());
    let ghost all: Seq<Option<(Seq<u8>, Seq<u8>)>> = record_views(records@);
    let key: Vec<u8> = vec![0x73, 0x69, 0x7a, 0x65];
    assert(key@ =~= size_key());
    let mut i: usize = 0;
    assert(all.skip(0) =~= all);
    while i < records.len()
        invariant
            i <= records.len(),
            all == record_views(records@),
            all == pax_records(bytes@),
            key@ == size_key(),
            pax_size(all) == pax_size(all.skip(i as int)),
        decreases records.len() - i,
    {
        proof {
            assert(all.skip(i as int)[0] == all[i as int]);
            assert(all.skip(i as int).skip(1) =~= all.skip(i + 1));
        }
        match &records[i] {
            None => {
                return None;
            },
            Some(pair) => {
                assert(all[i as int] == Some((pair.0@, pair.1@)));
                if pair.0.len() == 4 && stands_at_byte(&pair.0, 0, &key) {
                    assert(pair.0@.subrange(0, 4) =~= pair.0@);
                    return parse_u64_bytes(&pair.1);
                }
                assert(pair.0@ != size_key()) by {
                    if pair.0@ == size_key() {
                        assert(pair.0@.subrange(0, 4) =~= pair.0@);
                    }
                }
            },
        }
        i = i + 1;
    }
    None
}

fn block_is_empty(data: &Vec<u8>, pos: usize) -> (r: bool)
    requires
        pos + 512 <= data.len(),
    ensures
        r == is_empty_at(data@, pos as int),
{
    let mut i: usize = pos;
    while i < pos + 512
        invariant
            pos <= i <= pos + 512 <= data.len(),
            forall|j: int| pos <= j < i ==> #[trigger] data@[j] == 0,
        decreases pos + 512 - i,
    {
        if data[i] != 0 {
            return false;
        }
        i = i + 1;
    }
    true
}

fn find_sparse_end(data: &Vec<u8>, from: usize) -> (r: Option<usize>)
    ensures
        r is Some ==> sparse_end(data@, from as int) == Some(r->0 as int) && from < r->0
            <= data.len(),
        r is None ==> sparse_end(data@, from as int) is None,
{
    let mut at: usize = from;
    while at < data.len() && data.len() - at >= 512
        invariant
            from <= at,
            at <= data.len() || at == from,
            sparse_end(data@, from as int) == sparse_end(data@, at as int),
        decreases data.len() - at,
    {
        if data[at + 504] != 1 {
            return Some(at + 512);
        }
        at = at + 512;
    }
    None
}

fn find_size(data: &Vec<u8>, pos: usize, pax: &Option<Vec<u8>>) -> (r: Option<u64>)
    requires
        pos + 512 <= data.len(),
    ensures
        r == entry_size_at(data@, pos as int, opt_seq(*pax)),
{
    let block = copy_bytes(data, pos, pos + 512);
    let size: u64 = match tar_header_size(block.as_slice()) {
        Some(n) => n,
        None => {
            return None;
        },
    };
    let kind: u8 = data[pos + 156];
    if kind == 0x4c || kind == 0x4b || kind == 0x78 || kind == 0x67 {
        return Some(size);
    }
    match pax {
        None => Some(size),
        Some(bytes) => match find_pax_size(bytes) {
            Some(n) => Some(n),
            None => Some(size),
        },
    }
}

/// Whether an archive gives one of its entries a size that tar cannot count
/// with, see `overflows_tar`.
pub fn may_overflow(data: &Vec<u8>) -> (r: bool)
    ensures
        r == overflows_tar(data@),
{
    let gnu: Vec<u8> = vec![0x75, 0x73, 0x74, 0x61, 0x72, 0x20, 0x20, 0x00];
    let ustar: Vec<u8> = vec![0x75, 0x73, 0x74, 0x61, 0x72, 0x00, 0x30, 0x30];
    assert(gnu@ =~= gnu_mark());
    assert(ustar@ =~= ustar_mark());
    let mut pos: usize = 0;
    let mut pax: Option<Vec<u8>> = None;
    while pos < data.len() && data.len() - pos >= 512
        invariant
            pos <= data.len(),
            gnu@ == gnu_mark(),
            ustar@ == ustar_mark(),
            overflows_tar(data@) == reaches_huge(data@, pos as int, opt_seq(pax)),
        decreases data.len() - pos,
    {
        if block_is_empty(data, pos) {
            return false;
        }
        let size: u64 = match find_size(data, pos, &pax) {
            Some(n) => n,
            None => {
                return false;
            },
        };
        if size >= HUGE {
            return true;
        }
        let kind: u8 = data[pos + 156];
        let is_gnu: bool = stands_at_byte(data, pos + 257, &gnu);
        let is_marked: bool = is_gnu || stands_at_byte(data, pos + 257, &ustar);
        let rest: usize = data.len() - pos - 512;
        let blocks: u64 = (size + 511) / 512;
        let fits: bool = blocks <= (rest / 512) as u64;
        let ghost next: int = pos + 512 + whole_blocks(size as int);
        proof {
            assert(whole_blocks(size as int) == blocks * 512);
            if !fits {
                assert(next > data.len()) by {
                    assert(blocks >= rest / 512 + 1);
                }
            } else {
                assert(next <= data.len());
            }
        }
        let mut extra: usize = 0;
        let mut next_pax: Option<Vec<u8>> = None;
        if is_marked && (kind == 0x4c || kind == 0x4b) {
            next_pax = pax;
        } else if is_marked && kind == 0x78 {
            let end: usize = if size <= rest as u64 {
                pos + 512 + size as usize
            } else {
                data.len()
            };
            next_pax = Some(copy_bytes(data, pos + 512, end));
        } else if kind == 0x53 && !is_gnu {
            return false;
        } else if kind == 0x53 && data[pos + 482] == 1 {
            match find_sparse_end(data, pos + 512) {
                None => {
                    return false;
                },
                Some(end) => {
                    extra = end - (pos + 512);
                },
            }
        }
        assert(next_header(data@, pos as int, opt_seq(pax), size as int) == Some(
            (next + extra, opt_seq(next_pax)),
        ));
        if !fits {
            return false;
        }
        let after: usize = pos + 512 + (blocks as usize) * 512;
        if data.len() - after < extra {
            return false;
        }
        pos = after + extra;
        pax = next_pax;
    }
    false
}

// ── Laws ─────────────────────────────────────────────────────────────────────

/// The bytes of a text of ASCII characters.
pub open spec fn ascii_bytes(s: Seq<char>) -> Seq<u8> {
    s.map_values(|c: char| c as u8)
}

proof fn lemma_written_number(n: nat)
    ensures
        byte_value(ascii_bytes(decimal(n))) == n,
        all_digit_bytes(ascii_bytes(decimal(n))),
        decimal(n).len() > 0,
    decreases n,
{
    let s: Seq<u8> = ascii_bytes(decimal(n));
    lemma_decimal_digits(n);
    assert forall|i: int| 0 <= i < s.len() implies is_digit_byte(#[trigger] s[i]) by {
        assert('0' <= decimal(n)[i] <= '9');
    }
    assert(s.last() == 0x30 + n % 10);
    if n < 10 {
        assert(s.drop_last() =~= Seq::<u8>::empty());
        assert(byte_value(s.drop_last()) == 0);
    } else {
        lemma_written_number(n / 10);
        assert(s.drop_last() =~= ascii_bytes(decimal(n / 10)));
    }
}

/// A number that was written is read back where it takes no more than 64 bits,
/// with or without a plus sign, and is none otherwise.
pub proof fn law_written_numbers_are_read(n: nat)
    ensures
        parsed_u64(ascii_bytes(decimal(n))) == (if n <= u64::MAX {
            Some(n as u64)
        } else {
            None
        }),
        parsed_u64(ascii_bytes(seq!['+'] + decimal(n))) == parsed_u64(ascii_bytes(decimal(n))),
{
    lemma_written_number(n);
    let s: Seq<u8> = ascii_bytes(decimal(n));
    assert(is_digit_byte(s[0]));
    assert(unsigned_part(s) == s);
    let plus: Seq<u8> = ascii_bytes(seq!['+'] + decimal(n));
    assert(plus[0] == 0x2b);
    assert(plus.skip(1) =~= s);
}

/// The first record that gives a size counts, whatever the records before and
/// after it give.
pub proof fn law_the_first_size_counts(
    before: Seq<Option<(Seq<u8>, Seq<u8>)>>,
    value: Seq<u8>,
    after: Seq<Option<(Seq<u8>, Seq<u8>)>>,
)
    requires
        forall|i: int|
            0 <= i < before.len() ==> (#[trigger] before[i]) is Some && (before[i]->0).0
                != ascii_bytes("size"@),
    ensures
        pax_size(before + seq![Some((ascii_bytes("size"@), value))] + after) == parsed_u64(value),
    decreases before.len(),
{
    let given: Seq<Option<(Seq<u8>, Seq<u8>)>> = seq![Some((ascii_bytes("size"@), value))];
    let all: Seq<Option<(Seq<u8>, Seq<u8>)>> = before + given + after;
    reveal_strlit("size");
    assert(ascii_bytes("size"@) =~= size_key());
    if before.len() == 0 {
        assert(all[0] == given[0]);
    } else {
        law_the_first_size_counts(before.skip(1), value, after);
        assert(all[0] == before[0]);
        assert(all.skip(1) =~= before.skip(1) + given + after);
    }
}

/// A file takes the whole blocks that its bytes need, and no more.
pub proof fn law_files_take_whole_blocks(size: int)
    requires
        0 <= size,
    ensures
        whole_blocks(size) % 512 == 0,
        size <= whole_blocks(size) < size + 512,
{
}

/// An entry of 2^63 bytes or more is found where it is the first, and behind a
/// plain file: the next header stands behind the blocks of the file.
pub proof fn law_huge_entries_are_found(data: Seq<u8>, pos: int, size: u64)
    requires
        0 <= pos,
        pos + 512 <= data.len(),
        !is_empty_at(data, pos),
        header_size(data.subrange(pos, pos + 512)) == Some(size),
        data[pos + 156] == '0' as u8,
    ensures
        size >= 0x8000_0000_0000_0000 ==> reaches_huge(data, pos, None),
        size < 0x8000_0000_0000_0000 && pos + 512 + whole_blocks(size as int) > data.len()
            ==> !reaches_huge(data, pos, None),
        size < 0x8000_0000_0000_0000 && pos + 512 + whole_blocks(size as int) <= data.len() ==> (
        reaches_huge(data, pos, None) <==> reaches_huge(
            data,
            pos + 512 + whole_blocks(size as int),
            None,
        )),
{
}

/// The size of a file is that of the extended header before it, if that gives
/// one, and otherwise that of its own header. It is never that of an entry that
/// only describes another one.
pub proof fn law_extended_sizes_count(data: Seq<u8>, pos: int, size: u64, pax: Seq<u8>)
    requires
        header_size(data.subrange(pos, pos + 512)) == Some(size),
    ensures
        entry_size_at(data, pos, None) == Some(size),
        data[pos + 156] == '0' as u8 ==> entry_size_at(data, pos, Some(pax)) == (match pax_size(
            pax_records(pax),
        ) {
            Some(given) => Some(given),
            None => Some(size),
        }),
        data[pos + 156] == 'x' as u8 || data[pos + 156] == 'L' as u8 || data[pos + 156] == 'K' as u8
            || data[pos + 156] == 'g' as u8 ==> entry_size_at(data, pos, Some(pax)) == Some(size),
{
}

/// An extended header counts for the entry behind it, also where the entry has a
/// long name; it no longer counts behind that entry.
pub proof fn law_extended_headers_count_once(
    data: Seq<u8>,
    pos: int,
    pax: Option<Seq<u8>>,
    size: int,
)
    requires
        0 <= pos,
        0 <= size,
        pos + 512 + size <= data.len(),
        bytes_stand_at(data, pos + 257, ascii_bytes("ustar"@) + seq![0u8, 0x30, 0x30]),
    ensures
        ({
            let next: int = pos + 512 + whole_blocks(size);
            let kind: u8 = data[pos + 156];
            &&& kind == 'x' as u8 ==> next_header(data, pos, pax, size) == Some(
                (next, Some(data.subrange(pos + 512, pos + 512 + size))),
            )
            &&& kind == 'L' as u8 || kind == 'K' as u8 ==> next_header(data, pos, pax, size)
                == Some((next, pax))
            &&& kind == '0' as u8 || kind == '5' as u8 ==> next_header(data, pos, pax, size)
                == Some((next, None::<Seq<u8>>))
        }),
{
    reveal_strlit("ustar");
    assert(ascii_bytes("ustar"@) + seq![0u8, 0x30, 0x30] =~= ustar_mark());
}

} // verus!
