//! Numbers as text: decimal and hexadecimal digits, padding, parsing.

use vstd::prelude::*;

use crate::text::{chars_of, push_repeated, repeat};

verus! {

/// The character of the decimal digit `d`.
pub open spec fn digit(d: nat) -> char {
    ('0' as nat + d) as char
}

/// The decimal digits of `n`, without leading zeros.
pub open spec fn decimal(n: nat) -> Seq<char>
    decreases n,
{
    if n < 10 {
        seq![digit(n)]
    } else {
        decimal(n / 10).push(digit(n % 10))
    }
}

/// The decimal text of `i`, with a minus sign where it is negative.
pub open spec fn signed(i: int) -> Seq<char> {
    if i < 0 {
        seq!['-'] + decimal((-i) as nat)
    } else {
        decimal(i as nat)
    }
}

/// `s`, with as many `fill` before it as it lacks to `width` characters.
pub open spec fn pad_left(s: Seq<char>, width: nat, fill: char) -> Seq<char> {
    if s.len() < width {
        repeat(fill, (width - s.len()) as nat) + s
    } else {
        s
    }
}

/// `n` with at least `width` digits.
pub open spec fn zero_padded(n: nat, width: nat) -> Seq<char> {
    pad_left(decimal(n), width, '0')
}

/// `i` with zeros between its sign and its digits, up to `width` characters.
pub open spec fn signed_zero_padded(i: int, width: nat) -> Seq<char>
    recommends
        width > 0,
{
    if i < 0 {
        seq!['-'] + zero_padded((-i) as nat, (width - 1) as nat)
    } else {
        zero_padded(i as nat, width)
    }
}

/// The character of the decimal digit `d`.
pub fn digit_char(d: u8) -> (r: char)
    requires
        d < 10,
    ensures
        r == digit(d as nat),
{
    (48u8 + d) as char
}

/// A text of decimal digits is never empty.
pub proof fn lemma_decimal_len(n: nat)
    ensures
        decimal(n).len() > 0,
        decimal(n).len() <= n + 1,
    decreases n,
{
    if n >= 10 {
        lemma_decimal_len(n / 10);
    }
}

/// A text of decimal digits holds digits only.
pub proof fn lemma_decimal_digits(n: nat)
    ensures
        forall|i: int| 0 <= i < decimal(n).len() ==> '0' <= #[trigger] decimal(n)[i] <= '9',
    decreases n,
{
    if n >= 10 {
        lemma_decimal_digits(n / 10);
        assert forall|i: int| 0 <= i < decimal(n).len() implies '0' <= #[trigger] decimal(
            n,
        )[i] <= '9' by {
            if i < decimal(n).len() - 1 {
                assert(decimal(n)[i] == decimal(n / 10)[i]);
            }
        }
    }
}

/// Appends the decimal digits of `n`.
pub fn push_nat(out: &mut String, n: u64)
    ensures
        final(out)@ == old(out)@ + decimal(n as nat),
    decreases n,
{
    if n >= 10 {
        push_nat(out, n / 10);
    }
    out.push(digit_char((n % 10) as u8));
}

/// Appends the decimal text of `i`.
pub fn push_int(out: &mut String, i: i64)
    ensures
        final(out)@ == old(out)@ + signed(i as int),
{
    if i < 0 {
        out.push('-');
        push_nat(out, (-(i as i128)) as u64);
    } else {
        push_nat(out, i as u64);
    }
}

/// The decimal digits of `n`.
pub fn nat_text(n: u64) -> (r: String)
    ensures
        r@ == decimal(n as nat),
{
    let mut out = String::new();
    push_nat(&mut out, n);
    out
}

/// The decimal text of `i`.
pub fn int_text(i: i64) -> (r: String)
    ensures
        r@ == signed(i as int),
{
    let mut out = String::new();
    push_int(&mut out, i);
    out
}

/// Appends `s`, with as many `fill` before it as it lacks to `width` characters.
pub fn push_padded(out: &mut String, s: &str, width: usize, fill: char)
    ensures
        final(out)@ == old(out)@ + pad_left(s@, width as nat, fill),
{
    let n: usize = chars_of(s).len();
    if n < width {
        push_repeated(out, fill, width - n);
    }
    out.append(s);
}

/// Appends `n` with at least `width` digits.
pub fn push_zero_padded(out: &mut String, n: u64, width: usize)
    ensures
        final(out)@ == old(out)@ + zero_padded(n as nat, width as nat),
{
    let digits = nat_text(n);
    push_padded(out, digits.as_str(), width, '0');
}

/// Appends `i` with zeros between its sign and its digits, up to `width`
/// characters.
pub fn push_signed_zero_padded(out: &mut String, i: i64, width: usize)
    requires
        width > 0,
    ensures
        final(out)@ == old(out)@ + signed_zero_padded(i as int, width as nat),
{
    if i < 0 {
        out.push('-');
        push_zero_padded(out, (-(i as i128)) as u64, width - 1);
    } else {
        push_zero_padded(out, i as u64, width);
    }
}

// ── Hexadecimal ──────────────────────────────────────────────────────────────

/// The character of the hexadecimal digit `d`.
pub open spec fn hex_digit(d: nat) -> char {
    if d < 10 {
        digit(d)
    } else {
        ('a' as nat + (d - 10) as nat) as char
    }
}

/// The hexadecimal digits of `n`, `width` of them, the low ones of `n`.
pub open spec fn hex(n: nat, width: nat) -> Seq<char>
    decreases width,
{
    if width == 0 {
        Seq::empty()
    } else {
        hex(n / 16, (width - 1) as nat).push(hex_digit(n % 16))
    }
}

/// Appends the low `width` hexadecimal digits of `n`.
pub fn push_hex(out: &mut String, n: u64, width: usize)
    ensures
        final(out)@ == old(out)@ + hex(n as nat, width as nat),
    decreases width,
{
    if width > 0 {
        push_hex(out, n / 16, width - 1);
        let d: u8 = (n % 16) as u8;
        if d < 10 {
            out.push(digit_char(d));
        } else {
            out.push((97u8 + (d - 10)) as char);
        }
    }
}

// ── Parsing ──────────────────────────────────────────────────────────────────

/// Whether `c` is a decimal digit.
pub open spec fn is_digit(c: char) -> bool {
    '0' <= c <= '9'
}

/// The number that the digits of `s` write.
pub open spec fn digits_value(s: Seq<char>) -> nat
    decreases s.len(),
{
    if s.len() == 0 {
        0
    } else {
        10 * digits_value(s.drop_last()) + (s.last() as nat - '0' as nat) as nat
    }
}

/// Whether `s` is a number's digits: at least one, and nothing else.
pub open spec fn all_digits(s: Seq<char>) -> bool {
    s.len() > 0 && forall|i: int| 0 <= i < s.len() ==> is_digit(#[trigger] s[i])
}

/// The 32-bit number that `s` writes: digits, with or without a plus sign
/// before them. Nothing else is a number, nor is one that does not fit.
pub open spec fn parsed_u32(s: Seq<char>) -> Option<u32> {
    let body: Seq<char> = if s.len() > 0 && s[0] == '+' {
        s.skip(1)
    } else {
        s
    };
    if all_digits(body) && digits_value(body) <= u32::MAX {
        Some(digits_value(body) as u32)
    } else {
        None
    }
}

/// Digits further right never make a number smaller.
proof fn lemma_value_grows(s: Seq<char>, n: int)
    requires
        0 <= n <= s.len(),
    ensures
        digits_value(s.take(n)) <= digits_value(s),
    decreases s.len(),
{
    if n == s.len() {
        assert(s.take(n) == s);
    } else {
        lemma_value_grows(s.drop_last(), n);
        assert(s.drop_last().take(n) == s.take(n));
    }
}

/// The 32-bit number that `s` writes, if it writes one.
pub fn parse_u32(s: &str) -> (r: Option<u32>)
    ensures
        r == parsed_u32(s@),
{
    let v = chars_of(s);
    let mut start: usize = 0;
    if v.len() > 0 && v[0] == '+' {
        start = 1;
    }
    let ghost body: Seq<char> = v@.skip(start as int);
    proof {
        assert(v@.skip(0) == v@);
    }
    if start == v.len() {
        return None;
    }
    let mut value: u64 = 0;
    let mut i: usize = start;
    assert(body.take(0) == Seq::<char>::empty());
    while i < v.len()
        invariant
            start <= i <= v.len(),
            body == v@.skip(start as int),
            body.len() > 0,
            parsed_u32(s@) == (if all_digits(body) && digits_value(body) <= u32::MAX {
                Some(digits_value(body) as u32)
            } else {
                None
            }),
            forall|k: int| 0 <= k < i - start ==> is_digit(#[trigger] body[k]),
            value == digits_value(body.take(i - start)),
            value <= u32::MAX,
        decreases v.len() - i,
    {
        let c: char = v[i];
        assert(body[i - start] == c);
        if !('0' <= c && c <= '9') {
            assert(!is_digit(body[i - start]));
            return None;
        }
        assert(body.take(i - start + 1).drop_last() == body.take(i - start));
        let d: u64 = (c as u32 - 48) as u64;
        value = value * 10 + d;
        if value > 4294967295 {
            proof {
                lemma_value_grows(body, i - start + 1);
            }
            return None;
        }
        i = i + 1;
    }
    assert(body.take(v.len() - start) == body);
    Some(value as u32)
}

/// Reading back the digits of a number gives the number.
pub proof fn lemma_digits_value(n: nat)
    ensures
        digits_value(decimal(n)) == n,
        all_digits(decimal(n)),
    decreases n,
{
    reveal_with_fuel(digits_value, 2);
    lemma_decimal_digits(n);
    lemma_decimal_len(n);
    if n >= 10 {
        lemma_digits_value(n / 10);
        assert(decimal(n).drop_last() == decimal(n / 10));
        assert(decimal(n).last() == digit(n % 10));
    } else {
        assert(decimal(n).drop_last() == Seq::<char>::empty());
    }
}

/// Leading zeros do not change what digits write.
pub proof fn lemma_leading_zeros(k: nat, s: Seq<char>)
    ensures
        digits_value(repeat('0', k) + s) == digits_value(s),
    decreases k + s.len(),
{
    let t: Seq<char> = repeat('0', k) + s;
    if s.len() > 0 {
        lemma_leading_zeros(k, s.drop_last());
        assert(t.drop_last() == repeat('0', k) + s.drop_last());
    } else if k > 0 {
        lemma_leading_zeros((k - 1) as nat, s);
        assert(t.drop_last() == repeat('0', (k - 1) as nat) + s);
        assert(t.last() == '0');
    } else {
        assert(t == s);
    }
}

/// Reading back a zero-padded number gives the number.
pub proof fn law_zero_padded_reads_back(n: u32, width: nat)
    ensures
        parsed_u32(zero_padded(n as nat, width)) == Some(n),
{
    lemma_digits_value(n as nat);
    let d: Seq<char> = decimal(n as nat);
    let t: Seq<char> = zero_padded(n as nat, width);
    if d.len() < width {
        lemma_leading_zeros((width - d.len()) as nat, d);
    }
    assert forall|i: int| 0 <= i < t.len() implies is_digit(#[trigger] t[i]) by {
        if d.len() < width && i >= width - d.len() {
            assert(t[i] == d[i - (width - d.len())]);
            assert(is_digit(d[i - (width - d.len())]));
        } else if d.len() >= width {
            assert(is_digit(d[i]));
        }
    }
    assert(is_digit(t[0]));
}

/// Different numbers are written differently, and a number that is read back is
/// the one that was written.
pub proof fn law_numbers_are_told_apart(a: int, b: int)
    requires
        signed(a) == signed(b),
    ensures
        a == b,
{
    lemma_digits_value(if a < 0 {
        (-a) as nat
    } else {
        a as nat
    });
    lemma_digits_value(if b < 0 {
        (-b) as nat
    } else {
        b as nat
    });
    if a < 0 {
        assert(signed(a)[0] == '-');
        assert(signed(a).skip(1) =~= decimal((-a) as nat));
        if b >= 0 {
            assert(is_digit(decimal(b as nat)[0]));
        }
    }
    if b < 0 {
        assert(signed(b)[0] == '-');
        assert(signed(b).skip(1) =~= decimal((-b) as nat));
        if a >= 0 {
            assert(is_digit(decimal(a as nat)[0]));
        }
    }
}

/// Only digits are read as a number, with or without a plus sign.
pub proof fn law_only_digits_are_numbers(s: Seq<char>, i: int)
    requires
        0 < i < s.len(),
        !('0' <= s[i] <= '9'),
    ensures
        parsed_u32(s) is None,
{
    if s[0] == '+' {
        assert(s.skip(1)[i - 1] == s[i]);
        assert(!is_digit(s.skip(1)[i - 1]));
    } else {
        assert(!is_digit(s[i]));
    }
}

/// The value of hexadecimal digits.
pub open spec fn hex_value(s: Seq<char>) -> nat
    decreases s.len(),
{
    if s.len() == 0 {
        0
    } else {
        16 * hex_value(s.drop_last()) + (if s.last() <= '9' {
            (s.last() as nat - '0' as nat) as nat
        } else {
            (s.last() as nat - 'a' as nat + 10) as nat
        })
    }
}

/// Two to the power of four times `width`.
pub open spec fn hex_range(width: nat) -> nat
    decreases width,
{
    if width == 0 {
        1
    } else {
        16 * hex_range((width - 1) as nat)
    }
}

/// Hexadecimal digits have the width asked for, and are read back as the low
/// part of the number.
pub proof fn law_hex_reads_back(n: nat, width: nat)
    ensures
        hex(n, width).len() == width,
        hex_range(width) > 0,
        hex_value(hex(n, width)) == n % hex_range(width),
    decreases width,
{
    if width > 0 {
        let w: nat = (width - 1) as nat;
        law_hex_reads_back(n / 16, w);
        let h: Seq<char> = hex(n, width);
        assert(h.drop_last() =~= hex(n / 16, w));
        let r: int = hex_range(w) as int;
        let k: int = n as int;
        assert(16 * ((k / 16) % r) + k % 16 == k % (16 * r)) by {
            assert(k == 16 * (k / 16) + k % 16);
            let q: int = k / 16;
            vstd::arithmetic::div_mod::lemma_fundamental_div_mod(q, r);
            let m: int = q % r;
            let d: int = q / r;
            assert(0 <= m < r) by {
                vstd::arithmetic::div_mod::lemma_mod_bound(q, r);
            }
            assert(k == (16 * r) * d + (16 * m + k % 16)) by (nonlinear_arith)
                requires
                    k == 16 * q + k % 16,
                    q == r * d + m,
            ;
            vstd::arithmetic::div_mod::lemma_fundamental_div_mod_converse(
                k,
                16 * r,
                d,
                16 * m + k % 16,
            );
        }
    }
}

} // verus!
