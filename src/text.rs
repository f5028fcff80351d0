//! Byte-level text helpers: ASCII case folding, decimal numerals in both
//! directions, UTF-8 decoding, and comparing and copying byte strings.
use vstd::prelude::*;

verus! {

pub const CR: u8 = 13;

pub const LF: u8 = 10;

/// ASCII lower-casing of one byte; every other byte is kept.
pub open spec fn lower_byte(b: u8) -> u8 {
    if 65 <= b && b <= 90 {
        (b + 32) as u8
    } else {
        b
    }
}

/// ASCII lower-casing of a byte string.
pub open spec fn lower(s: Seq<u8>) -> Seq<u8> {
    Seq::new(s.len(), |i: int| lower_byte(s[i]))
}

pub open spec fn is_digit(b: u8) -> bool {
    48 <= b && b <= 57
}

/// A non-empty run of decimal digits.
pub open spec fn all_digits(s: Seq<u8>) -> bool {
    s.len() > 0 && forall|i: int| 0 <= i < s.len() ==> is_digit(#[trigger] s[i])
}

/// The number that a run of decimal digits denotes.
pub open spec fn digits_value(s: Seq<u8>) -> nat
    decreases s.len(),
{
    if s.len() == 0 {
        0
    } else {
        digits_value(s.drop_last()) * 10 + (s.last() - 48) as nat
    }
}

/// The shortest decimal numeral of `n`.
pub open spec fn decimal(n: nat) -> Seq<u8>
    decreases n,
{
    if n < 10 {
        seq![(48 + n) as u8]
    } else {
        decimal(n / 10).push((48 + n % 10) as u8)
    }
}

/// The decimal numeral of a signed number, with a leading `-` when negative.
pub open spec fn signed_decimal(i: int) -> Seq<u8> {
    if i < 0 {
        seq![45u8] + decimal((-i) as nat)
    } else {
        decimal(i as nat)
    }
}

/// A decimal numeral is a run of digits that reads back as its number.
pub proof fn lemma_decimal(n: nat)
    ensures
        all_digits(decimal(n)),
        digits_value(decimal(n)) == n,
    decreases n,
{
    if n < 10 {
        assert(decimal(n).drop_last() =~= Seq::<u8>::empty());
        assert(digits_value(Seq::<u8>::empty()) == 0);
        assert(decimal(n).last() == (48 + n) as u8);
    } else {
        lemma_decimal(n / 10);
        let d = decimal(n / 10);
        assert(decimal(n).drop_last() =~= d);
        assert(decimal(n).last() == (48 + n % 10) as u8);
        assert(n == (n / 10) * 10 + n % 10);
        assert(digits_value(decimal(n)) == digits_value(d) * 10 + n % 10);
    }
}

/// Parsing digits one at a time: the value of a longer run extends the shorter.
pub proof fn lemma_digits_push(s: Seq<u8>, b: u8)
    ensures
        digits_value(s.push(b)) == digits_value(s) * 10 + (b - 48) as nat,
{
    assert(s.push(b).drop_last() =~= s);
}

/// A prefix of a run of digits never denotes more than the whole run.
pub proof fn lemma_digits_prefix_le(s: Seq<u8>, k: int)
    requires
        0 <= k <= s.len(),
        forall|i: int| 0 <= i < s.len() ==> is_digit(#[trigger] s[i]),
    ensures
        digits_value(s.subrange(0, k)) <= digits_value(s),
    decreases s.len() - k,
{
    if k < s.len() {
        lemma_digits_prefix_le(s, k + 1);
        let p = s.subrange(0, k);
        assert(s.subrange(0, k + 1) =~= p.push(s[k]));
        lemma_digits_push(p, s[k]);
    } else {
        assert(s.subrange(0, k) =~= s);
    }
}

/// What std's `from_str` yields for an unsigned integer type whose largest
/// value is `max`: an optional `+`, then one or more digits denoting at most `max`.
pub open spec fn unsigned_in(s: Seq<u8>, max: nat) -> Option<nat> {
    let d = if s.len() > 0 && s[0] == 43 {
        s.drop_first()
    } else {
        s
    };
    if all_digits(d) && digits_value(d) <= max {
        Some(digits_value(d))
    } else {
        None
    }
}

/// What std's `from_str` yields for a signed integer type with the range
/// `min..=max`: an optional sign, then one or more digits, within the range.
pub open spec fn signed_in(s: Seq<u8>, min: int, max: nat) -> Option<int> {
    if s.len() > 0 && s[0] == 45 {
        let d = s.drop_first();
        if all_digits(d) && -(digits_value(d) as int) >= min {
            Some(-(digits_value(d) as int))
        } else {
            None
        }
    } else {
        match unsigned_in(s, max) {
            Some(n) => Some(n as int),
            None => None,
        }
    }
}

/// The value of the digits `s[start..]`, when they are one or more digits whose
/// value fits in a `u128`.
fn digits_u128(s: &[u8], start: usize) -> (r: Option<u128>)
    requires
        start <= s@.len(),
    ensures
        ({
            let t = s@.subrange(start as int, s@.len() as int);
            r == if all_digits(t) && digits_value(t) <= u128::MAX {
                Some(digits_value(t) as u128)
            } else {
                None::<u128>
            }
        }),
{
    let ghost t = s@.subrange(start as int, s@.len() as int);
    let len = s.len();
    if start >= len {
        return None;
    }
    let mut v: u128 = 0;
    let mut i: usize = start;
    assert(s@.subrange(start as int, start as int) =~= Seq::<u8>::empty());
    while i < len
        invariant
            len == s@.len(),
            start <= i <= len,
            t == s@.subrange(start as int, len as int),
            forall|m: int| start <= m < i ==> is_digit(#[trigger] s@[m]),
            v == digits_value(s@.subrange(start as int, i as int)),
        decreases len - i,
    {
        let b = s[i];
        if b < 48 || b > 57 {
            assert(!is_digit(t[i - start]));
            return None;
        }
        let ghost pre = s@.subrange(start as int, i as int);
        assert(s@.subrange(start as int, i + 1) =~= pre.push(b));
        proof {
            lemma_digits_push(pre, b);
            if all_digits(t) {
                lemma_digits_prefix_le(t, i + 1 - start);
                assert(t.subrange(0, i + 1 - start) =~= s@.subrange(start as int, i + 1));
            }
        }
        match v.checked_mul(10) {
            None => {
                return None;
            },
            Some(m) => match m.checked_add((b - 48) as u128) {
                None => {
                    return None;
                },
                Some(nv) => {
                    v = nv;
                },
            },
        }
        i = i + 1;
    }
    assert(s@.subrange(start as int, i as int) =~= t);
    Some(v)
}

/// Reads an unsigned number as std's `u128::from_str` does.
pub fn parse_u128(s: &[u8]) -> (r: Option<u128>)
    ensures
        r == match unsigned_in(s@, u128::MAX as nat) {
            Some(n) => Some(n as u128),
            None => None::<u128>,
        },
{
    let start: usize = if s.len() > 0 && s[0] == 43 { 1 } else { 0 };
    assert(s@.subrange(start as int, s@.len() as int) =~= if s@.len() > 0 && s@[0] == 43 {
        s@.drop_first()
    } else {
        s@
    });
    digits_u128(s, start)
}

/// Reads an unsigned number as std's `usize::from_str` does.
pub fn parse_usize(s: &[u8]) -> (r: Option<usize>)
    ensures
        r == match unsigned_in(s@, usize::MAX as nat) {
            Some(n) => Some(n as usize),
            None => None::<usize>,
        },
{
    match parse_u128(s) {
        Some(n) => if n <= usize::MAX as u128 {
            Some(n as usize)
        } else {
            None
        },
        None => None,
    }
}

/// Reads a signed number as std's `i64::from_str` does.
pub fn parse_i64(s: &[u8]) -> (r: Option<i64>)
    ensures
        r == match signed_in(s@, i64::MIN as int, i64::MAX as nat) {
            Some(n) => Some(n as i64),
            None => None::<i64>,
        },
{
    if s.len() > 0 && s[0] == 45 {
        assert(s@.subrange(1, s@.len() as int) =~= s@.drop_first());
        match digits_u128(s, 1) {
            Some(m) => if m <= 9223372036854775808u128 {
                Some((-(m as i128)) as i64)
            } else {
                None
            },
            None => None,
        }
    } else {
        match parse_u128(s) {
            Some(n) => if n <= i64::MAX as u128 {
                Some(n as i64)
            } else {
                None
            },
            None => None,
        }
    }
}

/// Whether `src[start..end]` is a non-empty run of decimal digits.
pub fn is_all_digits(src: &[u8], start: usize, end: usize) -> (r: bool)
    requires
        start <= end <= src@.len(),
    ensures
        r == all_digits(src@.subrange(start as int, end as int)),
{
    let ghost t = src@.subrange(start as int, end as int);
    if start == end {
        return false;
    }
    let mut i: usize = start;
    while i < end
        invariant
            start <= i <= end <= src@.len(),
            t == src@.subrange(start as int, end as int),
            forall|m: int| start <= m < i ==> is_digit(#[trigger] src@[m]),
        decreases end - i,
    {
        if src[i] < 48 || src[i] > 57 {
            assert(!is_digit(t[i - start]));
            return false;
        }
        i = i + 1;
    }
    assert forall|m: int| 0 <= m < t.len() implies is_digit(#[trigger] t[m]) by {
        assert(t[m] == src@[start + m]);
    }
    true
}

/// Appends the ASCII lower-cased bytes `src[start..end]` to `out`.
pub fn push_lower(src: &[u8], start: usize, end: usize, out: &mut Vec<u8>)
    requires
        start <= end <= src@.len(),
    ensures
        final(out)@ == old(out)@ + lower(src@.subrange(start as int, end as int)),
{
    let ghost base = out@;
    let mut i: usize = start;
    while i < end
        invariant
            start <= i <= end <= src@.len(),
            out@ == base + lower(src@.subrange(start as int, i as int)),
        decreases end - i,
    {
        let b = src[i];
        let c: u8 = if 65 <= b && b <= 90 { b + 32 } else { b };
        out.push(c);
        i = i + 1;
        assert(lower(src@.subrange(start as int, i as int)) =~= lower(
            src@.subrange(start as int, i - 1),
        ).push(c));
    }
}

/// Appends the bytes `src[start..end]` to `out` unchanged.
pub fn push_slice(src: &[u8], start: usize, end: usize, out: &mut Vec<u8>)
    requires
        start <= end <= src@.len(),
    ensures
        final(out)@ == old(out)@ + src@.subrange(start as int, end as int),
{
    let ghost base = out@;
    let mut i: usize = start;
    while i < end
        invariant
            start <= i <= end <= src@.len(),
            out@ == base + src@.subrange(start as int, i as int),
        decreases end - i,
    {
        out.push(src[i]);
        i = i + 1;
        assert(src@.subrange(start as int, i as int) =~= src@.subrange(start as int, i - 1).push(
            src@[i - 1],
        ));
    }
}

/// Appends the decimal numeral of `n` to `out`.
pub fn push_decimal(n: u128, out: &mut Vec<u8>)
    ensures
        final(out)@ == old(out)@ + decimal(n as nat),
    decreases n,
{
    if n >= 10 {
        push_decimal(n / 10, out);
    }
    out.push(48 + (n % 10) as u8);
    assert(final(out)@ =~= old(out)@ + decimal(n as nat));
}

/// Appends the decimal numeral of a signed number to `out`.
pub fn push_signed_decimal(i: i128, out: &mut Vec<u8>)
    ensures
        final(out)@ == old(out)@ + signed_decimal(i as int),
{
    if i < 0 {
        out.push(45);
        let m: u128 = if i == i128::MIN {
            170141183460469231731687303715884105728u128
        } else {
            (-i) as u128
        };
        push_decimal(m, out);
        assert(final(out)@ =~= old(out)@ + signed_decimal(i as int));
    } else {
        push_decimal(i as u128, out);
    }
}

/// Whether two byte strings are equal.
pub fn eq_bytes(a: &[u8], b: &[u8]) -> (r: bool)
    ensures
        r == (a@ == b@),
{
    if a.len() != b.len() {
        return false;
    }
    let mut i: usize = 0;
    while i < a.len()
        invariant
            a@.len() == b@.len(),
            0 <= i <= a@.len(),
            forall|m: int| 0 <= m < i ==> a@[m] == b@[m],
        decreases a@.len() - i,
    {
        if a[i] != b[i] {
            return false;
        }
        i = i + 1;
    }
    assert(a@ =~= b@);
    true
}

/// Whether `a` begins with `p`.
pub fn starts_with(a: &[u8], p: &[u8]) -> (r: bool)
    ensures
        r == (a@.len() >= p@.len() && a@.subrange(0, p@.len() as int) == p@),
{
    if a.len() < p.len() {
        return false;
    }
    let mut i: usize = 0;
    while i < p.len()
        invariant
            a@.len() >= p@.len(),
            0 <= i <= p@.len(),
            forall|m: int| 0 <= m < i ==> a@[m] == p@[m],
        decreases p@.len() - i,
    {
        if a[i] != p[i] {
            assert(a@.subrange(0, p@.len() as int)[i as int] != p@[i as int]);
            return false;
        }
        i = i + 1;
    }
    assert(a@.subrange(0, p@.len() as int) =~= p@);
    true
}

/// A copy of a byte string.
pub fn copy_bytes(b: &[u8]) -> (r: Vec<u8>)
    ensures
        r@ == b@,
{
    let mut out: Vec<u8> = Vec::new();
    push_bytes(&mut out, b);
    out
}

/// Appends `b` to `out`.
pub fn push_bytes(out: &mut Vec<u8>, b: &[u8])
    ensures
        final(out)@ == old(out)@ + b@,
{
    push_slice(b, 0, b.len(), out);
    assert(b@.subrange(0, b@.len() as int) =~= b@);
}

/// The byte at `i`, or 0 (which no multi-byte sequence accepts) past the end.
pub open spec fn byte_at(s: Seq<u8>, i: int) -> u8 {
    if 0 <= i < s.len() {
        s[i]
    } else {
        0
    }
}

pub open spec fn is_cont(b: u8) -> bool {
    0x80 <= b && b <= 0xBF
}

/// The number of bytes of a UTF-8 sequence that begins with `b`; 0 when no
/// sequence can begin with it.
pub open spec fn utf8_width(b: u8) -> nat {
    if b < 0x80 {
        1
    } else if 0xC2 <= b && b <= 0xDF {
        2
    } else if 0xE0 <= b && b <= 0xEF {
        3
    } else if 0xF0 <= b && b <= 0xF4 {
        4
    } else {
        0
    }
}

/// Whether `b1` may follow the leading byte `b0` of a multi-byte sequence
/// (this excludes overlong forms, surrogates and values past U+10FFFF).
pub open spec fn second_ok(b0: u8, b1: u8) -> bool {
    if b0 == 0xE0 {
        0xA0 <= b1 && b1 <= 0xBF
    } else if b0 == 0xED {
        0x80 <= b1 && b1 <= 0x9F
    } else if b0 == 0xF0 {
        0x90 <= b1 && b1 <= 0xBF
    } else if b0 == 0xF4 {
        0x80 <= b1 && b1 <= 0x8F
    } else {
        is_cont(b1)
    }
}

pub const REPLACEMENT: u32 = 0xFFFD;

/// The Unicode scalar that the UTF-8 bytes at `i` (with `i < s.len()`) encode,
/// and how many bytes it takes. A malformed sequence yields U+FFFD in place of
/// its longest valid prefix, or of one byte, as `String::from_utf8_lossy` does.
pub open spec fn utf8_step(s: Seq<u8>, i: int) -> (nat, nat) {
    let b0 = s[i];
    let b1 = byte_at(s, i + 1);
    let b2 = byte_at(s, i + 2);
    let b3 = byte_at(s, i + 3);
    let w = utf8_width(b0);
    if w == 1 {
        (b0 as nat, 1)
    } else if w == 0 || !second_ok(b0, b1) {
        (REPLACEMENT as nat, 1)
    } else if w == 2 {
        (((b0 - 0xC0) * 64 + (b1 - 0x80)) as nat, 2)
    } else if !is_cont(b2) {
        (REPLACEMENT as nat, 2)
    } else if w == 3 {
        (((b0 - 0xE0) * 4096 + (b1 - 0x80) * 64 + (b2 - 0x80)) as nat, 3)
    } else if !is_cont(b3) {
        (REPLACEMENT as nat, 3)
    } else {
        (((b0 - 0xF0) * 262144 + (b1 - 0x80) * 4096 + (b2 - 0x80) * 64 + (b3 - 0x80)) as nat, 4)
    }
}

/// The Unicode scalars of the bytes of `s` from `i` on, decoded as UTF-8 with
/// malformed sequences replaced by U+FFFD.
pub open spec fn scalars_from(s: Seq<u8>, i: int) -> Seq<nat>
    decreases s.len() - i,
{
    if i < 0 || i >= s.len() {
        Seq::empty()
    } else {
        seq![utf8_step(s, i).0] + scalars_from(s, i + utf8_step(s, i).1)
    }
}

/// The Unicode scalar sequence of a byte string, as `String::from_utf8_lossy`
/// reads it.
pub open spec fn scalars(s: Seq<u8>) -> Seq<nat> {
    scalars_from(s, 0)
}

/// Decodes the Unicode scalar at `i`, returning it and the bytes it takes.
pub fn next_scalar(s: &[u8], i: usize) -> (r: (u32, usize))
    requires
        i < s@.len(),
    ensures
        r.0 as nat == utf8_step(s@, i as int).0,
        r.1 as nat == utf8_step(s@, i as int).1,
        r.0 <= 0x10FFFF,
{
    let len = s.len();
    let b0 = s[i];
    let b1: u8 = if len - i > 1 { s[i + 1] } else { 0 };
    let b2: u8 = if len - i > 2 { s[i + 2] } else { 0 };
    let b3: u8 = if len - i > 3 { s[i + 3] } else { 0 };
    let w: usize = if b0 < 0x80 {
        1
    } else if 0xC2 <= b0 && b0 <= 0xDF {
        2
    } else if 0xE0 <= b0 && b0 <= 0xEF {
        3
    } else if 0xF0 <= b0 && b0 <= 0xF4 {
        4
    } else {
        0
    };
    let ok1 = if b0 == 0xE0 {
        0xA0 <= b1 && b1 <= 0xBF
    } else if b0 == 0xED {
        0x80 <= b1 && b1 <= 0x9F
    } else if b0 == 0xF0 {
        0x90 <= b1 && b1 <= 0xBF
    } else if b0 == 0xF4 {
        0x80 <= b1 && b1 <= 0x8F
    } else {
        0x80 <= b1 && b1 <= 0xBF
    };
    let c2 = 0x80 <= b2 && b2 <= 0xBF;
    let c3 = 0x80 <= b3 && b3 <= 0xBF;
    if w == 1 {
        (b0 as u32, 1)
    } else if w == 0 || !ok1 {
        (REPLACEMENT, 1)
    } else if w == 2 {
        ((b0 as u32 - 0xC0) * 64 + (b1 as u32 - 0x80), 2)
    } else if !c2 {
        (REPLACEMENT, 2)
    } else if w == 3 {
        ((b0 as u32 - 0xE0) * 4096 + (b1 as u32 - 0x80) * 64 + (b2 as u32 - 0x80), 3)
    } else if !c3 {
        (REPLACEMENT, 3)
    } else {
        (
            (b0 as u32 - 0xF0) * 262144 + (b1 as u32 - 0x80) * 4096 + (b2 as u32 - 0x80) * 64 + (
            b3 as u32 - 0x80),
            4,
        )
    }
}

} // verus!
