//! The wire codec: frames, their canonical byte form, and a decoder that reads
//! one frame from the front of a byte buffer.
use vstd::prelude::*;
use crate::text::{
    CR, LF, lower, all_digits, digits_value, decimal, signed_decimal,
    push_lower, push_slice, push_decimal, push_signed_decimal, copy_bytes, lemma_digits_push,
    lemma_digits_prefix_le,
};

verus! {

broadcast use vstd::std_specs::vec::group_vec_axioms;

/// One unit of the wire protocol. String payloads are raw bytes.
#[derive(Debug, PartialEq)]
pub enum RESP {
    Integer(i64),
    Simple(Vec<u8>),
    Error(Vec<u8>),
    Bulk(Vec<u8>),
    Array(Vec<RESP>),
    Null,
    Boolean(bool),
    /// A double, held as its decimal text.
    Double(Vec<u8>),
    BigNumber(i128),
    Verbatim(Vec<u8>),
}

/// The mathematical model of a frame.
pub enum Value {
    Integer(int),
    Simple(Seq<u8>),
    Error(Seq<u8>),
    Bulk(Seq<u8>),
    Array(Seq<Value>),
    Null,
    Boolean(bool),
    Double(Seq<u8>),
    BigNumber(int),
    Verbatim(Seq<u8>),
}

impl View for RESP {
    type V = Value;

    open spec fn view(&self) -> Value
        decreases self,
    {
        match self {
            RESP::Integer(i) => Value::Integer(*i as int),
            RESP::Simple(s) => Value::Simple(s@),
            RESP::Error(s) => Value::Error(s@),
            RESP::Bulk(s) => Value::Bulk(s@),
            RESP::Array(a) => Value::Array(
                Seq::new(a.len() as nat, |i: int| if 0 <= i < a.len() { a[i].view() } else { Value::Null }),
            ),
            RESP::Null => Value::Null,
            RESP::Boolean(b) => Value::Boolean(*b),
            RESP::Double(d) => Value::Double(d@),
            RESP::BigNumber(n) => Value::BigNumber(*n as int),
            RESP::Verbatim(s) => Value::Verbatim(s@),
        }
    }
}

pub open spec fn crlf() -> Seq<u8> {
    seq![CR, LF]
}

/// The canonical byte form of a frame.
pub open spec fn encode(v: Value) -> Seq<u8>
    decreases v, 0int, 0nat,
{
    match v {
        Value::Integer(i) => seq![58u8] + signed_decimal(i) + crlf(),
        Value::Simple(s) => seq![43u8] + s + crlf(),
        Value::Error(s) => seq![45u8] + s + crlf(),
        Value::Bulk(s) => seq![36u8] + decimal(s.len()) + crlf() + s + crlf(),
        Value::Array(items) => seq![42u8] + decimal(items.len()) + crlf() + encode_items(
            items,
            items.len(),
        ),
        Value::Null => seq![36u8, 45u8, 49u8] + crlf(),
        Value::Boolean(b) => seq![58u8, if b { 116u8 } else { 102u8 }] + crlf(),
        Value::Double(d) => seq![58u8] + d + crlf(),
        Value::BigNumber(n) => seq![58u8] + signed_decimal(n) + crlf(),
        Value::Verbatim(s) => seq![43u8] + s + crlf(),
    }
}

/// The encodings of the first `n` items, one after another.
pub open spec fn encode_items(items: Seq<Value>, n: nat) -> Seq<u8>
    decreases items, 1int, n,
{
    if n == 0 || n > items.len() {
        Seq::empty()
    } else {
        encode_items(items, (n - 1) as nat) + encode(items[n - 1])
    }
}

/// Index of the first CR in `s` at or after `from`, or `s.len()` if there is none.
pub open spec fn first_cr(s: Seq<u8>, from: int) -> int
    decreases s.len() - from,
{
    if from >= s.len() {
        s.len() as int
    } else if s[from] == CR {
        from
    } else {
        first_cr(s, from + 1)
    }
}

/// The header line of a frame: the text between the type byte and the first
/// CR, provided an LF follows that CR; with the header's length, CRLF included.
pub open spec fn header(s: Seq<u8>) -> Option<(Seq<u8>, int)> {
    let j = first_cr(s, 1);
    if 1 <= j && j + 1 < s.len() && s[j + 1] == LF {
        Some((s.subrange(1, j), j + 2))
    } else {
        None
    }
}

/// The text of a null bulk's length field.
pub open spec fn minus_one() -> Seq<u8> {
    seq![45u8, 49u8]
}

/// Decoding of one frame from the front of `s`: the number of bytes it takes
/// and the frame, or `None` when `s` holds no complete frame of a recognised
/// kind. Simple and bulk payloads are ASCII lower-cased.
pub open spec fn decode(s: Seq<u8>) -> Option<(nat, Value)>
    decreases s.len(), 0int, 0nat,
{
    if s.len() == 0 {
        None
    } else if s[0] != 43 && s[0] != 36 && s[0] != 42 {
        None
    } else {
        match header(s) {
            None => None,
            Some((t, h)) => {
                if s[0] == 43 {
                    Some((h as nat, Value::Simple(lower(t))))
                } else if s[0] == 36 {
                    if t == minus_one() {
                        Some((h as nat, Value::Null))
                    } else if all_digits(t) && h + digits_value(t) + 2 <= s.len() && s[h
                        + digits_value(t)] == CR && s[h + digits_value(t) + 1] == LF {
                        Some(
                            (
                                (h + digits_value(t) + 2) as nat,
                                Value::Bulk(lower(s.subrange(h, h + digits_value(t)))),
                            ),
                        )
                    } else {
                        None
                    }
                } else if all_digits(t) {
                    match decode_items(s.subrange(h, s.len() as int), digits_value(t)) {
                        Some((k, items)) => Some(((h + k) as nat, Value::Array(items))),
                        None => None,
                    }
                } else {
                    None
                }
            },
        }
    }
}

/// Decoding of `n` frames, one after another, from the front of `s`.
pub open spec fn decode_items(s: Seq<u8>, n: nat) -> Option<(nat, Seq<Value>)>
    decreases s.len(), 1int, n,
{
    if n == 0 {
        Some((0, Seq::empty()))
    } else {
        match decode_items(s, (n - 1) as nat) {
            None => None,
            Some((k, vs)) => {
                if k <= s.len() {
                    match decode(s.subrange(k as int, s.len() as int)) {
                        Some((k2, v)) => Some((k + k2, vs.push(v))),
                        None => None,
                    }
                } else {
                    None
                }
            },
        }
    }
}

/// Relates an executable decoding result to the model's.
pub open spec fn decoded_as(r: Option<(usize, RESP)>, d: Option<(nat, Value)>) -> bool {
    match r {
        Some((n, f)) => d == Some((n as nat, f@)),
        None => d is None,
    }
}


/// Locates the first CR from `from` on, given that `j` is where it stands.
pub proof fn lemma_first_cr(s: Seq<u8>, from: int, j: int)
    requires
        0 <= from <= j <= s.len(),
        forall|m: int| from <= m < j ==> s[m] != CR,
        j == s.len() || s[j] == CR,
    ensures
        first_cr(s, from) == j,
    decreases j - from,
{
    if from < j {
        lemma_first_cr(s, from + 1, j);
    }
}

/// A decoded frame takes at least one byte and no more than there are.
pub proof fn lemma_decode_len(s: Seq<u8>)
    ensures
        decode(s) matches Some((k, v)) ==> 1 <= k <= s.len(),
    decreases s.len(), 0int, 0nat,
{
    if s.len() > 0 && (s[0] == 43 || s[0] == 36 || s[0] == 42) {
        match header(s) {
            Some((t, h)) => {
                if s[0] == 42 && all_digits(t) {
                    lemma_items_len(s.subrange(h, s.len() as int), digits_value(t));
                }
            },
            None => {},
        }
    }
}

/// Decoding `n` frames takes at least `n` bytes and yields `n` frames.
pub proof fn lemma_items_len(s: Seq<u8>, n: nat)
    ensures
        decode_items(s, n) matches Some((k, vs)) ==> n <= k <= s.len() && vs.len() == n,
    decreases s.len(), 1int, n,
{
    if n > 0 {
        lemma_items_len(s, (n - 1) as nat);
        match decode_items(s, (n - 1) as nat) {
            Some((k, vs)) => {
                if k <= s.len() {
                    lemma_decode_len(s.subrange(k as int, s.len() as int));
                }
            },
            None => {},
        }
    }
}

/// Once decoding `m` frames fails, decoding more fails too.
pub proof fn lemma_items_none(s: Seq<u8>, m: nat, n: nat)
    requires
        m <= n,
        decode_items(s, m) is None,
    ensures
        decode_items(s, n) is None,
    decreases n - m,
{
    if m < n {
        lemma_items_none(s, m, (n - 1) as nat);
    }
}

/// Finds the CR that ends the header line of the frame at `pos`.
pub(crate) fn header_end(src: &[u8], pos: usize) -> (r: Option<usize>)
    requires
        pos < src@.len(),
    ensures
        ({
            let s = src@.subrange(pos as int, src@.len() as int);
            match r {
                Some(j) => pos < j && j + 1 < src@.len() && header(s) == Some(
                    (src@.subrange(pos + 1, j as int), j - pos + 2),
                ),
                None => header(s) is None,
            }
        }),
{
    let ghost s = src@.subrange(pos as int, src@.len() as int);
    let len = src.len();
    let mut j: usize = pos + 1;
    while j < src.len() && src[j] != CR
        invariant
            len == src@.len(),
            pos + 1 <= j <= src@.len(),
            forall|m: int| pos + 1 <= m < j ==> src@[m] != CR,
        decreases src@.len() - j,
    {
        j = j + 1;
    }
    proof {
        lemma_first_cr(s, 1, j - pos);
    }
    if len - j > 1 && src[j + 1] == LF {
        assert(s.subrange(1, j - pos) =~= src@.subrange(pos + 1, j as int));
        Some(j)
    } else {
        None
    }
}

/// The value of the digits `src[start..end]`, provided they are all digits and
/// the value does not exceed the buffer's length.
pub(crate) fn parse_len(src: &[u8], start: usize, end: usize) -> (r: Option<usize>)
    requires
        start <= end <= src@.len(),
    ensures
        ({
            let t = src@.subrange(start as int, end as int);
            match r {
                Some(v) => all_digits(t) && v == digits_value(t) && v <= src@.len(),
                None => !all_digits(t) || digits_value(t) > src@.len(),
            }
        }),
{
    let ghost t = src@.subrange(start as int, end as int);
    if start == end {
        return None;
    }
    let mut v: usize = 0;
    let mut i: usize = start;
    assert(src@.subrange(start as int, start as int) =~= Seq::<u8>::empty());
    while i < end
        invariant
            start <= i <= end <= src@.len(),
            t == src@.subrange(start as int, end as int),
            forall|m: int| start <= m < i ==> crate::text::is_digit(#[trigger] src@[m]),
            v == digits_value(src@.subrange(start as int, i as int)),
            v <= src@.len(),
        decreases end - i,
    {
        let b = src[i];
        if b < 48 || b > 57 {
            assert(!crate::text::is_digit(t[i - start]));
            return None;
        }
        let ghost pre = src@.subrange(start as int, i as int);
        assert(src@.subrange(start as int, i + 1) =~= pre.push(b));
        proof {
            lemma_digits_push(pre, b);
        }
        let nv: u128 = (v as u128) * 10 + ((b - 48) as u128);
        if nv > src.len() as u128 {
            proof {
                if all_digits(t) {
                    lemma_digits_prefix_le(t, i + 1 - start);
                    assert(t.subrange(0, i + 1 - start) =~= src@.subrange(start as int, i + 1));
                }
            }
            return None;
        }
        v = nv as usize;
        i = i + 1;
    }
    assert(src@.subrange(start as int, i as int) =~= t);
    Some(v)
}

/// Decodes one frame from `src[pos..]`.
pub(crate) fn decode_at(src: &[u8], pos: usize) -> (r: Option<(usize, RESP)>)
    requires
        pos <= src@.len(),
    ensures
        decoded_as(r, decode(src@.subrange(pos as int, src@.len() as int))),
    decreases src@.len() - pos,
{
    let ghost s = src@.subrange(pos as int, src@.len() as int);
    let len = src.len();
    if pos >= len {
        return None;
    }
    let tag = src[pos];
    if tag != 43 && tag != 36 && tag != 42 {
        return None;
    }
    let j = match header_end(src, pos) {
        None => {
            return None;
        },
        Some(j) => j,
    };
    let ghost t = src@.subrange(pos + 1, j as int);
    let h = j + 2;
    if tag == 43 {
        let mut out: Vec<u8> = Vec::new();
        push_lower(src, pos + 1, j, &mut out);
        assert(out@ =~= lower(t));
        return Some((h - pos, RESP::Simple(out)));
    }
    if tag == 36 {
        if j == pos + 3 && src[pos + 1] == 45 && src[pos + 2] == 49 {
            assert(t =~= minus_one());
            return Some((h - pos, RESP::Null));
        }
        assert(t != minus_one()) by {
            if t == minus_one() {
                assert(t.len() == 2);
                assert(t[0] == src@[pos + 1]);
                assert(t[1] == src@[pos + 2]);
            }
        }
        match parse_len(src, pos + 1, j) {
            None => {
                return None;
            },
            Some(n) => {
                if n <= src.len() - h && src.len() - h - n >= 2 && src[h + n] == CR && src[h + n
                    + 1] == LF {
                    let mut out: Vec<u8> = Vec::new();
                    push_lower(src, h, h + n, &mut out);
                    assert(src@.subrange(h as int, h + n) =~= s.subrange(h - pos, h - pos + n));
                    return Some((h + n + 2 - pos, RESP::Bulk(out)));
                } else {
                    return None;
                }
            },
        }
    }
    let ghost sh = s.subrange(h - pos, s.len() as int);
    let n = match parse_len(src, pos + 1, j) {
        None => {
            proof {
                if all_digits(t) {
                    lemma_items_len(sh, digits_value(t));
                }
            }
            return None;
        },
        Some(n) => n,
    };
    assert(sh =~= src@.subrange(h as int, src@.len() as int));
    let mut items: Vec<RESP> = Vec::new();
    let mut p: usize = h;
    let mut i: usize = 0;
    assert(Seq::new(0, |m: int| items@[m]@) =~= Seq::<Value>::empty());
    while i < n
        invariant
            len == src@.len(),
            s == src@.subrange(pos as int, src@.len() as int),
            s.len() > 0 && s[0] == 42,
            header(s) == Some((t, h - pos)),
            all_digits(t),
            pos < h <= p <= src@.len(),
            h == j + 2,
            i <= n,
            n == digits_value(t),
            sh == src@.subrange(h as int, src@.len() as int),
            sh == s.subrange(h - pos, s.len() as int),
            items@.len() == i,
            decode_items(sh, i as nat) == Some(
                ((p - h) as nat, Seq::new(i as nat, |m: int| items@[m]@)),
            ),
        decreases n - i,
    {
        assert(sh.subrange(p - h, sh.len() as int) =~= src@.subrange(p as int, src@.len() as int));
        proof {
            lemma_decode_len(src@.subrange(p as int, src@.len() as int));
        }
        match decode_at(src, p) {
            None => {
                assert(decode_items(sh, (i + 1) as nat) is None);
                proof {
                    lemma_items_none(sh, (i + 1) as nat, n as nat);
                }
                return None;
            },
            Some((k, f)) => {
                assert(decode(src@.subrange(p as int, src@.len() as int)) == Some((k as nat, f@)));
                assert(k <= src@.len() - p);
                let ghost old_items = items@;
                items.push(f);
                p = p + k;
                i = i + 1;
                assert(Seq::new(i as nat, |m: int| items@[m]@) =~= Seq::new(
                    (i - 1) as nat,
                    |m: int| old_items[m]@,
                ).push(f@));
            },
        }
    }
    let r = RESP::Array(items);
    assert(r@->Array_0 =~= Seq::new(i as nat, |m: int| items@[m]@));
    Some((p - pos, r))
}

/// The frames that the decoder reads back: simple strings without a CR, bulk
/// strings, the null bulk, and arrays of such frames.
pub open spec fn decodable(v: Value) -> bool
    decreases v, 0int, 0nat,
{
    match v {
        Value::Simple(s) => forall|i: int| 0 <= i < s.len() ==> s[i] != CR,
        Value::Bulk(_) => true,
        Value::Null => true,
        Value::Array(items) => decodable_items(items, items.len()),
        _ => false,
    }
}

pub open spec fn decodable_items(items: Seq<Value>, n: nat) -> bool
    decreases items, 1int, n,
{
    if n == 0 || n > items.len() {
        true
    } else {
        decodable_items(items, (n - 1) as nat) && decodable(items[n - 1])
    }
}

/// A frame with its simple and bulk payloads ASCII lower-cased.
pub open spec fn lower_value(v: Value) -> Value
    decreases v,
{
    match v {
        Value::Simple(s) => Value::Simple(lower(s)),
        Value::Bulk(s) => Value::Bulk(lower(s)),
        Value::Array(items) => Value::Array(
            Seq::new(
                items.len(),
                |i: int| if 0 <= i < items.len() { lower_value(items[i]) } else { Value::Null },
            ),
        ),
        _ => v,
    }
}

/// The header of a frame written as a type byte, a text without CR, and CRLF.
pub proof fn lemma_header(tag: u8, t: Seq<u8>, body: Seq<u8>)
    requires
        forall|i: int| 0 <= i < t.len() ==> t[i] != CR,
    ensures
        (seq![tag] + t + crlf() + body)[0] == tag,
        header(seq![tag] + t + crlf() + body) == Some((t, t.len() + 3int)),
        (seq![tag] + t + crlf() + body).subrange(t.len() + 3int, (seq![tag] + t + crlf()
            + body).len() as int) == body,
{
    let x = seq![tag] + t + crlf() + body;
    lemma_first_cr(x, 1, t.len() + 1int);
    assert(x.subrange(1, t.len() + 1int) =~= t);
    assert(x.subrange(t.len() + 3int, x.len() as int) =~= body);
}

/// Decoding the encodings of the first `n` items reads them back, lower-cased.
proof fn lemma_decode_encode_items(items: Seq<Value>, n: nat, rest: Seq<u8>)
    requires
        n <= items.len(),
        decodable_items(items, n),
    ensures
        decode_items(encode_items(items, n) + rest, n) == Some(
            (
                encode_items(items, n).len(),
                Seq::new(n, |i: int| lower_value(items[i])),
            ),
        ),
    decreases items, 1int, n,
{
    let x = encode_items(items, n) + rest;
    if n == 0 {
        assert(Seq::new(0, |i: int| lower_value(items[i])) =~= Seq::<Value>::empty());
    } else {
        let e0 = encode_items(items, (n - 1) as nat);
        let e = encode(items[n - 1]);
        assert(x =~= e0 + (e + rest));
        lemma_decode_encode_items(items, (n - 1) as nat, e + rest);
        assert(x.subrange(e0.len() as int, x.len() as int) =~= e + rest);
        lemma_decode_encode(items[n - 1], rest);
        assert(Seq::new(n, |i: int| lower_value(items[i])) =~= Seq::new(
            (n - 1) as nat,
            |i: int| lower_value(items[i]),
        ).push(lower_value(items[n - 1])));
    }
}

/// Decoding the encoding of a decodable frame, whatever bytes follow it, takes
/// exactly the encoding and yields the frame with its payloads lower-cased.
pub proof fn lemma_decode_encode(v: Value, rest: Seq<u8>)
    requires
        decodable(v),
    ensures
        decode(encode(v) + rest) == Some((encode(v).len(), lower_value(v))),
    decreases v, 0int, 0nat,
{
    let x = encode(v) + rest;
    match v {
        Value::Simple(s) => {
            assert(x =~= seq![43u8] + s + crlf() + rest);
            lemma_header(43u8, s, rest);
        },
        Value::Null => {
            assert(x =~= seq![36u8] + minus_one() + crlf() + rest);
            lemma_header(36u8, minus_one(), rest);
        },
        Value::Bulk(b) => {
            let d = decimal(b.len());
            crate::text::lemma_decimal(b.len());
            assert(x =~= seq![36u8] + d + crlf() + (b + crlf() + rest));
            lemma_header(36u8, d, b + crlf() + rest);
            assert(d != minus_one()) by {
                if d == minus_one() {
                    assert(crate::text::is_digit(d[0]));
                }
            }
            let h = d.len() + 3int;
            assert(x.subrange(h, h + b.len() as int) =~= b);
        },
        Value::Array(items) => {
            let d = decimal(items.len());
            crate::text::lemma_decimal(items.len());
            let body = encode_items(items, items.len()) + rest;
            assert(x =~= seq![42u8] + d + crlf() + body);
            lemma_header(42u8, d, body);
            lemma_decode_encode_items(items, items.len(), rest);
            assert(Seq::new(items.len(), |i: int| lower_value(items[i])) =~= lower_value(
                v,
            )->Array_0);
        },
        _ => {},
    }
}

/// Encoding a decodable frame whose payloads are lower case and decoding the
/// result gives back the same frame and consumes exactly the encoding.
pub proof fn lemma_round_trip(v: Value)
    requires
        decodable(v),
        lower_value(v) == v,
    ensures
        decode(encode(v)) == Some((encode(v).len(), v)),
{
    lemma_decode_encode(v, Seq::empty());
    assert(encode(v) + Seq::<u8>::empty() =~= encode(v));
}

/// Bytes that follow an encoded frame do not change how the frame decodes.
pub proof fn lemma_prefix_safe(v: Value, suffix: Seq<u8>)
    requires
        decodable(v),
    ensures
        decode(encode(v) + suffix) == decode(encode(v)),
        decode(encode(v) + suffix) == Some((encode(v).len(), lower_value(v))),
{
    lemma_decode_encode(v, suffix);
    lemma_decode_encode(v, Seq::empty());
    assert(encode(v) + Seq::<u8>::empty() =~= encode(v));
}

/// The front of `s` can never become a frame, whatever follows: its type
/// byte is unknown, its header line has a CR not followed by LF, or its length
/// field is not a number.
pub open spec fn malformed(s: Seq<u8>) -> bool {
    &&& s.len() > 0
    &&& {
        ||| s[0] != 43 && s[0] != 36 && s[0] != 42
        ||| first_cr(s, 1) + 1 < s.len() && s[first_cr(s, 1) + 1] != LF
        ||| match header(s) {
            Some((t, h)) => (s[0] == 36 && t != minus_one() && !all_digits(t)) || (s[0] == 42
                && !all_digits(t)),
            None => false,
        }
    }
}

proof fn lemma_first_cr_bounds(s: Seq<u8>, from: int)
    requires
        0 <= from <= s.len(),
    ensures
        from <= first_cr(s, from) <= s.len(),
    decreases s.len() - from,
{
    if from < s.len() && s[from] != CR {
        lemma_first_cr_bounds(s, from + 1);
    }
}

/// A CR found within `s` stays the first one when bytes are appended.
proof fn lemma_first_cr_extend(s: Seq<u8>, t: Seq<u8>, from: int)
    requires
        1 <= from,
        first_cr(s, from) < s.len(),
    ensures
        first_cr(s + t, from) == first_cr(s, from),
    decreases s.len() - from,
{
    if from < s.len() && s[from] != CR {
        lemma_first_cr_extend(s, t, from + 1);
    }
}

/// Malformed bytes stay malformed: no bytes appended to them make a frame.
pub proof fn lemma_malformed_final(s: Seq<u8>, t: Seq<u8>)
    requires
        malformed(s),
    ensures
        malformed(s + t),
        decode(s + t) is None,
{
    let x = s + t;
    assert(x[0] == s[0]);
    lemma_first_cr_bounds(s, 1);
    if first_cr(s, 1) < s.len() {
        lemma_first_cr_extend(s, t, 1);
        let j = first_cr(s, 1);
        if j + 1 < s.len() {
            assert(x[j + 1] == s[j + 1]);
            assert(x.subrange(1, j) =~= s.subrange(1, j));
        }
    } else {
        assert(header(s) is None);
    }
}

/// A frame decoded from `x` decodes the same when bytes are appended to `x`.
pub proof fn lemma_decode_extend(x: Seq<u8>, t: Seq<u8>)
    requires
        decode(x) is Some,
    ensures
        decode(x + t) == decode(x),
    decreases x.len(), 0int, 0nat,
{
    let y = x + t;
    lemma_first_cr_bounds(x, 1);
    let j = first_cr(x, 1);
    lemma_first_cr_extend(x, t, 1);
    assert(y[0] == x[0]);
    assert(y[j + 1] == x[j + 1]);
    assert(y.subrange(1, j) =~= x.subrange(1, j));
    let tt = x.subrange(1, j);
    let h = j + 2;
    if x[0] == 36 && tt != minus_one() {
        let n = digits_value(tt);
        assert(y[h + n] == x[h + n]);
        assert(y[h + n + 1] == x[h + n + 1]);
        assert(y.subrange(h, h + n) =~= x.subrange(h, h + n));
    } else if x[0] == 42 {
        let n = digits_value(tt);
        assert(y.subrange(h, y.len() as int) =~= x.subrange(h, x.len() as int) + t);
        lemma_items_extend(x.subrange(h, x.len() as int), n, t);
    }
}

/// Frames decoded one after another from `x` decode the same when bytes are
/// appended to `x`.
pub proof fn lemma_items_extend(x: Seq<u8>, n: nat, t: Seq<u8>)
    requires
        decode_items(x, n) is Some,
    ensures
        decode_items(x + t, n) == decode_items(x, n),
    decreases x.len(), 1int, n,
{
    if n > 0 {
        lemma_items_extend(x, (n - 1) as nat, t);
        let k = decode_items(x, (n - 1) as nat)->Some_0.0;
        let y = x + t;
        assert(y.subrange(k as int, y.len() as int) =~= x.subrange(k as int, x.len() as int) + t);
        lemma_decode_extend(x.subrange(k as int, x.len() as int), t);
    }
}

/// Whether the front of `src` can never become a frame.
pub fn is_malformed(src: &[u8]) -> (r: bool)
    ensures
        r == malformed(src@),
{
    let len = src.len();
    if len == 0 {
        return false;
    }
    let tag = src[0];
    if tag != 43 && tag != 36 && tag != 42 {
        return true;
    }
    let mut j: usize = 1;
    while j < len && src[j] != CR
        invariant
            len == src@.len(),
            1 <= j <= len,
            forall|m: int| 1 <= m < j ==> src@[m] != CR,
        decreases len - j,
    {
        j = j + 1;
    }
    proof {
        lemma_first_cr(src@, 1, j as int);
    }
    if len - j <= 1 {
        return false;
    }
    if src[j + 1] != LF {
        return true;
    }
    if tag == 36 {
        if j == 3 && src[1] == 45 && src[2] == 49 {
            assert(src@.subrange(1, j as int) =~= minus_one());
            return false;
        }
        let ghost t = src@.subrange(1, j as int);
        assert(t != minus_one()) by {
            if t == minus_one() {
                assert(t.len() == 2);
                assert(t[0] == src@[1]);
                assert(t[1] == src@[2]);
            }
        }
    }
    if tag == 43 {
        return false;
    }
    !crate::text::is_all_digits(src, 1, j)
}

impl RESP {
    /// Appends the canonical byte form of this frame to `out`.
    pub fn encode_into(&self, out: &mut Vec<u8>)
        ensures
            final(out)@ == old(out)@ + encode(self@),
        decreases self@,
    {
        let ghost base = out@;
        match self {
            RESP::Integer(i) => {
                out.push(58);
                push_signed_decimal(*i as i128, out);
                out.push(CR);
                out.push(LF);
            },
            RESP::Simple(s) => {
                out.push(43);
                push_slice(s.as_slice(), 0, s.len(), out);
                out.push(CR);
                out.push(LF);
            },
            RESP::Error(s) => {
                out.push(45);
                push_slice(s.as_slice(), 0, s.len(), out);
                out.push(CR);
                out.push(LF);
            },
            RESP::Bulk(s) => {
                out.push(36);
                push_decimal(s.len() as u128, out);
                out.push(CR);
                out.push(LF);
                push_slice(s.as_slice(), 0, s.len(), out);
                out.push(CR);
                out.push(LF);
            },
            RESP::Array(a) => {
                out.push(42);
                push_decimal(a.len() as u128, out);
                out.push(CR);
                out.push(LF);
                let ghost head = out@;
                let ghost items = self@->Array_0;
                let mut i: usize = 0;
                while i < a.len()
                    invariant
                        0 <= i <= a.len(),
                        self@ is Array,
                        items == self@->Array_0,
                        items.len() == a.len(),
                        forall|m: int| 0 <= m < a.len() ==> items[m] == (#[trigger] a[m])@,
                        out@ == head + encode_items(items, i as nat),
                    decreases a.len() - i,
                {
                    assert(decreases_to!(self@ => self@->Array_0));
                    assert(decreases_to!(items => items[i as int]));
                    a[i].encode_into(out);
                    i = i + 1;
                }
            },
            RESP::Null => {
                out.push(36);
                out.push(45);
                out.push(49);
                out.push(CR);
                out.push(LF);
            },
            RESP::Boolean(b) => {
                out.push(58);
                out.push(if *b { 116 } else { 102 });
                out.push(CR);
                out.push(LF);
            },
            RESP::Double(d) => {
                out.push(58);
                push_slice(d.as_slice(), 0, d.len(), out);
                out.push(CR);
                out.push(LF);
            },
            RESP::BigNumber(n) => {
                out.push(58);
                push_signed_decimal(*n, out);
                out.push(CR);
                out.push(LF);
            },
            RESP::Verbatim(s) => {
                out.push(43);
                push_slice(s.as_slice(), 0, s.len(), out);
                out.push(CR);
                out.push(LF);
            },
        }
        assert(final(out)@ =~= base + encode(self@));
    }

    /// A bulk string frame.
    pub fn new_bulk(s: Vec<u8>) -> (r: RESP)
        ensures
            r@ == Value::Bulk(s@),
    {
        RESP::Bulk(s)
    }

    /// A simple string frame.
    pub fn new_simple(s: Vec<u8>) -> (r: RESP)
        ensures
            r@ == Value::Simple(s@),
    {
        RESP::Simple(s)
    }

    /// The null bulk frame.
    pub fn new_null() -> (r: RESP)
        ensures
            r@ == Value::Null,
    {
        RESP::Null
    }

    /// A copy of this frame.
    pub fn duplicate(&self) -> (r: RESP)
        ensures
            r@ == self@,
        decreases self@,
    {
        match self {
            RESP::Integer(i) => RESP::Integer(*i),
            RESP::Simple(s) => RESP::Simple(copy_bytes(s.as_slice())),
            RESP::Error(s) => RESP::Error(copy_bytes(s.as_slice())),
            RESP::Bulk(s) => RESP::Bulk(copy_bytes(s.as_slice())),
            RESP::Array(a) => {
                let ghost items = self@->Array_0;
                let mut out: Vec<RESP> = Vec::new();
                let mut i: usize = 0;
                while i < a.len()
                    invariant
                        self@ is Array,
                        items == self@->Array_0,
                        items.len() == a.len(),
                        forall|m: int| 0 <= m < a.len() ==> items[m] == (#[trigger] a[m])@,
                        0 <= i <= a.len(),
                        out@.len() == i,
                        forall|m: int| 0 <= m < i ==> (#[trigger] out@[m])@ == items[m],
                    decreases a.len() - i,
                {
                    assert(decreases_to!(self@ => self@->Array_0));
                    assert(decreases_to!(items => items[i as int]));
                    out.push(a[i].duplicate());
                    i = i + 1;
                }
                let r = RESP::Array(out);
                assert(r@->Array_0 =~= items);
                r
            },
            RESP::Null => RESP::Null,
            RESP::Boolean(b) => RESP::Boolean(*b),
            RESP::Double(d) => RESP::Double(copy_bytes(d.as_slice())),
            RESP::BigNumber(n) => RESP::BigNumber(*n),
            RESP::Verbatim(s) => RESP::Verbatim(copy_bytes(s.as_slice())),
        }
    }

    /// Decodes one frame from the front of `src`, returning the number of bytes
    /// it takes and the frame; `None` when `src` holds no complete frame of a
    /// recognised kind (more bytes are needed, or the bytes are malformed).
    pub fn read_next_resp(src: &[u8]) -> (r: Option<(usize, RESP)>)
        ensures
            decoded_as(r, decode(src@)),
    {
        assert(src@.subrange(0, src@.len() as int) =~= src@);
        decode_at(src, 0)
    }

    /// The canonical byte form of this frame.
    pub fn to_bytes(&self) -> (r: Vec<u8>)
        ensures
            r@ == encode(self@),
    {
        let mut out: Vec<u8> = Vec::new();
        self.encode_into(&mut out);
        assert(out@ =~= encode(self@));
        out
    }
}

} // verus!
