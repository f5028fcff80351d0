//! The command recogniser: which decoded frames are commands, and which.
use vstd::prelude::*;
use crate::frame::{RESP, Value, decode, encode, decodable, lower_value, lemma_prefix_safe};
use crate::text::{
    unsigned_in, signed_in, parse_u128, parse_usize, parse_i64, eq_bytes, starts_with, copy_bytes,
};

verus! {

broadcast use vstd::std_specs::vec::group_vec_axioms;

/// The expiry that means "never expires".
pub const NEVER: u128 = u128::MAX;

/// A recognised command. Byte strings are as decoded (lower-cased).
#[derive(Debug, PartialEq)]
pub enum Cmd {
    Ping,
    Echo(Vec<u8>),
    /// Key, value, and expiry in milliseconds (relative, or `NEVER`).
    SetKey(Vec<u8>, Vec<u8>, u128),
    Get(Vec<u8>),
    Info(Vec<u8>),
    ReplConf(Vec<u8>, Vec<u8>),
    Psync(Vec<u8>, i64),
    FullReSync(Vec<u8>, usize),
    Incomplete,
}

/// The mathematical model of a command.
pub enum Command {
    Ping,
    Echo(Seq<u8>),
    SetKey(Seq<u8>, Seq<u8>, nat),
    Get(Seq<u8>),
    Info(Seq<u8>),
    ReplConf(Seq<u8>, Seq<u8>),
    Psync(Seq<u8>, int),
    FullReSync(Seq<u8>, nat),
    Incomplete,
}

impl View for Cmd {
    type V = Command;

    open spec fn view(&self) -> Command {
        match self {
            Cmd::Ping => Command::Ping,
            Cmd::Echo(s) => Command::Echo(s@),
            Cmd::SetKey(k, v, e) => Command::SetKey(k@, v@, *e as nat),
            Cmd::Get(k) => Command::Get(k@),
            Cmd::Info(s) => Command::Info(s@),
            Cmd::ReplConf(a, b) => Command::ReplConf(a@, b@),
            Cmd::Psync(r, o) => Command::Psync(r@, *o as int),
            Cmd::FullReSync(r, o) => Command::FullReSync(r@, *o as nat),
            Cmd::Incomplete => Command::Incomplete,
        }
    }
}

pub open spec fn cmd_view(r: Option<Cmd>) -> Option<Command> {
    match r {
        Some(c) => Some(c@),
        None => None,
    }
}

pub open spec fn ping_word() -> Seq<u8> {
    seq![112u8, 105, 110, 103]
}

pub open spec fn echo_word() -> Seq<u8> {
    seq![101u8, 99, 104, 111]
}

pub open spec fn set_word() -> Seq<u8> {
    seq![115u8, 101, 116]
}

pub open spec fn px_word() -> Seq<u8> {
    seq![112u8, 120]
}

pub open spec fn get_word() -> Seq<u8> {
    seq![103u8, 101, 116]
}

pub open spec fn info_word() -> Seq<u8> {
    seq![105u8, 110, 102, 111]
}

pub open spec fn replconf_word() -> Seq<u8> {
    seq![114u8, 101, 112, 108, 99, 111, 110, 102]
}

pub open spec fn psync_word() -> Seq<u8> {
    seq![112u8, 115, 121, 110, 99]
}

pub open spec fn fullresync_word() -> Seq<u8> {
    seq![102u8, 117, 108, 108, 114, 101, 115, 121, 110, 99]
}

/// ASCII white space, as `split_whitespace` treats it.
pub open spec fn is_space(b: u8) -> bool {
    b == 32 || (9 <= b && b <= 13)
}

/// The words of `s`: its maximal runs of bytes that are not white space.
pub open spec fn words(s: Seq<u8>) -> Seq<Seq<u8>>
    decreases s.len(),
{
    if s.len() == 0 {
        Seq::empty()
    } else {
        let w = words(s.drop_last());
        if is_space(s.last()) {
            w
        } else if s.len() >= 2 && !is_space(s[s.len() - 2]) {
            w.update(w.len() - 1, w.last().push(s.last()))
        } else {
            w.push(seq![s.last()])
        }
    }
}

pub open spec fn all_bulk(a: Seq<Value>) -> bool {
    forall|i: int| 0 <= i < a.len() ==> #[trigger] a[i] is Bulk
}

/// The payloads of an array of bulk strings.
pub open spec fn args_of(a: Seq<Value>) -> Seq<Seq<u8>> {
    Seq::new(a.len(), |i: int| a[i]->Bulk_0)
}

/// The command that a request's words name, if they have one of the known shapes.
pub open spec fn command_of(w: Seq<Seq<u8>>) -> Option<Command> {
    let n = w.len();
    let name = w[0];
    if name == ping_word() && n == 1 {
        Some(Command::Ping)
    } else if name == echo_word() && n == 2 {
        Some(Command::Echo(w[1]))
    } else if name == set_word() && n == 3 {
        Some(Command::SetKey(w[1], w[2], NEVER as nat))
    } else if name == set_word() && n == 5 && w[3] == px_word() {
        match unsigned_in(w[4], u128::MAX as nat) {
            Some(ms) => Some(Command::SetKey(w[1], w[2], ms)),
            None => None,
        }
    } else if name == get_word() && n == 2 {
        Some(Command::Get(w[1]))
    } else if name == info_word() && n == 1 {
        Some(Command::Info(Seq::empty()))
    } else if name == info_word() && n == 2 {
        Some(Command::Info(w[1]))
    } else if name == replconf_word() && n == 3 {
        Some(Command::ReplConf(w[1], w[2]))
    } else if name == psync_word() && n == 3 {
        match signed_in(w[2], i64::MIN as int, i64::MAX as nat) {
            Some(o) => Some(Command::Psync(w[1], o)),
            None => None,
        }
    } else {
        None
    }
}

/// The command of a leader's `fullresync <replid> <offset>` status line.
pub open spec fn fullresync_of(s: Seq<u8>) -> Option<Command> {
    let w = words(s);
    if s.len() >= 10 && s.subrange(0, 10) == fullresync_word() && w.len() >= 3 {
        match unsigned_in(w[2], usize::MAX as nat) {
            Some(o) => Some(Command::FullReSync(w[1], o)),
            None => None,
        }
    } else {
        None
    }
}

/// The command that a decoded frame carries, if any.
pub open spec fn recognise(v: Value) -> Option<Command> {
    match v {
        Value::Array(a) => if a.len() > 0 && all_bulk(a) {
            command_of(args_of(a))
        } else {
            None
        },
        Value::Simple(s) => fullresync_of(s),
        _ => None,
    }
}

pub open spec fn texts(v: Seq<Vec<u8>>) -> Seq<Seq<u8>> {
    Seq::new(v.len(), |i: int| v[i]@)
}

/// Splits `s` into its words.
pub fn split_words(s: &[u8]) -> (r: Vec<Vec<u8>>)
    ensures
        texts(r@) == words(s@),
{
    let mut done: Vec<Vec<u8>> = Vec::new();
    let mut cur: Vec<u8> = Vec::new();
    let mut i: usize = 0;
    assert(s@.subrange(0, 0) =~= Seq::<u8>::empty());
    while i < s.len()
        invariant
            0 <= i <= s@.len(),
            (cur@.len() > 0) == (i > 0 && !is_space(s@[i - 1])),
            words(s@.subrange(0, i as int)) == if cur@.len() > 0 {
                texts(done@).push(cur@)
            } else {
                texts(done@)
            },
        decreases s@.len() - i,
    {
        let b = s[i];
        let ghost pre = s@.subrange(0, i as int);
        let ghost next = s@.subrange(0, i + 1);
        assert(next.drop_last() =~= pre);
        let is_sp = b == 32 || (9 <= b && b <= 13);
        if is_sp {
            if cur.len() > 0 {
                let ghost old_done = done@;
                done.push(cur);
                assert(texts(done@) =~= texts(old_done).push(cur@));
                cur = Vec::new();
            }
        } else {
            let ghost old_cur = cur@;
            cur.push(b);
            proof {
                if old_cur.len() > 0 {
                    assert(texts(done@).push(old_cur).update(
                        texts(done@).len() as int,
                        old_cur.push(b),
                    ) =~= texts(done@).push(cur@));
                } else {
                    assert(cur@ =~= seq![b]);
                }
            }
        }
        i = i + 1;
    }
    assert(s@.subrange(0, s@.len() as int) =~= s@);
    if cur.len() > 0 {
        let ghost old_done = done@;
        done.push(cur);
        assert(texts(done@) =~= texts(old_done).push(cur@));
    }
    done
}

/// The payloads of an array's items, when every item is a bulk string.
fn bulk_args(arr: &Vec<RESP>) -> (r: Option<Vec<Vec<u8>>>)
    ensures
        ({
            let a = Seq::new(arr@.len(), |i: int| arr@[i]@);
            match r {
                Some(w) => all_bulk(a) && w@.len() == arr@.len() && texts(w@) == args_of(a),
                None => !all_bulk(a),
            }
        }),
{
    let ghost a = Seq::new(arr@.len(), |i: int| arr@[i]@);
    let mut out: Vec<Vec<u8>> = Vec::new();
    let mut i: usize = 0;
    while i < arr.len()
        invariant
            0 <= i <= arr@.len(),
            a == Seq::new(arr@.len(), |i: int| arr@[i]@),
            forall|m: int| 0 <= m < i ==> #[trigger] a[m] is Bulk,
            out@.len() == i,
            forall|m: int| 0 <= m < i ==> (#[trigger] out@[m])@ == a[m]->Bulk_0,
        decreases arr@.len() - i,
    {
        match &arr[i] {
            RESP::Bulk(b) => {
                out.push(copy_bytes(b.as_slice()));
            },
            _ => {
                assert(!(a[i as int] is Bulk));
                return None;
            },
        }
        i = i + 1;
    }
    assert(texts(out@) =~= args_of(a));
    Some(out)
}

/// The command named by a request's words.
fn command_of_args(w: &Vec<Vec<u8>>) -> (r: Option<Cmd>)
    requires
        w@.len() > 0,
    ensures
        cmd_view(r) == command_of(texts(w@)),
{
    let ghost t = texts(w@);
    let n = w.len();
    let name = w[0].as_slice();
    let l_ping: [u8; 4] = [112, 105, 110, 103];
    let l_echo: [u8; 4] = [101, 99, 104, 111];
    let l_set: [u8; 3] = [115, 101, 116];
    let l_px: [u8; 2] = [112, 120];
    let l_get: [u8; 3] = [103, 101, 116];
    let l_info: [u8; 4] = [105, 110, 102, 111];
    let l_replconf: [u8; 8] = [114, 101, 112, 108, 99, 111, 110, 102];
    let l_psync: [u8; 5] = [112, 115, 121, 110, 99];
    assert(l_ping@ =~= ping_word());
    assert(l_echo@ =~= echo_word());
    assert(l_set@ =~= set_word());
    assert(l_px@ =~= px_word());
    assert(l_get@ =~= get_word());
    assert(l_info@ =~= info_word());
    assert(l_replconf@ =~= replconf_word());
    assert(l_psync@ =~= psync_word());
    let is_ping = eq_bytes(name, &l_ping);
    let is_echo = eq_bytes(name, &l_echo);
    let is_set = eq_bytes(name, &l_set);
    let is_get = eq_bytes(name, &l_get);
    let is_info = eq_bytes(name, &l_info);
    let is_replconf = eq_bytes(name, &l_replconf);
    let is_psync = eq_bytes(name, &l_psync);
    if is_ping && n == 1 {
        Some(Cmd::Ping)
    } else if is_echo && n == 2 {
        Some(Cmd::Echo(copy_bytes(w[1].as_slice())))
    } else if is_set && n == 3 {
        Some(Cmd::SetKey(copy_bytes(w[1].as_slice()), copy_bytes(w[2].as_slice()), NEVER))
    } else if is_set && n == 5 && eq_bytes(w[3].as_slice(), &l_px) {
        match parse_u128(w[4].as_slice()) {
            Some(ms) => Some(Cmd::SetKey(copy_bytes(w[1].as_slice()), copy_bytes(w[2].as_slice()), ms)),
            None => None,
        }
    } else if is_get && n == 2 {
        Some(Cmd::Get(copy_bytes(w[1].as_slice())))
    } else if is_info && n == 1 {
        let empty: Vec<u8> = Vec::new();
        assert(empty@ =~= Seq::<u8>::empty());
        Some(Cmd::Info(empty))
    } else if is_info && n == 2 {
        Some(Cmd::Info(copy_bytes(w[1].as_slice())))
    } else if is_replconf && n == 3 {
        Some(Cmd::ReplConf(copy_bytes(w[1].as_slice()), copy_bytes(w[2].as_slice())))
    } else if is_psync && n == 3 {
        match parse_i64(w[2].as_slice()) {
            Some(o) => Some(Cmd::Psync(copy_bytes(w[1].as_slice()), o)),
            None => None,
        }
    } else {
        None
    }
}

/// Appending a white-space byte adds no word.
pub proof fn lemma_words_space(s: Seq<u8>, b: u8)
    requires
        is_space(b),
    ensures
        words(s.push(b)) == words(s),
{
    assert(s.push(b).drop_last() =~= s);
}

/// Appending a word after white space (or at the start) adds that word.
pub proof fn lemma_words_word(s: Seq<u8>, w: Seq<u8>)
    requires
        w.len() > 0,
        forall|i: int| 0 <= i < w.len() ==> !is_space(#[trigger] w[i]),
        s.len() == 0 || is_space(s.last()),
    ensures
        words(s + w) == words(s).push(w),
    decreases w.len(),
{
    let x = s + w;
    assert(x.drop_last() =~= s + w.drop_last());
    assert(x.last() == w.last());
    assert(!is_space(w[w.len() - 1]));
    if w.len() == 1 {
        assert(s + w.drop_last() =~= s);
        assert(seq![w.last()] =~= w);
        if x.len() >= 2 {
            assert(x[x.len() - 2] == s.last());
        }
    } else {
        lemma_words_word(s, w.drop_last());
        assert(x[x.len() - 2] == w[w.len() - 2]);
        assert(w.drop_last().push(w.last()) =~= w);
        assert(words(s).push(w.drop_last()).update(
            words(s).len() as int,
            w.drop_last().push(w.last()),
        ) =~= words(s).push(w));
    }
}

/// Commands are matched without regard to ASCII case: two decodable frames
/// that agree once lower-cased decode to the same frame, and so to the same
/// command.
pub proof fn lemma_case_insensitive(f: Value, g: Value)
    requires
        decodable(f),
        decodable(g),
        lower_value(f) == lower_value(g),
    ensures
        decode(encode(f)) is Some,
        decode(encode(g)) is Some,
        decode(encode(f))->Some_0.1 == decode(encode(g))->Some_0.1,
        recognise(decode(encode(f))->Some_0.1) == recognise(decode(encode(g))->Some_0.1),
{
    lemma_prefix_safe(f, Seq::empty());
    lemma_prefix_safe(g, Seq::empty());
}

impl Cmd {
    /// Recognises the command that a decoded frame carries: an array of bulk
    /// strings of one of the known shapes, or a leader's `fullresync` line.
    pub fn from(frame: &RESP) -> (r: Option<Cmd>)
        ensures
            cmd_view(r) == recognise(frame@),
    {
        match frame {
            RESP::Array(arr) => {
                assert(frame@->Array_0 =~= Seq::new(arr@.len(), |i: int| arr@[i]@));
                if arr.len() == 0 {
                    return None;
                }
                match bulk_args(arr) {
                    Some(w) => command_of_args(&w),
                    None => None,
                }
            },
            RESP::Simple(s) => {
                let l_fullresync: [u8; 10] = [102, 117, 108, 108, 114, 101, 115, 121, 110, 99];
                assert(l_fullresync@ =~= fullresync_word());
                if !starts_with(s.as_slice(), &l_fullresync) {
                    return None;
                }
                let w = split_words(s.as_slice());
                if w.len() < 3 {
                    return None;
                }
                match parse_usize(w[2].as_slice()) {
                    Some(o) => Some(Cmd::FullReSync(copy_bytes(w[1].as_slice()), o)),
                    None => None,
                }
            },
            _ => None,
        }
    }

    /// The `PING` request that a follower sends first in its handshake.
    pub fn new_ping_resp() -> (r: RESP)
        ensures
            r@ == Value::Array(seq![Value::Bulk(seq![80u8, 73, 78, 71])]),
    {
        let mut word: Vec<u8> = Vec::new();
        word.push(80);
        word.push(73);
        word.push(78);
        word.push(71);
        assert(word@ =~= seq![80u8, 73, 78, 71]);
        let mut items: Vec<RESP> = Vec::new();
        items.push(RESP::Bulk(word));
        assert(items@[0]@ == Value::Bulk(seq![80u8, 73, 78, 71]));
        let r = RESP::Array(items);
        assert(r@->Array_0.len() == 1);
        assert(r@->Array_0[0] == Value::Bulk(seq![80u8, 73, 78, 71]));
        assert(r@->Array_0 =~= seq![Value::Bulk(seq![80u8, 73, 78, 71])]);
        r
    }
}

} // verus!
