//! The follower's side of replication: the handshake with the leader, and the
//! tailing loop that applies the leader's command stream silently.
use vstd::prelude::*;
use crate::cmd::{
    Cmd, Command, NEVER, recognise, set_word, args_of, is_space, words, fullresync_word,
    lemma_words_word, lemma_words_space,
};
use crate::frame::{
    RESP, Value, encode, decode, header, decode_at, header_end, parse_len,
    lemma_decode_len, decodable, decodable_items, lower_value, lemma_prefix_safe, lemma_header, lemma_decode_extend,
    crlf,
};
use crate::server::{
    expiry_at, absolute_expiry, pong_reply, ok_reply, fullresync_line, snapshot_frame, snapshot,
};
use crate::store::{ShardedDb, KeyValueStore};
use crate::text::{
    all_digits, digits_value, decimal, lower, unsigned_in, CR, push_decimal, is_all_digits, eq_bytes, copy_bytes, push_bytes,
};

verus! {

broadcast use vstd::std_specs::vec::group_vec_axioms;

/// Where a follower's handshake stands: which answer it waits for.
#[derive(Debug, Clone, Copy, PartialEq, Eq, Structural)]
pub enum Phase {
    AwaitPong,
    AwaitListeningOk,
    AwaitCapaOk,
    AwaitFullResync,
}

/// The result of one handshake step on the bytes received so far.
#[derive(Debug)]
pub enum Progress {
    /// The answer has not fully arrived: read more and try again.
    NeedMore,
    /// The answer took this many bytes; go to the phase and send the bytes.
    Advance(usize, Phase, Vec<u8>),
    /// The handshake is complete after this many bytes (the status line and
    /// the baseline snapshot), with the leader's replication id and offset.
    Done(usize, Vec<u8>, usize),
    /// The leader answered something else: replication stops.
    Failed,
}

pub enum ProgressModel {
    NeedMore,
    Advance(nat, Phase, Seq<u8>),
    Done(nat, Seq<u8>, nat),
    Failed,
}

impl View for Progress {
    type V = ProgressModel;

    open spec fn view(&self) -> ProgressModel {
        match self {
            Progress::NeedMore => ProgressModel::NeedMore,
            Progress::Advance(n, p, b) => ProgressModel::Advance(*n as nat, *p, b@),
            Progress::Done(n, id, off) => ProgressModel::Done(*n as nat, id@, *off as nat),
            Progress::Failed => ProgressModel::Failed,
        }
    }
}

pub open spec fn replconf_upper() -> Seq<u8> {
    seq![82u8, 69, 80, 76, 67, 79, 78, 70]
}

/// An array of three bulk strings, encoded.
pub open spec fn request3(a: Seq<u8>, b: Seq<u8>, c: Seq<u8>) -> Seq<u8> {
    encode(Value::Array(seq![Value::Bulk(a), Value::Bulk(b), Value::Bulk(c)]))
}

/// `PING`
pub open spec fn ping_request() -> Seq<u8> {
    encode(Value::Array(seq![Value::Bulk(seq![80u8, 73, 78, 71])]))
}

/// `REPLCONF listening-port <port>`
pub open spec fn listening_request(port: u32) -> Seq<u8> {
    request3(
        replconf_upper(),
        seq![108u8, 105, 115, 116, 101, 110, 105, 110, 103, 45, 112, 111, 114, 116],
        decimal(port as nat),
    )
}

/// `REPLCONF capa psync2`
pub open spec fn capa_request() -> Seq<u8> {
    request3(replconf_upper(), seq![99u8, 97, 112, 97], seq![112u8, 115, 121, 110, 99, 50])
}

/// `PSYNC ? -1`
pub open spec fn psync_request() -> Seq<u8> {
    request3(seq![80u8, 83, 89, 78, 67], seq![63u8], seq![45u8, 49])
}

/// `REPLCONF ACK <offset>`
pub open spec fn ack_reply(off: nat) -> Seq<u8> {
    request3(replconf_upper(), seq![65u8, 67, 75], decimal(off))
}

pub open spec fn pong_word() -> Seq<u8> {
    seq![112u8, 111, 110, 103]
}

pub open spec fn ok_word() -> Seq<u8> {
    seq![111u8, 107]
}

pub open spec fn getack_word() -> Seq<u8> {
    seq![103u8, 101, 116, 97, 99, 107]
}

/// How far the baseline snapshot, framed `$<len>\r\n<bytes>`, has arrived.
pub enum Baseline {
    Incomplete,
    Malformed,
    Complete(nat),
}

pub open spec fn baseline(rest: Seq<u8>) -> Baseline {
    if rest.len() == 0 {
        Baseline::Incomplete
    } else if rest[0] != 36 {
        Baseline::Malformed
    } else {
        match header(rest) {
            None => Baseline::Incomplete,
            Some((t, h)) => if !all_digits(t) {
                Baseline::Malformed
            } else if h + digits_value(t) <= rest.len() {
                Baseline::Complete((h + digits_value(t)) as nat)
            } else {
                Baseline::Incomplete
            },
        }
    }
}

/// One step of the handshake: in `phase`, with the bytes `s` received since
/// the last step, what the follower does next. Every answer the leader gives
/// is a status line (`+...`): anything else fails at once.
pub open spec fn handshake(phase: Phase, s: Seq<u8>, port: u32) -> ProgressModel {
    if s.len() > 0 && s[0] != 43 {
        ProgressModel::Failed
    } else {
        handshake_answer(phase, s, port)
    }
}

/// A handshake step on bytes that are empty or begin a status line.
pub open spec fn handshake_answer(phase: Phase, s: Seq<u8>, port: u32) -> ProgressModel {
    match decode(s) {
        None => ProgressModel::NeedMore,
        Some((n, f)) => match phase {
            Phase::AwaitPong => if f == Value::Simple(pong_word()) {
                ProgressModel::Advance(n, Phase::AwaitListeningOk, listening_request(port))
            } else {
                ProgressModel::Failed
            },
            Phase::AwaitListeningOk => if f == Value::Simple(ok_word()) {
                ProgressModel::Advance(n, Phase::AwaitCapaOk, capa_request())
            } else {
                ProgressModel::Failed
            },
            Phase::AwaitCapaOk => if f == Value::Simple(ok_word()) {
                ProgressModel::Advance(n, Phase::AwaitFullResync, psync_request())
            } else {
                ProgressModel::Failed
            },
            Phase::AwaitFullResync => match recognise(f) {
                Some(Command::FullReSync(id, off)) => match baseline(
                    s.subrange(n as int, s.len() as int),
                ) {
                    Baseline::Incomplete => ProgressModel::NeedMore,
                    Baseline::Malformed => ProgressModel::Failed,
                    Baseline::Complete(k) => ProgressModel::Done(n + k, id, off),
                },
                _ => ProgressModel::Failed,
            },
        },
    }
}

/// An array of three bulk strings, encoded.
fn request3_bytes(a: Vec<u8>, b: Vec<u8>, c: Vec<u8>) -> (r: Vec<u8>)
    ensures
        r@ == request3(a@, b@, c@),
{
    let ghost (av, bv, cv) = (a@, b@, c@);
    let mut items: Vec<RESP> = Vec::new();
    items.push(RESP::Bulk(a));
    items.push(RESP::Bulk(b));
    items.push(RESP::Bulk(c));
    assert(items@[0]@ == Value::Bulk(av));
    assert(items@[1]@ == Value::Bulk(bv));
    assert(items@[2]@ == Value::Bulk(cv));
    let f = RESP::Array(items);
    assert(f@->Array_0 =~= seq![Value::Bulk(av), Value::Bulk(bv), Value::Bulk(cv)]);
    f.to_bytes()
}

fn replconf_bytes() -> (r: Vec<u8>)
    ensures
        r@ == replconf_upper(),
{
    let l: [u8; 8] = [82, 69, 80, 76, 67, 79, 78, 70];
    assert(l@ =~= replconf_upper());
    copy_bytes(&l)
}

/// The request that opens the handshake.
pub fn first_request() -> (r: Vec<u8>)
    ensures
        r@ == ping_request(),
{
    Cmd::new_ping_resp().to_bytes()
}

/// The acknowledgement of a replication offset.
pub fn ack_bytes(off: usize) -> (r: Vec<u8>)
    ensures
        r@ == ack_reply(off as nat),
{
    let l: [u8; 3] = [65, 67, 75];
    assert(l@ =~= seq![65u8, 67, 75]);
    let mut d: Vec<u8> = Vec::new();
    push_decimal(off as u128, &mut d);
    assert(d@ =~= decimal(off as nat));
    request3_bytes(replconf_bytes(), copy_bytes(&l), d)
}

fn is_simple(f: &RESP, w: &[u8]) -> (r: bool)
    ensures
        r == (f@ == Value::Simple(w@)),
{
    match f {
        RESP::Simple(t) => eq_bytes(t.as_slice(), w),
        _ => false,
    }
}

/// How far the baseline snapshot at `buf[pos..]` has arrived.
fn baseline_at(buf: &[u8], pos: usize) -> (r: Option<Option<usize>>)
    requires
        pos <= buf@.len(),
    ensures
        match baseline(buf@.subrange(pos as int, buf@.len() as int)) {
            Baseline::Incomplete => r == Some(None::<usize>),
            Baseline::Malformed => r is None,
            Baseline::Complete(k) => r == Some(Some(k as usize)),
        },
{
    let ghost rest = buf@.subrange(pos as int, buf@.len() as int);
    let len = buf.len();
    if pos >= len {
        return Some(None);
    }
    if buf[pos] != 36 {
        return None;
    }
    match header_end(buf, pos) {
        None => Some(None),
        Some(j) => {
            if !is_all_digits(buf, pos + 1, j) {
                return None;
            }
            let h = j + 2 - pos;
            match parse_len(buf, pos + 1, j) {
                None => Some(None),
                Some(n) => if n <= len - pos && h <= len - pos - n {
                    Some(Some(h + n))
                } else {
                    Some(None)
                },
            }
        },
    }
}

/// One step of the handshake on the bytes received since the last step.
pub fn handshake_step(phase: Phase, buf: &[u8], port: u32) -> (r: Progress)
    ensures
        r@ == handshake(phase, buf@, port),
{
    if buf.len() > 0 && buf[0] != 43 {
        return Progress::Failed;
    }
    let (n, f) = match RESP::read_next_resp(buf) {
        None => {
            return Progress::NeedMore;
        },
        Some(x) => x,
    };
    let l_pong: [u8; 4] = [112, 111, 110, 103];
    let l_ok: [u8; 2] = [111, 107];
    assert(l_pong@ =~= pong_word());
    assert(l_ok@ =~= ok_word());
    match phase {
        Phase::AwaitPong => if is_simple(&f, &l_pong) {
            let l: [u8; 14] = [108, 105, 115, 116, 101, 110, 105, 110, 103, 45, 112, 111, 114, 116];
            assert(l@ =~= seq![108u8, 105, 115, 116, 101, 110, 105, 110, 103, 45, 112, 111, 114, 116]);
            let mut d: Vec<u8> = Vec::new();
            push_decimal(port as u128, &mut d);
            assert(d@ =~= decimal(port as nat));
            Progress::Advance(n, Phase::AwaitListeningOk, request3_bytes(replconf_bytes(), copy_bytes(&l), d))
        } else {
            Progress::Failed
        },
        Phase::AwaitListeningOk => if is_simple(&f, &l_ok) {
            let c: [u8; 4] = [99, 97, 112, 97];
            let p: [u8; 6] = [112, 115, 121, 110, 99, 50];
            assert(c@ =~= seq![99u8, 97, 112, 97]);
            assert(p@ =~= seq![112u8, 115, 121, 110, 99, 50]);
            Progress::Advance(n, Phase::AwaitCapaOk, request3_bytes(replconf_bytes(), copy_bytes(&c), copy_bytes(&p)))
        } else {
            Progress::Failed
        },
        Phase::AwaitCapaOk => if is_simple(&f, &l_ok) {
            let a: [u8; 5] = [80, 83, 89, 78, 67];
            let q: [u8; 1] = [63];
            let m: [u8; 2] = [45, 49];
            assert(a@ =~= seq![80u8, 83, 89, 78, 67]);
            assert(q@ =~= seq![63u8]);
            assert(m@ =~= seq![45u8, 49]);
            Progress::Advance(n, Phase::AwaitFullResync, request3_bytes(copy_bytes(&a), copy_bytes(&q), copy_bytes(&m)))
        } else {
            Progress::Failed
        },
        Phase::AwaitFullResync => match Cmd::from(&f) {
            Some(Cmd::FullReSync(id, off)) => {
                proof {
                    lemma_decode_len(buf@);
                }
                let len = buf.len();
                match baseline_at(buf, n) {
                    None => Progress::Failed,
                    Some(None) => Progress::NeedMore,
                    Some(Some(k)) => {
                        assert(k <= len - n);
                        Progress::Done(n + k, id, off)
                    },
                }
            },
            _ => Progress::Failed,
        },
    }
}

/// The offset after `n` more bytes, held at the largest `usize`.
pub open spec fn offset_after(off: nat, n: nat) -> nat {
    if off + n > usize::MAX {
        usize::MAX as nat
    } else {
        off + n
    }
}

/// What a follower does with one frame of `n` bytes from the leader, given
/// the store's contents, its offset and the time: the contents and offset
/// afterwards, and the bytes it answers. Writes are applied silently; a
/// `REPLCONF GETACK *` is answered with the offset before it. Every command
/// counts towards the offset; other frames are skipped.
pub open spec fn apply_replicated(
    c: Option<Command>,
    n: nat,
    m: Map<Seq<u8>, (Value, nat)>,
    off: nat,
    now: nat,
) -> (Map<Seq<u8>, (Value, nat)>, nat, Seq<u8>) {
    match c {
        None => (m, off, Seq::empty()),
        Some(Command::SetKey(k, v, e)) => (
            m.insert(k, (Value::Bulk(v), expiry_at(e, now))),
            offset_after(off, n),
            Seq::empty(),
        ),
        Some(Command::ReplConf(a, b)) => if a == getack_word() && b == seq![42u8] {
            (m, offset_after(off, n), ack_reply(off))
        } else {
            (m, offset_after(off, n), Seq::empty())
        },
        Some(_) => (m, offset_after(off, n), Seq::empty()),
    }
}

/// A follower's pass over the bytes `s` from the leader: the bytes its whole
/// frames take, the store's contents and offset afterwards, and its answers.
pub open spec fn follow(s: Seq<u8>, m: Map<Seq<u8>, (Value, nat)>, off: nat, now: nat) -> (
    nat,
    Map<Seq<u8>, (Value, nat)>,
    nat,
    Seq<u8>,
)
    decreases s.len(),
{
    match decode(s) {
        Some((n, f)) => if 0 < n <= s.len() {
            let (m2, off2, out) = apply_replicated(recognise(f), n, m, off, now);
            let r = follow(s.subrange(n as int, s.len() as int), m2, off2, now);
            (n + r.0, r.1, r.2, out + r.3)
        } else {
            (0, m, off, Seq::empty())
        },
        None => (0, m, off, Seq::empty()),
    }
}

/// Applies one command, whose frame took `n` bytes of the leader's stream, to
/// a store at time `now`, appending any answer to `out`.
pub fn apply_command<S: KeyValueStore>(
    cmd: Cmd,
    n: usize,
    db: &mut S,
    offset: &mut usize,
    out: &mut Vec<u8>,
    now: u128,
)
    requires
        old(db).inv(),
    ensures
        final(db).inv(),
        ({
            let st = apply_replicated(
                Some(cmd@),
                n as nat,
                old(db).contents(),
                *old(offset) as nat,
                now as nat,
            );
            &&& final(db).contents() == st.0
            &&& *final(offset) as nat == st.1
            &&& final(out)@ == old(out)@ + st.2
        }),
{
    let ghost before = out@;
    let o = *offset;
    *offset = if n > usize::MAX - o {
        usize::MAX
    } else {
        o + n
    };
    match cmd {
        Cmd::SetKey(k, v, e) => {
            db.put_entry(k, RESP::Bulk(v), absolute_expiry(e, now));
            assert(before + Seq::<u8>::empty() =~= before);
        },
        Cmd::ReplConf(a, b) => {
            let g: [u8; 6] = [103, 101, 116, 97, 99, 107];
            let star: [u8; 1] = [42];
            assert(g@ =~= getack_word());
            assert(star@ =~= seq![42u8]);
            if eq_bytes(a.as_slice(), &g) && eq_bytes(b.as_slice(), &star) {
                let ack = ack_bytes(o);
                push_bytes(out, ack.as_slice());
            } else {
                assert(before + Seq::<u8>::empty() =~= before);
            }
        },
        _ => {
            assert(before + Seq::<u8>::empty() =~= before);
        },
    }
}

/// Applies one frame of `n` bytes from the leader, appending any answer to `out`.
fn apply_frame(
    frame: &RESP,
    n: usize,
    db: &mut ShardedDb,
    offset: &mut usize,
    out: &mut Vec<u8>,
    now: u128,
)
    requires
        old(db).wf(),
    ensures
        final(db).wf(),
        ({
            let st = apply_replicated(
                recognise(frame@),
                n as nat,
                old(db)@,
                *old(offset) as nat,
                now as nat,
            );
            &&& final(db)@ == st.0
            &&& *final(offset) as nat == st.1
            &&& final(out)@ == old(out)@ + st.2
        }),
{
    match Cmd::from(frame) {
        None => {
            assert(old(out)@ + Seq::<u8>::empty() =~= old(out)@);
        },
        Some(cmd) => {
            apply_command(cmd, n, db, offset, out, now);
        },
    }
}

/// Applies the leader's stream in `buf` to the store at time `now`, advancing
/// the replication offset. Returns the number of bytes its whole frames take
/// (the rest is the start of a frame still arriving) and the answers to send.
pub fn ingest(buf: &[u8], db: &mut ShardedDb, offset: &mut usize, now: u128) -> (r: (
    usize,
    Vec<u8>,
))
    requires
        old(db).wf(),
    ensures
        final(db).wf(),
        follow(buf@, old(db)@, *old(offset) as nat, now as nat) == (
            r.0 as nat,
            final(db)@,
            *final(offset) as nat,
            r.1@,
        ),
{
    let ghost whole = follow(buf@, db@, *offset as nat, now as nat);
    let len = buf.len();
    let mut p: usize = 0;
    let mut out: Vec<u8> = Vec::new();
    assert(buf@.subrange(0, len as int) =~= buf@);
    assert(Seq::<u8>::empty() + whole.3 =~= whole.3);
    loop
        invariant
            len == buf@.len(),
            p <= len,
            db.wf(),
            whole == follow(buf@, old(db)@, *old(offset) as nat, now as nat),
            ({
                let rest = follow(
                    buf@.subrange(p as int, len as int),
                    db@,
                    *offset as nat,
                    now as nat,
                );
                whole == ((p + rest.0) as nat, rest.1, rest.2, out@ + rest.3)
            }),
        decreases len - p,
    {
        let ghost s = buf@.subrange(p as int, len as int);
        proof {
            lemma_decode_len(s);
        }
        match decode_at(buf, p) {
            None => {
                assert(out@ + Seq::<u8>::empty() =~= out@);
                return (p, out);
            },
            Some((n, frame)) => {
                assert(s.subrange(n as int, s.len() as int) =~= buf@.subrange(p + n, len as int));
                let ghost before = out@;
                apply_frame(&frame, n, &mut *db, &mut *offset, &mut out, now);
                p = p + n;
                let ghost rest2 = follow(
                    buf@.subrange(p as int, len as int),
                    db@,
                    *offset as nat,
                    now as nat,
                );
                assert(out@ + rest2.3 =~= before + (out@.subrange(
                    before.len() as int,
                    out@.len() as int,
                ) + rest2.3));
            },
        }
    }
}
/// The bytes a leader passes on for the frames `fs`: their encodings, in order.
pub open spec fn stream(fs: Seq<Value>) -> Seq<u8>
    decreases fs.len(),
{
    if fs.len() == 0 {
        Seq::empty()
    } else {
        encode(fs[0]) + stream(fs.drop_first())
    }
}

/// A follower's store contents, offset and answers after applying the frames
/// `fs` one at a time, in order.
pub open spec fn apply_in_order(
    fs: Seq<Value>,
    m: Map<Seq<u8>, (Value, nat)>,
    off: nat,
    now: nat,
) -> (Map<Seq<u8>, (Value, nat)>, nat, Seq<u8>)
    decreases fs.len(),
{
    if fs.len() == 0 {
        (m, off, Seq::empty())
    } else {
        let (m2, off2, out) = apply_replicated(
            recognise(fs[0]),
            encode(fs[0]).len(),
            m,
            off,
            now,
        );
        let r = apply_in_order(fs.drop_first(), m2, off2, now);
        (r.0, r.1, out + r.2)
    }
}

/// Replication keeps order: when a leader passes on the frames it accepted,
/// `c1, ..., cn`, a follower reading that stream takes all of it and applies
/// the commands one at a time in that same order.
pub proof fn lemma_replication_order(
    fs: Seq<Value>,
    m: Map<Seq<u8>, (Value, nat)>,
    off: nat,
    now: nat,
)
    requires
        forall|i: int| 0 <= i < fs.len() ==> decodable(#[trigger] fs[i]) && lower_value(fs[i]) == fs[i],
    ensures
        follow(stream(fs), m, off, now) == (
            stream(fs).len(),
            apply_in_order(fs, m, off, now).0,
            apply_in_order(fs, m, off, now).1,
            apply_in_order(fs, m, off, now).2,
        ),
    decreases fs.len(),
{
    if fs.len() > 0 {
        let f = fs[0];
        let rest = fs.drop_first();
        let x = stream(fs);
        assert(decodable(fs[0]) && lower_value(fs[0]) == fs[0]);
        lemma_prefix_safe(f, stream(rest));
        lemma_decode_len(x);
        let n = encode(f).len();
        assert(x.subrange(n as int, x.len() as int) =~= stream(rest));
        let (m2, off2, out) = apply_replicated(recognise(f), n, m, off, now);
        assert forall|i: int| 0 <= i < rest.len() implies decodable(#[trigger] rest[i])
            && lower_value(rest[i]) == rest[i] by {
            assert(rest[i] == fs[i + 1]);
        }
        lemma_replication_order(rest, m2, off2, now);
    } else {
        assert(decode(Seq::<u8>::empty()) is None);
    }
}

/// The request `SET k v`, as the leader passes it on.
pub open spec fn set_frame(k: Seq<u8>, v: Seq<u8>) -> Value {
    Value::Array(seq![Value::Bulk(set_word()), Value::Bulk(k), Value::Bulk(v)])
}

/// The store's contents after the writes `ws` (key, value; no expiry), in order.
pub open spec fn after_writes(m: Map<Seq<u8>, (Value, nat)>, ws: Seq<(Seq<u8>, Seq<u8>)>) -> Map<
    Seq<u8>,
    (Value, nat),
>
    decreases ws.len(),
{
    if ws.len() == 0 {
        m
    } else {
        after_writes(m.insert(ws[0].0, (Value::Bulk(ws[0].1), NEVER as nat)), ws.drop_first())
    }
}

/// A follower that reads the stream of the writes `ws`, `SET k v` one after
/// another, ends with the store the writes give when applied in that order.
pub proof fn lemma_replicated_writes(
    ws: Seq<(Seq<u8>, Seq<u8>)>,
    m: Map<Seq<u8>, (Value, nat)>,
    off: nat,
    now: nat,
)
    requires
        forall|i: int| 0 <= i < ws.len() ==> lower(#[trigger] ws[i].0) == ws[i].0 && lower(ws[i].1) == ws[i].1,
    ensures
        ({
            let fs = Seq::new(ws.len(), |i: int| set_frame(ws[i].0, ws[i].1));
            &&& follow(stream(fs), m, off, now).0 == stream(fs).len()
            &&& follow(stream(fs), m, off, now).1 == after_writes(m, ws)
        }),
    decreases ws.len(),
{
    let fs = Seq::new(ws.len(), |i: int| set_frame(ws[i].0, ws[i].1));
    assert forall|i: int| 0 <= i < fs.len() implies decodable(#[trigger] fs[i]) && lower_value(
        fs[i],
    ) == fs[i] by {
        lemma_set_frame(ws[i].0, ws[i].1);
    }
    lemma_replication_order(fs, m, off, now);
    lemma_in_order_writes(ws, m, off, now);
}

/// Applying the `SET` frames of `ws` one at a time gives `after_writes`.
proof fn lemma_in_order_writes(
    ws: Seq<(Seq<u8>, Seq<u8>)>,
    m: Map<Seq<u8>, (Value, nat)>,
    off: nat,
    now: nat,
)
    requires
        forall|i: int| 0 <= i < ws.len() ==> lower(#[trigger] ws[i].0) == ws[i].0 && lower(ws[i].1) == ws[i].1,
    ensures
        apply_in_order(Seq::new(ws.len(), |i: int| set_frame(ws[i].0, ws[i].1)), m, off, now).0
            == after_writes(m, ws),
    decreases ws.len(),
{
    let fs = Seq::new(ws.len(), |i: int| set_frame(ws[i].0, ws[i].1));
    if ws.len() > 0 {
        let rest = ws.drop_first();
        lemma_set_frame(ws[0].0, ws[0].1);
        let (m2, off2, out) = apply_replicated(recognise(fs[0]), encode(fs[0]).len(), m, off, now);
        assert(m2 == m.insert(ws[0].0, (Value::Bulk(ws[0].1), NEVER as nat)));
        assert(fs.drop_first() =~= Seq::new(rest.len(), |i: int| set_frame(rest[i].0, rest[i].1)));
        assert forall|i: int| 0 <= i < rest.len() implies lower(#[trigger] rest[i].0) == rest[i].0
            && lower(rest[i].1) == rest[i].1 by {
            assert(rest[i] == ws[i + 1]);
        }
        lemma_in_order_writes(rest, m2, off2, now);
    }
}

/// A `SET` frame with lower-case key and value is read back as itself and
/// recognised as a write that never expires.
proof fn lemma_set_frame(k: Seq<u8>, v: Seq<u8>)
    requires
        lower(k) == k,
        lower(v) == v,
    ensures
        decodable(set_frame(k, v)),
        lower_value(set_frame(k, v)) == set_frame(k, v),
        recognise(set_frame(k, v)) == Some(Command::SetKey(k, v, NEVER as nat)),
{
    let items = set_frame(k, v)->Array_0;
    assert(lower(set_word()) =~= set_word());
    assert(items.len() == 3);
    assert(items[0] == Value::Bulk(set_word()) && decodable(items[0]));
    assert(items[1] == Value::Bulk(k) && decodable(items[1]));
    assert(items[2] == Value::Bulk(v) && decodable(items[2]));
    assert(decodable_items(items, 0));
    assert(decodable_items(items, 1));
    assert(decodable_items(items, 2));
    assert(decodable_items(items, 3));
    assert(lower_value(items[0]) == items[0]);
    assert(lower_value(items[1]) == items[1]);
    assert(lower_value(items[2]) == items[2]);
    assert(lower_value(set_frame(k, v)) is Array);
    assert(lower_value(set_frame(k, v))->Array_0 =~= items);
    assert(args_of(items) =~= seq![set_word(), k, v]);
}

/// After writes `ws`, a key that some write names holds the value of the last
/// such write, with no expiry.
pub proof fn lemma_last_writer(
    m: Map<Seq<u8>, (Value, nat)>,
    ws: Seq<(Seq<u8>, Seq<u8>)>,
    k: Seq<u8>,
    j: int,
)
    requires
        0 <= j < ws.len(),
        ws[j].0 == k,
        forall|l: int| j < l < ws.len() ==> (#[trigger] ws[l]).0 != k,
    ensures
        after_writes(m, ws).contains_key(k),
        after_writes(m, ws)[k] == (Value::Bulk(ws[j].1), NEVER as nat),
    decreases ws.len(),
{
    let m2 = m.insert(ws[0].0, (Value::Bulk(ws[0].1), NEVER as nat));
    let rest = ws.drop_first();
    if j == 0 {
        assert forall|l: int| 0 <= l < rest.len() implies (#[trigger] rest[l]).0 != k by {
            assert(rest[l] == ws[l + 1]);
        }
        lemma_untouched(m2, rest, k);
    } else {
        assert forall|l: int| j - 1 < l < rest.len() implies (#[trigger] rest[l]).0 != k by {
            assert(rest[l] == ws[l + 1]);
        }
        lemma_last_writer(m2, rest, k, j - 1);
    }
}

/// Writes that never name `k` leave it as it was.
pub proof fn lemma_untouched(
    m: Map<Seq<u8>, (Value, nat)>,
    ws: Seq<(Seq<u8>, Seq<u8>)>,
    k: Seq<u8>,
)
    requires
        forall|l: int| 0 <= l < ws.len() ==> (#[trigger] ws[l]).0 != k,
    ensures
        after_writes(m, ws).contains_key(k) == m.contains_key(k),
        m.contains_key(k) ==> after_writes(m, ws)[k] == m[k],
    decreases ws.len(),
{
    if ws.len() > 0 {
        let rest = ws.drop_first();
        assert forall|l: int| 0 <= l < rest.len() implies (#[trigger] rest[l]).0 != k by {
            assert(rest[l] == ws[l + 1]);
        }
        assert(ws[0].0 != k);
        lemma_untouched(m.insert(ws[0].0, (Value::Bulk(ws[0].1), NEVER as nat)), rest, k);
    }
}

/// A status line `+<w>` (with no CR in `w`) followed by `body` decodes to the
/// lower-cased line, taking the line's bytes.
proof fn lemma_status_line(w: Seq<u8>, body: Seq<u8>)
    requires
        forall|i: int| 0 <= i < w.len() ==> w[i] != CR,
    ensures
        decode(seq![43u8] + w + crlf() + body) == Some(
            ((w.len() + 3) as nat, Value::Simple(lower(w))),
        ),
{
    lemma_header(43u8, w, body);
}

/// The text of a leader's `+FULLRESYNC <id> 0` line.
pub open spec fn fullresync_text(id: Seq<u8>) -> Seq<u8> {
    seq![70u8, 85, 76, 76, 82, 69, 83, 89, 78, 67, 32] + id + seq![32u8, 48]
}

/// Read back lower-cased, a `FULLRESYNC <id> 0` line is the leader's id and offset 0.
proof fn lemma_fullresync_words(id: Seq<u8>)
    requires
        id.len() > 0,
        lower(id) == id,
        forall|i: int| 0 <= i < id.len() ==> !is_space(#[trigger] id[i]),
    ensures
        recognise(Value::Simple(lower(fullresync_text(id)))) == Some(Command::FullReSync(id, 0)),
{
    let t = fullresync_text(id);
    let l = lower(t);
    let lw = fullresync_word();
    let target = lw.push(32u8) + id + seq![32u8, 48];
    assert(l =~= target) by {
        assert forall|i: int| 0 <= i < l.len() implies l[i] == target[i] by {
            if 11 <= i < 11 + id.len() {
                assert(t[i] == id[i - 11]);
                assert(lower(id)[i - 11] == id[i - 11]);
            }
        }
    }
    assert(l.subrange(0, 10) =~= lw);
    assert forall|i: int| 0 <= i < lw.len() implies !is_space(#[trigger] lw[i]) by {}
    lemma_words_word(Seq::empty(), lw);
    assert(Seq::<u8>::empty() + lw =~= lw);
    lemma_words_space(lw, 32u8);
    lemma_words_word(lw.push(32u8), id);
    lemma_words_space(lw.push(32u8) + id, 32u8);
    lemma_words_word((lw.push(32u8) + id).push(32u8), seq![48u8]);
    assert(((lw.push(32u8) + id).push(32u8)) + seq![48u8] =~= l);
    assert(words(l) =~= seq![lw, id, seq![48u8]]);
    assert(seq![48u8].drop_last() =~= Seq::<u8>::empty());
    assert(digits_value(Seq::<u8>::empty()) == 0);
    assert(digits_value(seq![48u8]) == 0);
    assert(unsigned_in(seq![48u8], usize::MAX as nat) == Some(0nat));
}

/// The framed baseline snapshot arrives whole once all its bytes are there.
proof fn lemma_snapshot_baseline()
    ensures
        baseline(snapshot_frame()) == Baseline::Complete(snapshot_frame().len()),
{
    let d = decimal(snapshot().len());
    crate::text::lemma_decimal(snapshot().len());
    lemma_header(36u8, d, snapshot());
    assert(snapshot_frame() =~= seq![36u8] + d + crlf() + snapshot());
}

/// The handshake with a leader that answers each step as expected (`+PONG`,
/// `+OK`, `+OK`, then `+FULLRESYNC <id> 0` and the baseline snapshot, as a
/// leader's `respond` produces them): the follower sends `REPLCONF
/// listening-port <port>`, `REPLCONF capa psync2` and `PSYNC ? -1`, each only
/// once the answer before it has arrived, and ends having taken all the bytes,
/// with the leader's replication id and offset 0.
pub proof fn lemma_handshake_sequence(port: u32, id: Seq<u8>)
    requires
        id.len() > 0,
        lower(id) == id,
        forall|i: int| 0 <= i < id.len() ==> !is_space(#[trigger] id[i]),
    ensures
        handshake(Phase::AwaitPong, pong_reply(), port) == ProgressModel::Advance(
            pong_reply().len(),
            Phase::AwaitListeningOk,
            listening_request(port),
        ),
        handshake(Phase::AwaitListeningOk, ok_reply(), port) == ProgressModel::Advance(
            ok_reply().len(),
            Phase::AwaitCapaOk,
            capa_request(),
        ),
        handshake(Phase::AwaitCapaOk, ok_reply(), port) == ProgressModel::Advance(
            ok_reply().len(),
            Phase::AwaitFullResync,
            psync_request(),
        ),
        handshake(Phase::AwaitFullResync, fullresync_line(id) + snapshot_frame(), port)
            == ProgressModel::Done((fullresync_line(id) + snapshot_frame()).len(), id, 0),
{
    let e = Seq::<u8>::empty();
    let pong = seq![80u8, 79, 78, 71];
    assert(pong_reply() =~= seq![43u8] + pong + crlf() + e);
    lemma_status_line(pong, e);
    assert(lower(pong) =~= pong_word());
    let okw = seq![79u8, 75];
    assert(ok_reply() =~= seq![43u8] + okw + crlf() + e);
    lemma_status_line(okw, e);
    assert(lower(okw) =~= ok_word());
    let t = fullresync_text(id);
    let x = fullresync_line(id) + snapshot_frame();
    assert(x =~= seq![43u8] + t + crlf() + snapshot_frame());
    assert forall|i: int| 0 <= i < t.len() implies t[i] != CR by {
        if 11 <= i < 11 + id.len() {
            assert(t[i] == id[i - 11]);
        }
    }
    lemma_status_line(t, snapshot_frame());
    lemma_header(43u8, t, snapshot_frame());
    lemma_fullresync_words(id);
    lemma_snapshot_baseline();
    assert(x.subrange(t.len() + 3int, x.len() as int) == snapshot_frame());
}

/// Reading the leader's stream in two parts, keeping the bytes the first pass
/// did not take in front of the second part, ends as reading it all at once:
/// same bytes taken, same store, same offset, same answers in the same order.
pub proof fn lemma_follow_split(
    a: Seq<u8>,
    b: Seq<u8>,
    m: Map<Seq<u8>, (Value, nat)>,
    off: nat,
    now: nat,
)
    ensures
        ({
            let r1 = follow(a, m, off, now);
            let r2 = follow(a.subrange(r1.0 as int, a.len() as int) + b, r1.1, r1.2, now);
            follow(a + b, m, off, now) == (r1.0 + r2.0, r2.1, r2.2, r1.3 + r2.3)
        }),
    decreases a.len(),
{
    let r1 = follow(a, m, off, now);
    lemma_decode_len(a);
    match decode(a) {
        Some((n, f)) => {
            lemma_decode_extend(a, b);
            let rest = a.subrange(n as int, a.len() as int);
            let x = a + b;
            assert(x.subrange(n as int, x.len() as int) =~= rest + b);
            let (m2, off2, out) = apply_replicated(recognise(f), n, m, off, now);
            lemma_follow_split(rest, b, m2, off2, now);
            let k = follow(rest, m2, off2, now).0;
            lemma_follow_len(rest, m2, off2, now);
            assert(a.subrange((n + k) as int, a.len() as int) =~= rest.subrange(
                k as int,
                rest.len() as int,
            ));
            let mid = follow(rest, m2, off2, now);
            let r2 = follow(rest.subrange(k as int, rest.len() as int) + b, mid.1, mid.2, now);
            assert(out + (mid.3 + r2.3) =~= (out + mid.3) + r2.3);
        },
        None => {
            assert(a.subrange(0, a.len() as int) + b =~= a + b);
            let whole = follow(a + b, m, off, now);
            assert(Seq::<u8>::empty() + whole.3 =~= whole.3);
        },
    }
}

/// A follower's pass takes no more bytes than there are.
proof fn lemma_follow_len(s: Seq<u8>, m: Map<Seq<u8>, (Value, nat)>, off: nat, now: nat)
    ensures
        follow(s, m, off, now).0 <= s.len(),
    decreases s.len(),
{
    match decode(s) {
        Some((n, f)) => if 0 < n <= s.len() {
            let (m2, off2, out) = apply_replicated(recognise(f), n, m, off, now);
            lemma_follow_len(s.subrange(n as int, s.len() as int), m2, off2, now);
        },
        None => {},
    }
}

} // verus!
