//! The leader's side of a client connection: how each request is answered,
//! what it does to the store, and the resynchronisation payload for followers.
use vstd::prelude::*;
use vstd::string::StringSliceAdditionalSpecFns;
use crate::cmd::{Cmd, Command, NEVER, recognise};
use crate::config::{Config, ConfigModel, Role};
use crate::frame::{RESP, Value, encode, decode, crlf, malformed, is_malformed, lemma_malformed_final};
use crate::store::{KeyValueStore, read, after_read, shard_of, hash};
use crate::text::{CR, LF, decimal, push_slice, push_decimal, eq_bytes, copy_bytes, push_bytes};

verus! {

broadcast use vstd::std_specs::vec::group_vec_axioms;

/// The baseline snapshot sent to a new follower: an empty database, in hex.
pub const EMPTY_RDB_HEX: &'static str = "524544495330303131fa0972656469732d76657205372e322e30fa0a72656469732d62697473c040fa056374696d65c26d08bc65fa08757365642d6d656dc2b0c41000fa08616f662d62617365c000fff06e3bfec0ff5aa2";

/// The value of a lower-case hex digit; other bytes count as zero.
pub open spec fn nibble(c: u8) -> nat {
    if 48 <= c && c <= 57 {
        (c - 48) as nat
    } else if 97 <= c && c <= 102 {
        (c - 87) as nat
    } else {
        0
    }
}

/// The bytes that a hex text denotes, two digits per byte; an odd last digit
/// is the high half of a final byte.
pub open spec fn hex_decode(b: Seq<u8>) -> Seq<u8> {
    Seq::new(
        ((b.len() + 1) / 2) as nat,
        |i: int|
            (nibble(b[2 * i]) * 16 + if 2 * i + 1 < b.len() {
                nibble(b[2 * i + 1])
            } else {
                0
            }) as u8,
    )
}

/// The snapshot bytes.
pub open spec fn snapshot() -> Seq<u8> {
    hex_decode(EMPTY_RDB_HEX.spec_bytes())
}

/// The snapshot framed as `$<len>\r\n<bytes>`, with no CRLF after the bytes.
pub open spec fn snapshot_frame() -> Seq<u8> {
    seq![36u8] + decimal(snapshot().len()) + crlf() + snapshot()
}

pub open spec fn pong_reply() -> Seq<u8> {
    seq![43u8, 80, 79, 78, 71, 13, 10]
}

pub open spec fn ok_reply() -> Seq<u8> {
    seq![43u8, 79, 75, 13, 10]
}

pub open spec fn null_reply() -> Seq<u8> {
    encode(Value::Null)
}

pub open spec fn replication_word() -> Seq<u8> {
    seq![114u8, 101, 112, 108, 105, 99, 97, 116, 105, 111, 110]
}

pub open spec fn role_name(r: Role) -> Seq<u8> {
    match r {
        Role::Master => seq![109u8, 97, 115, 116, 101, 114],
        Role::Slave => seq![115u8, 108, 97, 118, 101],
    }
}

/// `role:<r>\r\nmaster_replid:<id>\r\nmaster_repl_offset:<off>`
pub open spec fn info_text(c: ConfigModel) -> Seq<u8> {
    seq![114u8, 111, 108, 101, 58] + role_name(c.role) + crlf() + seq![
        109u8,
        97,
        115,
        116,
        101,
        114,
        95,
        114,
        101,
        112,
        108,
        105,
        100,
        58,
    ] + c.master_replid + crlf() + seq![
        109u8,
        97,
        115,
        116,
        101,
        114,
        95,
        114,
        101,
        112,
        108,
        95,
        111,
        102,
        102,
        115,
        101,
        116,
        58,
    ] + decimal(c.master_repl_offset)
}

/// `+FULLRESYNC <replid> 0\r\n`
pub open spec fn fullresync_line(replid: Seq<u8>) -> Seq<u8> {
    seq![43u8, 70, 85, 76, 76, 82, 69, 83, 89, 78, 67, 32] + replid + seq![32u8, 48, 13, 10]
}

/// The absolute expiry of a write at time `now` with a relative expiry `e`
/// (`NEVER` stays `NEVER`; a sum past the largest value saturates to it).
pub open spec fn expiry_at(e: nat, now: nat) -> nat {
    if e == NEVER as nat || now + e >= NEVER as nat {
        NEVER as nat
    } else {
        now + e
    }
}

/// The absolute expiry of a write at time `now` with relative expiry `e`.
pub fn absolute_expiry(e: u128, now: u128) -> (r: u128)
    ensures
        r as nat == expiry_at(e as nat, now as nat),
{
    if e == NEVER || e >= NEVER - now {
        NEVER
    } else {
        now + e
    }
}

/// What the connection does after answering a request.
pub enum Action {
    /// Write these bytes back.
    Reply(Vec<u8>),
    /// Write these bytes back, then pass the request on to the followers.
    ReplyAndPropagate(Vec<u8>),
    /// Write these bytes back, then hand the connection over to a follower link.
    AttachFollower(Vec<u8>),
}

pub enum Outcome {
    Reply(Seq<u8>),
    ReplyAndPropagate(Seq<u8>),
    AttachFollower(Seq<u8>),
}

impl View for Action {
    type V = Outcome;

    open spec fn view(&self) -> Outcome {
        match self {
            Action::Reply(b) => Outcome::Reply(b@),
            Action::ReplyAndPropagate(b) => Outcome::ReplyAndPropagate(b@),
            Action::AttachFollower(b) => Outcome::AttachFollower(b@),
        }
    }
}

/// How a leader answers a command, given the store's contents, its
/// configuration and the time; with the store's contents afterwards.
pub open spec fn respond(
    c: Command,
    m: Map<Seq<u8>, (Value, nat)>,
    cfg: ConfigModel,
    now: nat,
) -> (Outcome, Map<Seq<u8>, (Value, nat)>) {
    match c {
        Command::Ping => (Outcome::Reply(pong_reply()), m),
        Command::Echo(s) => (Outcome::Reply(encode(Value::Bulk(s))), m),
        Command::SetKey(k, v, e) => (
            Outcome::ReplyAndPropagate(ok_reply()),
            m.insert(k, (Value::Bulk(v), expiry_at(e, now))),
        ),
        Command::Get(k) => (
            Outcome::Reply(
                match read(m, k, now) {
                    Some(f) => encode(f),
                    None => null_reply(),
                },
            ),
            after_read(m, k, now),
        ),
        Command::Info(s) => if s == replication_word() {
            (Outcome::Reply(encode(Value::Bulk(info_text(cfg)))), m)
        } else {
            (Outcome::Reply(null_reply()), m)
        },
        Command::ReplConf(_, _) => (Outcome::Reply(ok_reply()), m),
        Command::Psync(id, o) => if id == seq![63u8] && o == -1 {
            (Outcome::AttachFollower(fullresync_line(cfg.master_replid) + snapshot_frame()), m)
        } else {
            (Outcome::Reply(null_reply()), m)
        },
        _ => (Outcome::Reply(null_reply()), m),
    }
}

/// Decodes hex text into bytes, two digits per byte. Bytes that are not
/// lower-case hex digits count as zero.
pub fn hex2bytes(src: &str) -> (r: Vec<u8>)
    ensures
        r@ == hex_decode(src.spec_bytes()),
{
    let b = src.as_bytes();
    let n = b.len();
    let mut out: Vec<u8> = Vec::new();
    while out.len() < n - out.len()
        invariant
            b@ == src.spec_bytes(),
            n == b@.len(),
            out@.len() <= n,
            2 * out@.len() <= n + 1,
            forall|m: int| 0 <= m < out@.len() ==> out@[m] == #[trigger] hex_decode(b@)[m],
        decreases n - out@.len(),
    {
        let i = 2 * out.len();
        let hi = b[i];
        let h: u8 = if 48 <= hi && hi <= 57 {
            hi - 48
        } else if 97 <= hi && hi <= 102 {
            hi - 87
        } else {
            0
        };
        let l: u8 = if n - i > 1 {
            let lo = b[i + 1];
            if 48 <= lo && lo <= 57 {
                lo - 48
            } else if 97 <= lo && lo <= 102 {
                lo - 87
            } else {
                0
            }
        } else {
            0
        };
        assert(hex_decode(b@)[out@.len() as int] == h * 16 + l);
        out.push(h * 16 + l);
    }
    assert(out@ =~= hex_decode(b@));
    out
}

/// The snapshot framed for a new follower.
pub fn snapshot_bytes() -> (r: Vec<u8>)
    ensures
        r@ == snapshot_frame(),
{
    let blob = hex2bytes(EMPTY_RDB_HEX);
    let mut out: Vec<u8> = Vec::new();
    out.push(36);
    push_decimal(blob.len() as u128, &mut out);
    out.push(CR);
    out.push(LF);
    push_slice(blob.as_slice(), 0, blob.len(), &mut out);
    assert(blob@.subrange(0, blob@.len() as int) =~= blob@);
    assert(out@ =~= snapshot_frame());
    out
}

/// The text of a replication report.
pub fn info_bytes(config: &Config) -> (r: Vec<u8>)
    ensures
        r@ == info_text(config@),
{
    let mut out: Vec<u8> = Vec::new();
    let l_role: [u8; 5] = [114, 111, 108, 101, 58];
    let l_master: [u8; 6] = [109, 97, 115, 116, 101, 114];
    let l_slave: [u8; 5] = [115, 108, 97, 118, 101];
    let l_replid: [u8; 14] = [109, 97, 115, 116, 101, 114, 95, 114, 101, 112, 108, 105, 100, 58];
    let l_offset: [u8; 19] = [
        109,
        97,
        115,
        116,
        101,
        114,
        95,
        114,
        101,
        112,
        108,
        95,
        111,
        102,
        102,
        115,
        101,
        116,
        58,
    ];
    let l_crlf: [u8; 2] = [CR, LF];
    push_bytes(&mut out, &l_role);
    match config.role {
        Role::Master => push_bytes(&mut out, &l_master),
        Role::Slave => push_bytes(&mut out, &l_slave),
    }
    push_bytes(&mut out, &l_crlf);
    push_bytes(&mut out, &l_replid);
    push_bytes(&mut out, config.master_replid.as_slice());
    push_bytes(&mut out, &l_crlf);
    push_bytes(&mut out, &l_offset);
    push_decimal(config.master_repl_offset as u128, &mut out);
    assert(l_role@ =~= seq![114u8, 111, 108, 101, 58]);
    assert(l_master@ =~= role_name(Role::Master));
    assert(l_slave@ =~= role_name(Role::Slave));
    assert(l_crlf@ =~= crlf());
    assert(l_replid@ =~= seq![
        109u8,
        97,
        115,
        116,
        101,
        114,
        95,
        114,
        101,
        112,
        108,
        105,
        100,
        58,
    ]);
    assert(l_offset@ =~= seq![
        109u8,
        97,
        115,
        116,
        101,
        114,
        95,
        114,
        101,
        112,
        108,
        95,
        111,
        102,
        102,
        115,
        101,
        116,
        58,
    ]);
    assert(out@ =~= info_text(config@));
    out
}

fn null_bytes() -> (r: Vec<u8>)
    ensures
        r@ == null_reply(),
{
    RESP::Null.to_bytes()
}

fn ok_bytes() -> (r: Vec<u8>)
    ensures
        r@ == ok_reply(),
{
    let l: [u8; 5] = [43, 79, 75, 13, 10];
    assert(l@ =~= ok_reply());
    copy_bytes(&l)
}

/// Carries out one command against a store at time `now` (milliseconds since
/// the epoch) and says how to answer it.
pub fn dispatch<S: KeyValueStore>(cmd: Cmd, db: &mut S, config: &Config, now: u128) -> (r: Action)
    requires
        old(db).inv(),
    ensures
        final(db).inv(),
        (r@, final(db).contents()) == respond(cmd@, old(db).contents(), config@, now as nat),
{
    match cmd {
        Cmd::Ping => {
            let l: [u8; 7] = [43, 80, 79, 78, 71, 13, 10];
            assert(l@ =~= pong_reply());
            Action::Reply(copy_bytes(&l))
        },
        Cmd::Echo(s) => Action::Reply(RESP::Bulk(s).to_bytes()),
        Cmd::SetKey(k, v, e) => {
            db.put_entry(k, RESP::Bulk(v), absolute_expiry(e, now));
            Action::ReplyAndPropagate(ok_bytes())
        },
        Cmd::Get(k) => match db.get_entry(k.as_slice(), now) {
            Some(f) => Action::Reply(f.to_bytes()),
            None => Action::Reply(null_bytes()),
        },
        Cmd::Info(s) => {
            let l: [u8; 11] = [114, 101, 112, 108, 105, 99, 97, 116, 105, 111, 110];
            assert(l@ =~= replication_word());
            if eq_bytes(s.as_slice(), &l) {
                Action::Reply(RESP::Bulk(info_bytes(config)).to_bytes())
            } else {
                Action::Reply(null_bytes())
            }
        },
        Cmd::ReplConf(_, _) => Action::Reply(ok_bytes()),
        Cmd::Psync(id, o) => {
            if id.len() == 1 && id[0] == 63 && o == -1 {
                assert(id@ =~= seq![63u8]);
                let head: [u8; 12] = [43, 70, 85, 76, 76, 82, 69, 83, 89, 78, 67, 32];
                let tail: [u8; 4] = [32, 48, 13, 10];
                let mut out: Vec<u8> = Vec::new();
                push_bytes(&mut out, &head);
                push_bytes(&mut out, config.master_replid.as_slice());
                push_bytes(&mut out, &tail);
                let snap = snapshot_bytes();
                push_bytes(&mut out, snap.as_slice());
                assert(head@ =~= seq![43u8, 70, 85, 76, 76, 82, 69, 83, 89, 78, 67, 32]);
                assert(tail@ =~= seq![32u8, 48, 13, 10]);
                assert(out@ =~= fullresync_line(config.master_replid@) + snapshot_frame());
                Action::AttachFollower(out)
            } else {
                assert(id@ != seq![63u8] || o != -1) by {
                    if id@ == seq![63u8] {
                        assert(id@.len() == 1 && id@[0] == 63);
                    }
                }
                Action::Reply(null_bytes())
            }
        },
        _ => Action::Reply(null_bytes()),
    }
}

/// The key whose shard a command touches, if any.
pub open spec fn command_key(c: Command) -> Option<Seq<u8>> {
    match c {
        Command::SetKey(k, _, _) => Some(k),
        Command::Get(k) => Some(k),
        _ => None,
    }
}

/// The shard, among `n`, that a command touches; shard 0 for one that
/// touches none.
pub fn route(cmd: &Cmd, n: usize) -> (r: usize)
    requires
        n > 0,
    ensures
        r < n,
        match command_key(cmd@) {
            Some(k) => r == shard_of(k, n as nat),
            None => r == 0,
        },
{
    match cmd {
        Cmd::SetKey(k, _, _) => hash(k.as_slice()) % n,
        Cmd::Get(k) => hash(k.as_slice()) % n,
        _ => 0,
    }
}

/// What the bytes at the front of a connection's buffer hold.
pub enum Request {
    /// No complete frame yet: read more.
    NeedMore,
    /// The bytes can never become a frame, whatever follows: drop the connection.
    Malformed,
    /// A frame of this many bytes that is no command; nothing to answer.
    Ignored(usize),
    /// A command frame of this many bytes, its command, and the frame.
    Command(usize, Cmd, RESP),
}

/// Reads the request at the front of `buf`: decodes one frame and recognises
/// its command.
pub fn parse_request(buf: &[u8]) -> (r: Request)
    ensures
        match r {
            Request::NeedMore => decode(buf@) is None && !malformed(buf@),
            Request::Malformed => malformed(buf@) && decode(buf@) is None,
            Request::Ignored(n) => {
                &&& decode(buf@) is Some
                &&& decode(buf@)->Some_0.0 == n
                &&& recognise(decode(buf@)->Some_0.1) is None
            },
            Request::Command(n, c, f) => {
                &&& decode(buf@) == Some((n as nat, f@))
                &&& recognise(f@) == Some(c@)
            },
        },
{
    match RESP::read_next_resp(buf) {
        None => if is_malformed(buf) {
            proof {
                lemma_malformed_final(buf@, Seq::empty());
                assert(buf@ + Seq::<u8>::empty() =~= buf@);
            }
            Request::Malformed
        } else {
            Request::NeedMore
        },
        Some((n, frame)) => match Cmd::from(&frame) {
            None => Request::Ignored(n),
            Some(cmd) => Request::Command(n, cmd, frame),
        },
    }
}

/// What became of the bytes at the front of a connection's buffer.
pub enum Step {
    /// No complete frame yet: read more.
    NeedMore,
    /// The bytes can never become a frame, whatever follows: drop the connection.
    Malformed,
    /// A frame of this many bytes that is no command; nothing to answer.
    Ignored(usize),
    /// A command frame of this many bytes, what to do about it, and the frame.
    Act(usize, Action, RESP),
}

/// Serves the request at the front of `buf`: decodes one frame, recognises
/// its command and carries it out.
pub fn serve_request<S: KeyValueStore>(buf: &[u8], db: &mut S, config: &Config, now: u128) -> (r:
    Step)
    requires
        old(db).inv(),
    ensures
        final(db).inv(),
        match r {
            Step::NeedMore => decode(buf@) is None && !malformed(buf@) && final(db).contents()
                == old(db).contents(),
            Step::Malformed => malformed(buf@) && decode(buf@) is None && final(db).contents()
                == old(db).contents(),
            Step::Ignored(n) => {
                &&& decode(buf@) is Some
                &&& decode(buf@)->Some_0.0 == n
                &&& recognise(decode(buf@)->Some_0.1) is None
                &&& final(db).contents() == old(db).contents()
            },
            Step::Act(n, a, f) => {
                &&& decode(buf@) == Some((n as nat, f@))
                &&& recognise(f@) is Some
                &&& (a@, final(db).contents()) == respond(
                    recognise(f@)->Some_0,
                    old(db).contents(),
                    config@,
                    now as nat,
                )
            },
        },
{
    match parse_request(buf) {
        Request::NeedMore => Step::NeedMore,
        Request::Malformed => Step::Malformed,
        Request::Ignored(n) => Step::Ignored(n),
        Request::Command(n, cmd, frame) => {
            let a = dispatch(cmd, db, config, now);
            Step::Act(n, a, frame)
        },
    }
}

/// The store's contents after `SET k v` (with no expiry) is served at each
/// of the times `ts`, in order.
pub open spec fn after_sets(
    m: Map<Seq<u8>, (Value, nat)>,
    cfg: ConfigModel,
    k: Seq<u8>,
    v: Seq<u8>,
    ts: Seq<nat>,
) -> Map<Seq<u8>, (Value, nat)>
    decreases ts.len(),
{
    if ts.len() == 0 {
        m
    } else {
        respond(
            Command::SetKey(k, v, NEVER as nat),
            after_sets(m, cfg, k, v, ts.drop_last()),
            cfg,
            ts.last(),
        ).1
    }
}

/// Setting a key without expiry, once or many times, then getting it, always
/// answers with the value, whatever the clock reads.
pub proof fn lemma_set_idempotent(
    m: Map<Seq<u8>, (Value, nat)>,
    cfg: ConfigModel,
    k: Seq<u8>,
    v: Seq<u8>,
    ts: Seq<nat>,
    now: nat,
)
    requires
        ts.len() >= 1,
    ensures
        respond(Command::Get(k), after_sets(m, cfg, k, v, ts), cfg, now).0 == Outcome::Reply(
            encode(Value::Bulk(v)),
        ),
{
}

} // verus!
