use redis_starter_rust::cmd::NEVER;
use redis_starter_rust::config::Config;
use redis_starter_rust::frame::RESP;
use redis_starter_rust::replication::{ack_bytes, apply_command, first_request, handshake_step, ingest, Phase, Progress};
use redis_starter_rust::cmd::Cmd;
use redis_starter_rust::store::Shard;
use redis_starter_rust::server::{serve_request, Action, Step};
use redis_starter_rust::store::{new_sharded_db, ShardedDb};

fn bulk(s: &str) -> RESP {
    RESP::Bulk(s.as_bytes().to_vec())
}

/// Serves one request at the leader; returns the reply and, for a write, the
/// bytes passed on to followers.
fn leader(req: &[u8], db: &mut ShardedDb, config: &Config, now: u128) -> (Vec<u8>, Option<Vec<u8>>) {
    match serve_request(req, db, config, now) {
        Step::Act(_, Action::Reply(b), _) => (b, None),
        Step::Act(_, Action::AttachFollower(b), _) => (b, None),
        Step::Act(_, Action::ReplyAndPropagate(b), frame) => (b, Some(frame.to_bytes())),
        _ => panic!("no command"),
    }
}

#[test]
fn handshake_with_a_leader() {
    let mut leader_db = new_sharded_db(32);
    let leader_config = Config::new();
    let port: u32 = 6380;

    let req = first_request();
    assert_eq!(req, b"*1\r\n$4\r\nPING\r\n".to_vec());
    let (reply, _) = leader(&req, &mut leader_db, &leader_config, 0);
    assert_eq!(reply, b"+PONG\r\n".to_vec());

    let req = match handshake_step(Phase::AwaitPong, &reply, port) {
        Progress::Advance(7, Phase::AwaitListeningOk, req) => req,
        other => panic!("{:?}", other),
    };
    assert_eq!(req, b"*3\r\n$8\r\nREPLCONF\r\n$14\r\nlistening-port\r\n$4\r\n6380\r\n".to_vec());
    let (reply, _) = leader(&req, &mut leader_db, &leader_config, 0);
    assert_eq!(reply, b"+OK\r\n".to_vec());

    let req = match handshake_step(Phase::AwaitListeningOk, &reply, port) {
        Progress::Advance(5, Phase::AwaitCapaOk, req) => req,
        other => panic!("{:?}", other),
    };
    assert_eq!(req, b"*3\r\n$8\r\nREPLCONF\r\n$4\r\ncapa\r\n$6\r\npsync2\r\n".to_vec());
    let (reply, _) = leader(&req, &mut leader_db, &leader_config, 0);

    let req = match handshake_step(Phase::AwaitCapaOk, &reply, port) {
        Progress::Advance(5, Phase::AwaitFullResync, req) => req,
        other => panic!("{:?}", other),
    };
    assert_eq!(req, b"*3\r\n$5\r\nPSYNC\r\n$1\r\n?\r\n$2\r\n-1\r\n".to_vec());
    let (reply, _) = leader(&req, &mut leader_db, &leader_config, 0);

    // The snapshot arrives in pieces: until it is whole, read more.
    assert!(matches!(
        handshake_step(Phase::AwaitFullResync, &reply[..reply.len() - 1], port),
        Progress::NeedMore
    ));
    let mut with_more = reply.clone();
    with_more.extend_from_slice(b"*1\r\n$4\r\nPING\r\n");
    match handshake_step(Phase::AwaitFullResync, &with_more, port) {
        Progress::Done(n, replid, offset) => {
            assert_eq!(n, reply.len());
            assert_eq!(replid, leader_config.master_replid);
            assert_eq!(offset, 0);
        }
        other => panic!("{:?}", other),
    }
}

#[test]
fn handshake_failures() {
    assert!(matches!(handshake_step(Phase::AwaitPong, b"+OK\r\n", 1), Progress::Failed));
    assert!(matches!(handshake_step(Phase::AwaitCapaOk, b"-ERR\r\n", 1), Progress::Failed));
    assert!(matches!(handshake_step(Phase::AwaitCapaOk, b"-ER", 1), Progress::Failed));
    assert!(matches!(handshake_step(Phase::AwaitPong, b":1\r\n", 1), Progress::Failed));
    assert!(matches!(handshake_step(Phase::AwaitPong, b"", 1), Progress::NeedMore));
    assert!(matches!(handshake_step(Phase::AwaitListeningOk, b"+PONG\r\n", 1), Progress::Failed));
    assert!(matches!(handshake_step(Phase::AwaitPong, b"+PO", 1), Progress::NeedMore));
    assert!(matches!(
        handshake_step(Phase::AwaitFullResync, b"+FULLRESYNC abc 0\r\nREDIS", 1),
        Progress::Failed
    ));
    assert!(matches!(handshake_step(Phase::AwaitFullResync, b"+OK\r\n", 1), Progress::Failed));
}

#[test]
fn replication_apply() {
    let mut leader_db = new_sharded_db(32);
    let leader_config = Config::new();
    let mut follower_db = new_sharded_db(32);
    let mut offset: usize = 0;

    let get = b"*2\r\n$3\r\nGET\r\n$1\r\nk\r\n";
    let follower_config = Config::new();
    let (before, _) = leader(get, &mut follower_db, &follower_config, 0);
    assert_eq!(before, b"$-1\r\n".to_vec());

    let (reply, passed_on) = leader(b"*3\r\n$3\r\nSET\r\n$1\r\nk\r\n$1\r\nv\r\n", &mut leader_db, &leader_config, 5);
    assert_eq!(reply, b"+OK\r\n".to_vec());
    let stream = passed_on.unwrap();
    let (used, answers) = ingest(&stream, &mut follower_db, &mut offset, 6);
    assert_eq!(used, stream.len());
    assert!(answers.is_empty());
    assert_eq!(offset, stream.len());

    let (after, _) = leader(get, &mut follower_db, &follower_config, 7);
    assert_eq!(after, b"$1\r\nv\r\n".to_vec());
}

#[test]
fn replication_keeps_order() {
    let mut leader_db = new_sharded_db(8);
    let config = Config::new();
    let mut stream = Vec::new();
    for (k, v) in [("a", "1"), ("b", "2"), ("a", "3")] {
        let req = format!("*3\r\n$3\r\nSET\r\n$1\r\n{}\r\n$1\r\n{}\r\n", k, v);
        let (_, passed_on) = leader(req.as_bytes(), &mut leader_db, &config, 0);
        stream.extend_from_slice(&passed_on.unwrap());
    }
    let mut follower_db = new_sharded_db(8);
    let mut offset: usize = 0;
    let (used, _) = ingest(&stream, &mut follower_db, &mut offset, 0);
    assert_eq!(used, stream.len());
    assert_eq!(follower_db.get(b"a", 1), Some(bulk("3")));
    assert_eq!(follower_db.get(b"b", 1), Some(bulk("2")));
}

#[test]
fn getack_is_answered_with_the_offset_so_far() {
    let mut db = new_sharded_db(4);
    let mut offset: usize = 0;
    let set = b"*3\r\n$3\r\nSET\r\n$1\r\nx\r\n$1\r\ny\r\n";
    let getack = b"*3\r\n$8\r\nREPLCONF\r\n$6\r\nGETACK\r\n$1\r\n*\r\n";
    let mut stream = set.to_vec();
    stream.extend_from_slice(getack);
    let (used, answers) = ingest(&stream, &mut db, &mut offset, 0);
    assert_eq!(used, stream.len());
    assert_eq!(answers, ack_bytes(set.len()));
    assert_eq!(answers, b"*3\r\n$8\r\nREPLCONF\r\n$3\r\nACK\r\n$2\r\n27\r\n".to_vec());
    assert_eq!(offset, set.len() + getack.len());
    assert_eq!(getack.len(), 37);
}

#[test]
fn partial_frames_wait_for_the_rest() {
    let mut db = new_sharded_db(4);
    let mut offset: usize = 0;
    let set = b"*3\r\n$3\r\nSET\r\n$1\r\nk\r\n$2\r\nvv\r\n";
    let mut buf = set.to_vec();
    buf.extend_from_slice(&set[..10]);
    let (used, _) = ingest(&buf, &mut db, &mut offset, 0);
    assert_eq!(used, set.len());
    let mut rest = buf[used..].to_vec();
    rest.extend_from_slice(&set[10..]);
    let (used2, _) = ingest(&rest, &mut db, &mut offset, 0);
    assert_eq!(used2, set.len());
    assert_eq!(offset, 2 * set.len());
    assert_eq!(db.get(b"k", 0), Some(bulk("vv")));
}

#[test]
fn expiry_is_relative_to_the_followers_clock() {
    let mut db = new_sharded_db(4);
    let mut offset: usize = 0;
    let set = b"*5\r\n$3\r\nSET\r\n$1\r\nk\r\n$1\r\nv\r\n$2\r\npx\r\n$2\r\n10\r\n";
    ingest(set, &mut db, &mut offset, 100);
    assert_eq!(db.get(b"k", 109), Some(bulk("v")));
    assert_eq!(db.get(b"k", 110), None);
    let never = b"*3\r\n$3\r\nSET\r\n$1\r\nn\r\n$1\r\nv\r\n";
    ingest(never, &mut db, &mut offset, 100);
    assert_eq!(db.get(b"n", NEVER - 1), Some(bulk("v")));
}

#[test]
fn commands_apply_to_one_shard() {
    let mut shard = Shard::new();
    let mut offset: usize = 10;
    let mut out = Vec::new();
    apply_command(Cmd::SetKey(b"k".to_vec(), b"v".to_vec(), NEVER), 27, &mut shard, &mut offset, &mut out, 0);
    assert_eq!(offset, 37);
    assert!(out.is_empty());
    apply_command(Cmd::ReplConf(b"getack".to_vec(), b"*".to_vec()), 37, &mut shard, &mut offset, &mut out, 0);
    assert_eq!(out, ack_bytes(37));
    assert_eq!(offset, 74);
    apply_command(Cmd::Ping, 14, &mut shard, &mut offset, &mut out, 0);
    assert_eq!(offset, 88);
    assert_eq!(shard.get(b"k", 5), Some(bulk("v")));
    let mut full = usize::MAX - 1;
    apply_command(Cmd::Ping, 14, &mut shard, &mut full, &mut out, 0);
    assert_eq!(full, usize::MAX);
}
