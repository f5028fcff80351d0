use redis_starter_rust::config::{Config, Role};
use redis_starter_rust::frame::RESP;
use redis_starter_rust::server::{dispatch, hex2bytes, parse_request, route, serve_request, snapshot_bytes, Action, Request, Step, EMPTY_RDB_HEX};
use redis_starter_rust::cmd::Cmd;
use redis_starter_rust::store::{hash, Shard};
use redis_starter_rust::store::{new_sharded_db, ShardedDb};

fn serve(buf: &[u8], db: &mut ShardedDb, config: &Config, now: u128) -> (usize, Vec<u8>, bool) {
    match serve_request(buf, db, config, now) {
        Step::Act(n, Action::Reply(b), _) => (n, b, false),
        Step::Act(n, Action::ReplyAndPropagate(b), _) => (n, b, true),
        Step::Act(n, Action::AttachFollower(b), _) => (n, b, false),
        Step::Ignored(_) => panic!("ignored"),
        Step::Malformed => panic!("malformed"),
        Step::NeedMore => panic!("need more"),
    }
}

fn contains(hay: &[u8], needle: &[u8]) -> bool {
    hay.windows(needle.len()).any(|w| w == needle)
}

#[test]
fn ping_and_echo() {
    let mut db = new_sharded_db(32);
    let config = Config::new();
    let (n, r, _) = serve(b"*1\r\n$4\r\nPING\r\n", &mut db, &config, 0);
    assert_eq!(n, 14);
    assert_eq!(r, b"+PONG\r\n".to_vec());
    let (_, r, _) = serve(b"*2\r\n$4\r\nECHO\r\n$5\r\nhello\r\n", &mut db, &config, 0);
    assert_eq!(r, b"$5\r\nhello\r\n".to_vec());
}

#[test]
fn set_and_get_without_expiry() {
    let mut db = new_sharded_db(32);
    let config = Config::new();
    let (_, r, forward) = serve(b"*3\r\n$3\r\nSET\r\n$3\r\nfoo\r\n$3\r\nbar\r\n", &mut db, &config, 10);
    assert_eq!(r, b"+OK\r\n".to_vec());
    assert!(forward);
    let (_, r, forward) = serve(b"*2\r\n$3\r\nGET\r\n$3\r\nfoo\r\n", &mut db, &config, 20);
    assert_eq!(r, b"$3\r\nbar\r\n".to_vec());
    assert!(!forward);
}

#[test]
fn set_with_expiry() {
    let mut db = new_sharded_db(32);
    let config = Config::new();
    let t0: u128 = 1_700_000_000_000;
    let (_, r, _) = serve(
        b"*5\r\n$3\r\nSET\r\n$1\r\nk\r\n$1\r\nv\r\n$2\r\nPX\r\n$3\r\n100\r\n",
        &mut db,
        &config,
        t0,
    );
    assert_eq!(r, b"+OK\r\n".to_vec());
    let get = b"*2\r\n$3\r\nGET\r\n$1\r\nk\r\n";
    let (_, r, _) = serve(get, &mut db, &config, t0 + 50);
    assert_eq!(r, b"$1\r\nv\r\n".to_vec());
    let (_, r, _) = serve(get, &mut db, &config, t0 + 200);
    assert_eq!(r, b"$-1\r\n".to_vec());
    assert_eq!(db.get(b"k", t0), None);
}

#[test]
fn expiry_saturates() {
    let mut db = new_sharded_db(2);
    let config = Config::new();
    let set = format!(
        "*5\r\n$3\r\nSET\r\n$1\r\nk\r\n$1\r\nv\r\n$2\r\nPX\r\n${}\r\n{}\r\n",
        u128::MAX.to_string().len(),
        u128::MAX - 1
    );
    serve(set.as_bytes(), &mut db, &config, 10);
    assert_eq!(db.get(b"k", u128::MAX - 1), Some(RESP::Bulk(b"v".to_vec())));
}

#[test]
fn info_replication_on_a_leader() {
    let mut db = new_sharded_db(32);
    let config = Config::new();
    let (_, r, _) = serve(b"*2\r\n$4\r\nINFO\r\n$11\r\nreplication\r\n", &mut db, &config, 0);
    assert!(contains(&r, b"role:master"));
    assert!(contains(&r, b"master_repl_offset:0"));
    let at = r.windows(14).position(|w| w == b"master_replid:").unwrap() + 14;
    let id: Vec<u8> = r[at..].iter().take_while(|b| **b != b'\r').cloned().collect();
    assert_eq!(id.len(), 40);
    assert_eq!(id, config.master_replid);
    let (_, r, _) = serve(b"*2\r\n$4\r\nINFO\r\n$6\r\nserver\r\n", &mut db, &config, 0);
    assert_eq!(r, b"$-1\r\n".to_vec());
}

#[test]
fn info_replication_on_a_follower() {
    let mut db = new_sharded_db(32);
    let mut config = Config::new();
    config.role = Role::Slave;
    let (_, r, _) = serve(b"*1\r\n$4\r\nINFO\r\n", &mut db, &config, 0);
    assert_eq!(r, b"$-1\r\n".to_vec());
    let (_, r, _) = serve(b"*2\r\n$4\r\nINFO\r\n$11\r\nreplication\r\n", &mut db, &config, 0);
    assert!(contains(&r, b"role:slave"));
}

#[test]
fn replconf_and_unexpected_commands() {
    let mut db = new_sharded_db(32);
    let config = Config::new();
    let (_, r, _) = serve(b"*3\r\n$8\r\nREPLCONF\r\n$4\r\ncapa\r\n$6\r\npsync2\r\n", &mut db, &config, 0);
    assert_eq!(r, b"+OK\r\n".to_vec());
    let (_, r, _) = serve(b"*3\r\n$5\r\nPSYNC\r\n$3\r\nabc\r\n$1\r\n5\r\n", &mut db, &config, 0);
    assert_eq!(r, b"$-1\r\n".to_vec());
    assert!(matches!(
        serve_request(b"*1\r\n$7\r\nunknown\r\n", &mut db, &config, 0),
        Step::Ignored(17)
    ));
    assert!(matches!(serve_request(b"*1\r\n$4\r\nPI", &mut db, &config, 0), Step::NeedMore));
}

#[test]
fn psync_attaches_a_follower() {
    let mut db = new_sharded_db(32);
    let config = Config::new();
    match serve_request(b"*3\r\n$5\r\nPSYNC\r\n$1\r\n?\r\n$2\r\n-1\r\n", &mut db, &config, 0) {
        Step::Act(_, Action::AttachFollower(b), _) => {
            let mut expected = format!("+FULLRESYNC {} 0\r\n", String::from_utf8(config.master_replid.clone()).unwrap()).into_bytes();
            expected.extend_from_slice(&snapshot_bytes());
            assert_eq!(b, expected);
        }
        _ => panic!("expected a follower hand-off"),
    }
}

#[test]
fn snapshot_framing() {
    let blob = hex2bytes(EMPTY_RDB_HEX);
    assert_eq!(blob.len(), 88);
    assert_eq!(&blob[..9], b"REDIS0011");
    let framed = snapshot_bytes();
    assert_eq!(&framed[..5], b"$88\r\n");
    assert_eq!(&framed[5..], &blob[..]);
}

#[test]
fn hex_decoding() {
    assert_eq!(hex2bytes("00ff10a"), vec![0x00, 0xff, 0x10, 0xa0]);
    assert_eq!(hex2bytes(""), Vec::<u8>::new());
    assert_eq!(hex2bytes("zz"), vec![0]);
}

#[test]
fn config_from_args() {
    let args: Vec<Vec<u8>> = ["prog", "--port", "6380", "--replicaof", "localhost", "6379"]
        .iter()
        .map(|a| a.as_bytes().to_vec())
        .collect();
    let c = Config::from_args(&args);
    assert_eq!(c.port, 6380);
    assert_eq!(c.master_host, b"localhost".to_vec());
    assert_eq!(c.master_port, 6379);
    assert_eq!(c.role, Role::Slave);
    assert_eq!(c.master_replid, b"?".to_vec());
    assert_eq!(c.master_repl_offset, 0);

    let args: Vec<Vec<u8>> = ["prog", "--port", "notanumber", "--replicaof", "host", "0"]
        .iter()
        .map(|a| a.as_bytes().to_vec())
        .collect();
    let c = Config::from_args(&args);
    assert_eq!(c.port, 6379);
    assert_eq!(c.master_port, 0);
    assert_eq!(c.role, Role::Master);
    assert_eq!(c.master_replid.len(), 40);
    let d: Config = Default::default();
    assert_eq!(d.port, 6379);
}

#[test]
fn malformed_frames_are_told_apart() {
    let mut db = new_sharded_db(4);
    let config = Config::new();
    assert!(matches!(serve_request(b":1\r\n", &mut db, &config, 0), Step::Malformed));
    assert!(matches!(serve_request(b"-ERR x", &mut db, &config, 0), Step::Malformed));
    assert!(matches!(serve_request(b"$ab\r\n", &mut db, &config, 0), Step::Malformed));
    assert!(matches!(serve_request(b"*x\r\n", &mut db, &config, 0), Step::Malformed));
    assert!(matches!(serve_request(b"+OK\rX", &mut db, &config, 0), Step::Malformed));
    assert!(matches!(serve_request(b"$-1\r", &mut db, &config, 0), Step::NeedMore));
    assert!(matches!(serve_request(b"$12", &mut db, &config, 0), Step::NeedMore));
    assert!(matches!(parse_request(b""), Request::NeedMore));
    assert!(matches!(parse_request(b"?"), Request::Malformed));
}

#[test]
fn routing_and_dispatch_on_one_shard() {
    let get = Cmd::Get(b"key7".to_vec());
    assert_eq!(route(&get, 32), hash(b"key7") % 32);
    assert_eq!(route(&Cmd::Ping, 32), 0);
    let mut shard = Shard::new();
    let config = Config::new();
    let set = Cmd::SetKey(b"key7".to_vec(), b"v".to_vec(), 100);
    assert!(matches!(dispatch(set, &mut shard, &config, 1000), Action::ReplyAndPropagate(_)));
    match dispatch(get, &mut shard, &config, 1050) {
        Action::Reply(b) => assert_eq!(b, b"$1\r\nv\r\n".to_vec()),
        _ => panic!("expected a reply"),
    }
    match parse_request(b"*2\r\n$3\r\nGET\r\n$4\r\nkey7\r\n") {
        Request::Command(n, cmd, _) => {
            assert_eq!(n, 23);
            assert_eq!(cmd, Cmd::Get(b"key7".to_vec()));
        }
        _ => panic!("expected a command"),
    }
}
