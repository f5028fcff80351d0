use redis_starter_rust::cmd::{Cmd, NEVER};
use redis_starter_rust::frame::RESP;

fn bulk(s: &str) -> RESP {
    RESP::Bulk(s.as_bytes().to_vec())
}

fn request(words: &[&str]) -> RESP {
    RESP::Array(words.iter().map(|w| bulk(w)).collect())
}

#[test]
fn test_ping() {
    let frame = RESP::Array(vec![bulk("ping")]);
    assert_eq!(Cmd::from(&frame), Some(Cmd::Ping));
}

#[test]
fn test_echo() {
    let frame = RESP::Array(vec![bulk("echo"), bulk("hello")]);
    assert_eq!(Cmd::from(&frame), Some(Cmd::Echo(b"hello".to_vec())));
}

#[test]
fn test_fullresync() {
    let frame = RESP::Simple(b"fullresync 75cd7bc10c49047e0d163660f3b90625b1af31dc 0".to_vec());
    assert_eq!(
        Cmd::from(&frame),
        Some(Cmd::FullReSync(
            b"75cd7bc10c49047e0d163660f3b90625b1af31dc".to_vec(),
            0
        ))
    );
}

#[test]
fn ping_in_any_case_is_the_same_command() {
    let mut cmds = Vec::new();
    for word in ["PING", "Ping", "ping"] {
        let bytes = request(&[word]).to_bytes();
        let (_, frame) = RESP::read_next_resp(&bytes).unwrap();
        cmds.push(Cmd::from(&frame));
    }
    assert_eq!(cmds[0], Some(Cmd::Ping));
    assert_eq!(cmds[0], cmds[1]);
    assert_eq!(cmds[1], cmds[2]);
}

#[test]
fn set_shapes() {
    assert_eq!(
        Cmd::from(&request(&["set", "k", "v"])),
        Some(Cmd::SetKey(b"k".to_vec(), b"v".to_vec(), NEVER))
    );
    assert_eq!(
        Cmd::from(&request(&["set", "k", "v", "px", "100"])),
        Some(Cmd::SetKey(b"k".to_vec(), b"v".to_vec(), 100))
    );
    assert_eq!(
        Cmd::from(&request(&["set", "k", "v", "px", "+7"])),
        Some(Cmd::SetKey(b"k".to_vec(), b"v".to_vec(), 7))
    );
    assert_eq!(Cmd::from(&request(&["set", "k", "v", "px", "soon"])), None);
    assert_eq!(Cmd::from(&request(&["set", "k", "v", "px", "-5"])), None);
    assert_eq!(Cmd::from(&request(&["set", "k", "v", "ex", "5"])), None);
    assert_eq!(Cmd::from(&request(&["set", "k", "v", "px"])), None);
    assert_eq!(Cmd::from(&request(&["set", "k"])), None);
}

#[test]
fn other_shapes() {
    assert_eq!(Cmd::from(&request(&["get", "k"])), Some(Cmd::Get(b"k".to_vec())));
    assert_eq!(Cmd::from(&request(&["get"])), None);
    assert_eq!(Cmd::from(&request(&["info"])), Some(Cmd::Info(Vec::new())));
    assert_eq!(
        Cmd::from(&request(&["info", "replication"])),
        Some(Cmd::Info(b"replication".to_vec()))
    );
    assert_eq!(
        Cmd::from(&request(&["replconf", "capa", "psync2"])),
        Some(Cmd::ReplConf(b"capa".to_vec(), b"psync2".to_vec()))
    );
    assert_eq!(
        Cmd::from(&request(&["psync", "?", "-1"])),
        Some(Cmd::Psync(b"?".to_vec(), -1))
    );
    assert_eq!(Cmd::from(&request(&["psync", "?", "x"])), None);
    assert_eq!(Cmd::from(&request(&["psync", "?", "9223372036854775808"])), None);
    assert_eq!(
        Cmd::from(&request(&["psync", "?", "-9223372036854775808"])),
        Some(Cmd::Psync(b"?".to_vec(), i64::MIN))
    );
    assert_eq!(Cmd::from(&request(&["flushall"])), None);
    assert_eq!(Cmd::from(&RESP::Array(vec![])), None);
    assert_eq!(Cmd::from(&RESP::Array(vec![bulk("echo"), RESP::Null])), None);
    assert_eq!(Cmd::from(&RESP::Null), None);
}

#[test]
fn fullresync_lines() {
    assert_eq!(
        Cmd::from(&RESP::Simple(b"fullresync  abc\t 12 extra".to_vec())),
        Some(Cmd::FullReSync(b"abc".to_vec(), 12))
    );
    assert_eq!(Cmd::from(&RESP::Simple(b"fullresync abc".to_vec())), None);
    assert_eq!(Cmd::from(&RESP::Simple(b"fullresync abc x".to_vec())), None);
    assert_eq!(Cmd::from(&RESP::Simple(b"pong".to_vec())), None);
}

#[test]
fn ping_request_frame() {
    assert_eq!(Cmd::new_ping_resp().to_bytes(), b"*1\r\n$4\r\nPING\r\n".to_vec());
}

#[test]
fn largest_numbers() {
    let max = u128::MAX.to_string();
    assert_eq!(
        Cmd::from(&request(&["set", "k", "v", "px", &max])),
        Some(Cmd::SetKey(b"k".to_vec(), b"v".to_vec(), u128::MAX))
    );
    let over = format!("{}0", max);
    assert_eq!(Cmd::from(&request(&["set", "k", "v", "px", &over])), None);
    let off = usize::MAX.to_string();
    let line = format!("fullresync id {}", off);
    assert_eq!(
        Cmd::from(&RESP::Simple(line.into_bytes())),
        Some(Cmd::FullReSync(b"id".to_vec(), usize::MAX))
    );
}
