use redis_starter_rust::cmd::NEVER;
use redis_starter_rust::frame::RESP;
use redis_starter_rust::store::{hash, new_sharded_db, Shard};

fn bulk(s: &str) -> RESP {
    RESP::Bulk(s.as_bytes().to_vec())
}

#[test]
fn hash_values() {
    assert_eq!(hash(b""), 0);
    assert_eq!(hash(b"a"), 97);
    assert_eq!(hash(b"ab"), 97 * 26 + 98);
    assert_eq!(hash("\u{e9}".as_bytes()), 233);
    assert_eq!(hash("a\u{e9}".as_bytes()), 97 * 26 + 233);
    assert_eq!(hash("\u{20ac}".as_bytes()), 0x20ac);
    assert_eq!(hash("\u{1f600}".as_bytes()), 0x1f600);
    assert_eq!(hash(&[0xff]), 0xfffd);
    assert_eq!(hash(&[0xe2, 0x82]), 0xfffd);
    assert_eq!(hash(&[0xe2, 0x82, b'a']), (0xfffd * 26 + 97) % 1_000_000_007);
    assert_eq!(hash(&[0xed, 0xa0, 0x80]), ((0xfffd * 26 + 0xfffd) * 26 + 0xfffd) % 1_000_000_007);
    let long = vec![b'z'; 64];
    let mut expected: u64 = 0;
    for c in &long {
        expected = (expected * 26 + *c as u64) % 1_000_000_007;
    }
    assert_eq!(hash(&long) as u64, expected);
    let text = "h\u{e9}llo w\u{f6}rld \u{4e16}\u{754c} \u{1f600}";
    let by_chars = text.chars().fold(0u64, |acc, c| (acc * 26 + c as u64) % 1_000_000_007);
    assert_eq!(hash(text.as_bytes()) as u64, by_chars);
    let lossy = String::from_utf8_lossy(&[b'x', 0xc3, 0xff, 0xf0, 0x9f, 0x98, b'y', 0x80]);
    let by_lossy = lossy.chars().fold(0u64, |acc, c| (acc * 26 + c as u64) % 1_000_000_007);
    assert_eq!(hash(&[b'x', 0xc3, 0xff, 0xf0, 0x9f, 0x98, b'y', 0x80]) as u64, by_lossy);
}

#[test]
fn put_then_get_before_and_after_expiry() {
    let mut db = new_sharded_db(32);
    assert_eq!(db.num_shards(), 32);
    db.put(b"k".to_vec(), bulk("v"), 1000);
    assert_eq!(db.get(b"k", 999), Some(bulk("v")));
    assert_eq!(db.get(b"k", 1000), None);
    // The expired entry is gone: even an earlier clock no longer sees it.
    assert_eq!(db.get(b"k", 10), None);
}

#[test]
fn put_overwrites() {
    let mut db = new_sharded_db(4);
    db.put(b"k".to_vec(), bulk("one"), NEVER);
    db.put(b"k".to_vec(), bulk("two"), NEVER);
    assert_eq!(db.get(b"k", 5), Some(bulk("two")));
    assert_eq!(db.get(b"missing", 5), None);
}

#[test]
fn repeated_set_then_get() {
    let mut db = new_sharded_db(1);
    for _ in 0..5 {
        db.put(b"k".to_vec(), bulk("v"), NEVER);
    }
    assert_eq!(db.get(b"k", 123456789), Some(bulk("v")));
}

#[test]
fn many_keys_across_shards() {
    let mut db = new_sharded_db(8);
    for i in 0..100u32 {
        db.put(format!("key{}", i).into_bytes(), bulk(&i.to_string()), NEVER);
    }
    for i in 0..100u32 {
        assert_eq!(db.get(format!("key{}", i).as_bytes(), 0), Some(bulk(&i.to_string())));
    }
}

#[test]
fn single_shard() {
    let mut s = Shard::new();
    s.put(b"a".to_vec(), bulk("1"), 50);
    s.put(b"b".to_vec(), bulk("2"), NEVER);
    assert_eq!(s.get(b"a", 49), Some(bulk("1")));
    assert_eq!(s.get(b"a", 50), None);
    assert_eq!(s.get(b"b", 50), Some(bulk("2")));
}

#[test]
fn never_expires_at_any_clock() {
    let mut db = new_sharded_db(2);
    db.put(b"k".to_vec(), bulk("v"), NEVER);
    assert_eq!(db.get(b"k", u128::MAX), Some(bulk("v")));
    db.put(b"j".to_vec(), bulk("w"), u128::MAX - 1);
    assert_eq!(db.get(b"j", u128::MAX), None);
}
