use redis_starter_rust::frame::RESP;

fn bulk(s: &str) -> RESP {
    RESP::Bulk(s.as_bytes().to_vec())
}

#[test]
fn test_simple_string() {
    let src = b"+FULLRESYNC 75cd7bc10c49047e0d163660f3b90625b1af31dc 0\r\n";
    let (len, resp) = RESP::read_next_resp(src).unwrap();
    assert_eq!(len, 56);
    assert_eq!(
        resp,
        RESP::Simple(b"fullresync 75cd7bc10c49047e0d163660f3b90625b1af31dc 0".to_vec())
    );
}

#[test]
fn test_bulk_string() {
    let src = b"$6\r\nfoobar\r\n";
    let (len, resp) = RESP::read_next_resp(src).unwrap();
    assert_eq!(len, 12);
    assert_eq!(resp, bulk("foobar"));
}

#[test]
fn test_null_bulk_string() {
    let src = b"$-1\r\n";
    let (len, resp) = RESP::read_next_resp(src).unwrap();
    assert_eq!(len, 5);
    assert_eq!(resp, RESP::Null);
}

#[test]
fn test_array() {
    let src = b"*2\r\n$3\r\nfoo\r\n$3\r\nbar\r\n";
    let (len, resp) = RESP::read_next_resp(src).unwrap();
    assert_eq!(len, 22);
    assert_eq!(resp, RESP::Array(vec![bulk("foo"), bulk("bar")]));
}

#[test]
fn test_another_array() {
    let src = b"*4\r\n$5\r\napple\r\n$6\r\nbanana\r\n$2\r\npx\r\n$3\r\n123\r\n";
    let (_, resp) = RESP::read_next_resp(src).unwrap();
    assert_eq!(
        resp,
        RESP::Array(vec![bulk("apple"), bulk("banana"), bulk("px"), bulk("123")])
    )
}

#[test]
fn test_multiple_resp() {
    let mut i = 0;
    let mut seen = 0;
    let src = b"*4\r\n$5\r\napple\r\n$6\r\nbanana\r\n$2\r\npx\r\n$3\r\n123\r\n*4\r\n$5\r\napple\r\n$6\r\nbanana\r\n$2\r\npx\r\n$3\r\n123\r\n";
    while let Some((j, resp)) = RESP::read_next_resp(&src[i..]) {
        i += j;
        seen += 1;
        assert_eq!(
            resp,
            RESP::Array(vec![bulk("apple"), bulk("banana"), bulk("px"), bulk("123")])
        )
    }
    assert_eq!(seen, 2);
    assert_eq!(i, src.len());
}

#[test]
fn round_trip_of_lower_case_frames() {
    let frames = vec![
        RESP::Simple(b"ok".to_vec()),
        bulk("hello world"),
        bulk(""),
        RESP::Null,
        RESP::Array(vec![]),
        RESP::Array(vec![bulk("set"), bulk("k"), RESP::Array(vec![RESP::Null])]),
        bulk("with\r\ncrlf inside"),
    ];
    for f in frames {
        let bytes = f.to_bytes();
        let (n, back) = RESP::read_next_resp(&bytes).unwrap();
        assert_eq!(n, bytes.len());
        assert_eq!(back, f);
    }
}

#[test]
fn decoding_ignores_what_follows_a_frame() {
    let f = RESP::Array(vec![bulk("get"), bulk("foo")]);
    let mut bytes = f.to_bytes();
    let alone = RESP::read_next_resp(&bytes).unwrap();
    bytes.extend_from_slice(b"$99\r\ngarbage+-*");
    let followed = RESP::read_next_resp(&bytes).unwrap();
    assert_eq!(alone, followed);
    assert_eq!(followed.0, 22);
}

#[test]
fn decoding_lower_cases_payloads() {
    let (_, f) = RESP::read_next_resp(b"$5\r\nHeLLo\r\n").unwrap();
    assert_eq!(f, bulk("hello"));
    let (_, g) = RESP::read_next_resp(b"+PONG\r\n").unwrap();
    assert_eq!(g, RESP::Simple(b"pong".to_vec()));
}

#[test]
fn truncated_buffers_need_more() {
    let full = b"*2\r\n$3\r\nfoo\r\n$3\r\nbar\r\n";
    for cut in 0..full.len() {
        assert_eq!(RESP::read_next_resp(&full[..cut]), None, "cut at {}", cut);
    }
    assert_eq!(RESP::read_next_resp(b"+OK\r"), None);
    assert_eq!(RESP::read_next_resp(b"$3\r\nab"), None);
}

#[test]
fn unrecognised_or_malformed_frames_fail() {
    assert_eq!(RESP::read_next_resp(b":12\r\n"), None);
    assert_eq!(RESP::read_next_resp(b"$x\r\nabc\r\n"), None);
    assert_eq!(RESP::read_next_resp(b"$3\r\nabcde\r\n"), None);
    assert_eq!(RESP::read_next_resp(b"*a\r\n"), None);
    assert_eq!(RESP::read_next_resp(b"$-2\r\n"), None);
}

#[test]
fn wide_length_fields() {
    let (n, f) = RESP::read_next_resp(b"$0003\r\nabc\r\n").unwrap();
    assert_eq!(n, 12);
    assert_eq!(f, bulk("abc"));
    let (n, f) = RESP::read_next_resp(b"*0\r\n").unwrap();
    assert_eq!(n, 4);
    assert_eq!(f, RESP::Array(vec![]));
}

#[test]
fn encodings_of_every_kind() {
    assert_eq!(RESP::Integer(-42).to_bytes(), b":-42\r\n".to_vec());
    assert_eq!(RESP::Integer(i64::MIN).to_bytes(), b":-9223372036854775808\r\n".to_vec());
    assert_eq!(RESP::Simple(b"OK".to_vec()).to_bytes(), b"+OK\r\n".to_vec());
    assert_eq!(RESP::Error(b"ERR x".to_vec()).to_bytes(), b"-ERR x\r\n".to_vec());
    assert_eq!(bulk("hello").to_bytes(), b"$5\r\nhello\r\n".to_vec());
    assert_eq!(RESP::Null.to_bytes(), b"$-1\r\n".to_vec());
    assert_eq!(RESP::Boolean(true).to_bytes(), b":t\r\n".to_vec());
    assert_eq!(RESP::Boolean(false).to_bytes(), b":f\r\n".to_vec());
    assert_eq!(RESP::Double(b"1.5".to_vec()).to_bytes(), b":1.5\r\n".to_vec());
    assert_eq!(RESP::BigNumber(12345678901234567890123).to_bytes(), b":12345678901234567890123\r\n".to_vec());
    assert_eq!(RESP::Verbatim(b"txt".to_vec()).to_bytes(), b"+txt\r\n".to_vec());
    assert_eq!(
        RESP::Array(vec![bulk("a"), RESP::Integer(7)]).to_bytes(),
        b"*2\r\n$1\r\na\r\n:7\r\n".to_vec()
    );
}

#[test]
fn constructors_and_copies() {
    assert_eq!(RESP::new_bulk(b"x".to_vec()), bulk("x"));
    assert_eq!(RESP::new_simple(b"y".to_vec()), RESP::Simple(b"y".to_vec()));
    assert_eq!(RESP::new_null(), RESP::Null);
    let f = RESP::Array(vec![bulk("a"), RESP::Array(vec![RESP::Integer(1)])]);
    assert_eq!(f.duplicate(), f);
}

#[test]
fn oversized_length_fields_never_complete() {
    assert_eq!(RESP::read_next_resp(b"$99999999999999999999999999999999999999999\r\nab\r\n"), None);
    assert_eq!(RESP::read_next_resp(b"*99999999999999999999999999999999999999999\r\n$1\r\na\r\n"), None);
    assert_eq!(RESP::read_next_resp(b"*3\r\n$1\r\na\r\n"), None);
}
