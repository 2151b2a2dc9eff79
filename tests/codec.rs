use std::collections::HashSet;
use cache::entity::Entity;
use cache::error::CacheError;

fn check(s: &str) {
    let buffer = s.as_bytes();
    let mut pos: usize = 0;
    Entity::check(buffer, &mut pos).unwrap();
}

fn parse_all(s: &[u8]) -> Entity {
    let mut pos: usize = 0;
    let e = Entity::parse(s, &mut pos).unwrap();
    assert_eq!(pos, s.len());
    e
}

#[test]
fn check_test() {
    check("+Hello\r\n");
    check("-ERROR\r\n");
    check(":1234\r\n");
    check("$-1\r\n");
    check("*1\r\n+Hello\r\n");
    check("$1\r\n1\r\n");
}

#[test]
#[should_panic]
fn check_test_failure() {
    check("+");
    check("-");
    check(":");
    check("$");
    check("*");
    check("$");
}

#[test]
fn parse_str() {
    match parse_all("+Hello\r\n".as_bytes()) {
        Entity::Simple(s) => assert_eq!(s, "Hello"),
        _ => panic!("invalid parsed type"),
    }
}

#[test]
fn parse_num() {
    match parse_all(":1234\r\n".as_bytes()) {
        Entity::Integer(s) => assert_eq!(s, 1234),
        _ => {}
    }
}

#[test]
fn parse_bulk() {
    match parse_all("$1\r\n1\r\n".as_bytes()) {
        Entity::Bulk(b) => {
            let mut iter = b.into_iter();
            assert_eq!(b'1', iter.next().unwrap());
        }
        _ => {}
    }
}

#[test]
fn parse_arr() {
    match parse_all("*1\r\n+Hello\r\n".as_bytes()) {
        Entity::Array(arr) => match arr.get(0).unwrap() {
            Entity::Simple(s) => assert_eq!(s, "Hello"),
            _ => {}
        },
        _ => {}
    }
}

#[test]
fn parse_nil() {
    match parse_all("$-1\r\n".as_bytes()) {
        Entity::Null => assert!(true),
        _ => panic!("invalid parsed type"),
    }
}

#[test]
fn display_test() {
    let array = vec![
        Entity::Simple("Hello".to_string()),
        Entity::Integer(10),
        Entity::Null,
        Entity::Error("ERROR".to_string()),
    ];
    let e = Entity::Array(array);
    assert_eq!(e.to_bytes(), b"*4\r\n+Hello\r\n:10\r\n$-1\r\n-ERROR\r\n".to_vec());
}

fn sample() -> Entity {
    let mut inner = Entity::array();
    inner.push_int(-42);
    inner.push_bulk(vec![0, 13, 10, 255]);
    let mut e = Entity::array();
    e.push(Entity::Simple("héllo".to_string()));
    e.push(Entity::Error("ERR bad".to_string()));
    e.push(Entity::Integer(i64::MIN));
    e.push(Entity::Integer(i64::MAX));
    e.push(Entity::Null);
    e.push(Entity::Bulk(vec![]));
    e.push(inner);
    e
}

#[test]
fn encode_exact_bytes() {
    assert_eq!(Entity::Integer(-7).to_bytes(), b":-7\r\n".to_vec());
    assert_eq!(Entity::Integer(0).to_bytes(), b":0\r\n".to_vec());
    assert_eq!(Entity::Bulk(b"value".to_vec()).to_bytes(), b"$5\r\nvalue\r\n".to_vec());
    assert_eq!(Entity::Null.to_bytes(), b"$-1\r\n".to_vec());
    assert_eq!(Entity::array().to_bytes(), b"*0\r\n".to_vec());
}

#[test]
fn round_trip_sample() {
    let e = sample();
    let bytes = e.to_bytes();
    let back = parse_all(&bytes);
    assert!(back.same(&e));
    assert_eq!(back.to_bytes(), bytes);
}

#[test]
fn round_trip_leaves_following_bytes() {
    let mut bytes = Entity::Simple("OK".to_string()).to_bytes();
    bytes.extend_from_slice(b":5\r\n");
    let mut pos: usize = 0;
    let e = Entity::parse(&bytes, &mut pos).unwrap();
    assert!(e.same(&Entity::Simple("OK".to_string())));
    assert_eq!(pos, 5);
    let e2 = Entity::parse(&bytes, &mut pos).unwrap();
    assert!(e2.same(&Entity::Integer(5)));
    assert_eq!(pos, bytes.len());
}

#[test]
fn every_cut_is_incomplete() {
    let bytes = sample().to_bytes();
    for k in 0..bytes.len() {
        let mut pos: usize = 0;
        assert!(matches!(Entity::check(&bytes[..k], &mut pos), Err(CacheError::Incomplete)));
        let mut pos: usize = 0;
        assert!(matches!(Entity::parse(&bytes[..k], &mut pos), Err(CacheError::Incomplete)));
    }
    let mut pos: usize = 0;
    assert!(Entity::check(&bytes, &mut pos).is_ok());
    assert_eq!(pos, bytes.len());
}

#[test]
fn invalid_frames() {
    for bad in [
        &b"?x\r\n"[..],
        b":12a\r\n",
        b":\r\n",
        b":-\r\n",
        b":9223372036854775808\r\n",
        b"$-2\r\n",
        b"$2\r\nabcd",
        b"*-1\r\n",
        b"+\xff\r\n",
    ] {
        let mut pos: usize = 0;
        assert!(matches!(Entity::check(bad, &mut pos), Err(CacheError::Other(_))), "{:?}", bad);
        let mut pos: usize = 0;
        assert!(matches!(Entity::parse(bad, &mut pos), Err(CacheError::Other(_))), "{:?}", bad);
    }
}

#[test]
fn integer_limits() {
    match parse_all(b":-9223372036854775808\r\n") {
        Entity::Integer(i) => assert_eq!(i, i64::MIN),
        _ => panic!("expected an integer"),
    }
    match parse_all(b":9223372036854775807\r\n") {
        Entity::Integer(i) => assert_eq!(i, i64::MAX),
        _ => panic!("expected an integer"),
    }
    let mut pos: usize = 0;
    assert!(Entity::parse(b":-9223372036854775809\r\n", &mut pos).is_err());
}

#[test]
fn byte_helpers() {
    let src = b"ab\r\ncd";
    let mut pos: usize = 0;
    assert_eq!(cache::entity::peek_u8(src, &pos).unwrap(), b'a');
    assert_eq!(cache::entity::get_u8(src, &mut pos).unwrap(), b'a');
    assert_eq!(pos, 1);
    let mut cur: usize = 0;
    assert_eq!(cache::entity::get_line(src, &mut cur).unwrap(), b"ab");
    assert_eq!(cur, 4);
    assert!(matches!(cache::entity::get_line(src, &mut cur), Err(CacheError::Incomplete)));
    assert!(cache::entity::skip(src, &mut cur, 2).is_ok());
    assert!(matches!(cache::entity::skip(src, &mut cur, 1), Err(CacheError::Incomplete)));
    assert!(matches!(cache::entity::get_u8(src, &mut cur), Err(CacheError::Incomplete)));
}

#[test]
fn error_messages() {
    assert_eq!(CacheError::EndOfStream.message(), "unexpected end of stream");
    assert_eq!(CacheError::Incomplete.message(), "stream ended early");
    assert_eq!(CacheError::other("boom").message(), "boom");
}

#[test]
fn display_text() {
    let array = vec![
        Entity::Simple("Hello".to_string()),
        Entity::Integer(10),
        Entity::Null,
        Entity::Error("ERROR".to_string()),
        Entity::Bulk(b"raw".to_vec()),
    ];
    assert_eq!(Entity::Array(array).display(), "Hello 10 (nil) error: ERROR raw");
    assert_eq!(Entity::Integer(-5).display(), "-5");
    assert_eq!(Entity::Bulk(vec![0xff]).display(), "b\"\\xff\"");
    assert_eq!(Entity::array().display(), "");
}

#[test]
fn compare_with_text() {
    assert!(Entity::Simple("abc".to_string()).eq_str("abc"));
    assert!(Entity::Bulk(b"abc".to_vec()).eq_str("abc"));
    assert!(!Entity::Bulk(b"abd".to_vec()).eq_str("abc"));
    assert!(!Entity::Integer(1).eq_str("1"));
}

#[test]
fn values_compare_structurally() {
    let a = Entity::Simple("x".to_string());
    assert_eq!(a.clone(), a);
    assert!(Entity::Simple("z".to_string()) < Entity::Bulk(vec![]));
    assert!(Entity::Integer(1) < Entity::Integer(2));
    assert!(Entity::Null < Entity::array());
    let mut set = HashSet::new();
    set.insert(Entity::Bulk(b"k".to_vec()));
    assert!(set.contains(&Entity::Bulk(b"k".to_vec())));
}

#[test]
fn display_escapes_bytes() {
    assert_eq!(Entity::Bulk(vec![b'\n', b'"', 0, 0xff, b'a']).display(), "b\"\\n\\\"\\0\\xffa\"");
}
