use cache::cmd::SetValue;
use cache::parse::Parse;
use cache::subscribe::{join, left_out};
use cache::cmd::{publish_reply, Action, Command};
use cache::entity::Entity;
use cache::error::CacheError;
use cache::listener::next_backoff;
use cache::storage::State;
use cache::subscribe::{handle_command, make_message_frame, make_subscribe_frame};

fn frame(bytes: &[u8]) -> Entity {
    let mut pos: usize = 0;
    Entity::check(bytes, &mut pos).unwrap();
    assert_eq!(pos, bytes.len());
    let mut pos: usize = 0;
    Entity::parse(bytes, &mut pos).unwrap()
}

/// Sends one request at `now` and returns the reply's wire form.
fn request(db: &mut State, bytes: &[u8], now: u64) -> Vec<u8> {
    let cmd = Command::from_frame(frame(bytes)).unwrap();
    match cmd.apply(db, now).0.unwrap() {
        Action::Reply(e) => e.to_bytes(),
        _ => panic!("expected a reply"),
    }
}

#[test]
fn key_value_get_set_del() {
    let mut db = State::new();
    assert_eq!(request(&mut db, b"*2\r\n$3\r\nGET\r\n$5\r\nhello\r\n", 0), b"$-1\r\n");
    assert_eq!(
        request(&mut db, b"*3\r\n$3\r\nSET\r\n$3\r\nkey\r\n$5\r\nvalue\r\n", 0),
        b"+OK\r\n"
    );
    let reply = request(&mut db, b"*2\r\n$3\r\nGET\r\n$3\r\nkey\r\n", 0);
    assert_eq!(reply.len(), 11);
    assert_eq!(reply, b"$5\r\nvalue\r\n");
    assert_eq!(request(&mut db, b"*2\r\n$3\r\nDEL\r\n$3\r\nkey\r\n", 0), b"+OK\r\n");
    assert_eq!(request(&mut db, b"*2\r\n$3\r\nGET\r\n$3\r\nkey\r\n", 0), b"$-1\r\n");
}

#[test]
fn key_value_timeout() {
    let mut db = State::new();
    assert_eq!(
        request(&mut db, b"*5\r\n$3\r\nSET\r\n$5\r\nhello\r\n$5\r\nworld\r\n+EX\r\n:1\r\n", 0),
        b"+OK\r\n"
    );
    let reply = request(&mut db, b"*2\r\n$3\r\nGET\r\n$5\r\nhello\r\n", 999);
    assert_eq!(reply.len(), 11);
    assert_eq!(reply, b"$5\r\nworld\r\n");
    assert_eq!(request(&mut db, b"*2\r\n$3\r\nGET\r\n$5\r\nhello\r\n", 1000), b"$-1\r\n");
}

#[test]
fn ping() {
    let mut db = State::new();
    assert_eq!(request(&mut db, b"*1\r\n+PING\r\n", 0), b"+PONG\r\n");
}

#[test]
fn ping_with_message() {
    let mut db = State::new();
    assert_eq!(request(&mut db, b"*2\r\n$4\r\nping\r\n$2\r\nhi\r\n", 0), b"$2\r\nhi\r\n");
}

#[test]
fn pub_sub() {
    let mut db = State::new();
    // nobody listens on "Hello"
    let cmd = Command::from_frame(frame(b"*3\r\n$7\r\nPUBLISH\r\n$5\r\nHello\r\n$5\r\nworld\r\n")).unwrap();
    match cmd.apply(&mut db, 0).0.unwrap() {
        Action::Publish(ch, m) => {
            assert_eq!(ch, "Hello");
            assert!(m.same(&Entity::Bulk(b"world".to_vec())));
            assert_eq!(publish_reply(None).to_bytes(), b":0\r\n");
        }
        _ => panic!("expected a publish"),
    }
    let cmd = Command::from_frame(frame(b"*2\r\n$9\r\nSUBSCRIBE\r\n$5\r\nhello\r\n")).unwrap();
    let channels = match cmd.apply(&mut db, 0).0.unwrap() {
        Action::Subscribe(chs) => chs,
        _ => panic!("expected a subscription"),
    };
    assert_eq!(channels, vec!["hello".to_string()]);
    let confirm = make_subscribe_frame(channels[0].clone(), 1).to_bytes();
    assert_eq!(confirm.len(), 34);
    assert_eq!(confirm, b"*3\r\n$9\r\nsubscribe\r\n$5\r\nhello\r\n:1\r\n");
    assert_eq!(publish_reply(Some(Some(1))).to_bytes(), b":1\r\n");
    let msg = make_message_frame("hello".to_string(), Entity::Bulk(b"world".to_vec())).to_bytes();
    assert_eq!(msg.len(), 39);
    assert_eq!(msg, b"*3\r\n$7\r\nmessage\r\n$5\r\nhello\r\n$5\r\nworld\r\n");
    let cmd = Command::from_frame(frame(b"*3\r\n$9\r\nSUBSCRIBE\r\n$5\r\nhello\r\n$3\r\nfoo\r\n")).unwrap();
    match cmd.apply(&mut db, 0).0.unwrap() {
        Action::Subscribe(chs) => {
            assert_eq!(chs, vec!["hello".to_string(), "foo".to_string()]);
            assert_eq!(
                make_subscribe_frame(chs[0].clone(), 1).to_bytes(),
                b"*3\r\n$9\r\nsubscribe\r\n$5\r\nhello\r\n:1\r\n"
            );
        }
        _ => panic!("expected a subscription"),
    }
}

#[test]
fn publish_without_sender_or_receiver_counts_none() {
    assert_eq!(publish_reply(None).to_bytes(), b":0\r\n");
    assert_eq!(publish_reply(Some(None)).to_bytes(), b":0\r\n");
    assert_eq!(publish_reply(Some(Some(3))).to_bytes(), b":3\r\n");
}

#[test]
fn del_twice_then_get() {
    let mut db = State::new();
    request(&mut db, b"*3\r\n$3\r\nSET\r\n$1\r\nk\r\n$1\r\nv\r\n", 0);
    assert_eq!(request(&mut db, b"*2\r\n$3\r\nDEL\r\n$1\r\nk\r\n", 0), b"+OK\r\n");
    assert_eq!(request(&mut db, b"*2\r\n$3\r\nDEL\r\n$1\r\nk\r\n", 0), b"+OK\r\n");
    assert_eq!(request(&mut db, b"*2\r\n$3\r\nGET\r\n$1\r\nk\r\n", 0), b"$-1\r\n");
}

#[test]
fn set_replaces_and_other_keys_stay() {
    let mut db = State::new();
    request(&mut db, b"*3\r\n$3\r\nSET\r\n$1\r\na\r\n$1\r\n1\r\n", 0);
    request(&mut db, b"*3\r\n$3\r\nSET\r\n$1\r\nb\r\n$1\r\n2\r\n", 0);
    request(&mut db, b"*2\r\n$3\r\nDEL\r\n$1\r\nb\r\n", 0);
    assert_eq!(request(&mut db, b"*2\r\n$3\r\nGET\r\n$1\r\na\r\n", u64::MAX), b"$1\r\n1\r\n");
    request(&mut db, b"*3\r\n$3\r\nSET\r\n$1\r\na\r\n$1\r\n3\r\n", 0);
    assert_eq!(request(&mut db, b"*2\r\n$3\r\nGET\r\n$1\r\na\r\n", 5), b"$1\r\n3\r\n");
}

#[test]
fn expiry_in_milliseconds_and_purge() {
    let mut db = State::new();
    request(&mut db, b"*5\r\n$3\r\nSET\r\n$1\r\nk\r\n$1\r\nv\r\n$2\r\npx\r\n:250\r\n", 1000);
    request(&mut db, b"*5\r\n$3\r\nSET\r\n$1\r\nj\r\n$1\r\nw\r\n$2\r\nex\r\n:1\r\n", 1000);
    assert_eq!(db.next_expiration(), Some(1250));
    assert_eq!(request(&mut db, b"*2\r\n$3\r\nGET\r\n$1\r\nk\r\n", 1249), b"$1\r\nv\r\n");
    assert_eq!(db.purge_expired_keys(1250), Some(2000));
    assert!(db.get(&Entity::Bulk(b"k".to_vec()), 0).is_none());
    assert!(db.get(&Entity::Bulk(b"j".to_vec()), 1999).is_some());
    assert_eq!(db.purge_expired_keys(5000), None);
    db.shutdown();
    assert!(db.is_shutdown());
    assert_eq!(db.purge_expired_keys(5000), None);
}

#[test]
fn set_notifies_only_for_an_earlier_deadline() {
    let mut db = State::new();
    assert!(!db.set(Entity::Bulk(b"a".to_vec()), Entity::Null, None, 0));
    assert!(db.set(Entity::Bulk(b"a".to_vec()), Entity::Null, Some(100), 0));
    assert!(!db.set(Entity::Bulk(b"b".to_vec()), Entity::Null, Some(200), 0));
    assert!(db.set(Entity::Bulk(b"c".to_vec()), Entity::Null, Some(50), 0));
}

#[test]
fn set_option_errors() {
    let r = Command::from_frame(frame(b"*4\r\n$3\r\nSET\r\n$1\r\nk\r\n$1\r\nv\r\n$2\r\nNX\r\n"));
    assert!(matches!(r, Err(CacheError::Other(_))));
    let r = Command::from_frame(frame(b"*4\r\n$3\r\nSET\r\n$1\r\nk\r\n$1\r\nv\r\n$2\r\nEX\r\n"));
    assert!(matches!(r, Err(CacheError::EndOfStream)));
    let r = Command::from_frame(frame(b"*1\r\n$3\r\nGET\r\n"));
    assert!(matches!(r, Err(CacheError::EndOfStream)));
    let r = Command::from_frame(frame(b"*3\r\n$3\r\nGET\r\n$1\r\na\r\n$1\r\nb\r\n"));
    assert!(matches!(r, Err(CacheError::Other(_))));
    let r = Command::from_frame(frame(b"+GET\r\n"));
    assert!(matches!(r, Err(CacheError::Other(_))));
}

#[test]
fn unknown_command() {
    let mut db = State::new();
    assert_eq!(
        request(&mut db, b"*1\r\n$5\r\nFLUSH\r\n", 0),
        b"-ERR unknown command 'flush'\r\n"
    );
}

#[test]
fn unsubscribe_outside_subscriber_mode() {
    let mut db = State::new();
    let cmd = Command::from_frame(frame(b"*1\r\n$11\r\nUNSUBSCRIBE\r\n")).unwrap();
    assert_eq!(cmd.get_name(), "unsubscribe");
    assert!(matches!(cmd.apply(&mut db, 0).0, Err(CacheError::Other(_))));
}

#[test]
fn subscriber_mode_commands() {
    let mut pending: Vec<String> = Vec::new();
    let mut subs: Vec<String> = vec!["a".to_string(), "b".to_string()];
    let replies = handle_command(frame(b"*2\r\n$9\r\nsubscribe\r\n$1\r\nc\r\n"), &mut pending, &mut subs).unwrap();
    assert!(replies.is_empty());
    assert_eq!(pending, vec!["c".to_string()]);
    let replies = handle_command(frame(b"*2\r\n$11\r\nunsubscribe\r\n$1\r\na\r\n"), &mut pending, &mut subs).unwrap();
    assert_eq!(subs, vec!["b".to_string()]);
    assert_eq!(replies[0].to_bytes(), b"*3\r\n$11\r\nunsubscribe\r\n$1\r\na\r\n:1\r\n");
    subs.push("d".to_string());
    let replies = handle_command(frame(b"*1\r\n$11\r\nunsubscribe\r\n"), &mut pending, &mut subs).unwrap();
    assert!(subs.is_empty());
    assert_eq!(replies.len(), 2);
    assert_eq!(replies[1].to_bytes(), b"*3\r\n$11\r\nunsubscribe\r\n$1\r\nd\r\n:0\r\n");
    let replies = handle_command(frame(b"*2\r\n$3\r\nget\r\n$1\r\nk\r\n"), &mut pending, &mut subs).unwrap();
    assert_eq!(replies[0].to_bytes(), b"-ERR unknown command 'get'\r\n");
}

#[test]
fn accept_backoff() {
    assert_eq!(next_backoff(1), Some(2));
    assert_eq!(next_backoff(64), Some(128));
    assert_eq!(next_backoff(128), None);
}

#[test]
fn set_unknown_option_message() {
    let r = Command::from_frame(frame(b"*4\r\n$3\r\nSET\r\n$1\r\nk\r\n$1\r\nv\r\n$7\r\nKEEPTTL\r\n"));
    match r {
        Err(CacheError::Other(m)) => assert_eq!(m, "currently `SET` only supports the expiration option"),
        _ => panic!("expected the option error"),
    }
}

#[test]
fn set_reads_every_argument() {
    let mut p = Parse::new(frame(b"*4\r\n$1\r\nk\r\n$1\r\nv\r\n$2\r\nEx\r\n:3\r\n")).unwrap();
    let c = SetValue::parse_frames(&mut p).unwrap();
    assert_eq!(c.expire, Some(3000));
    assert!(p.finish().is_ok());
    let mut p = Parse::new(frame(b"*5\r\n$1\r\nk\r\n$1\r\nv\r\n$2\r\nPX\r\n:3\r\n:4\r\n")).unwrap();
    assert!(matches!(SetValue::parse_frames(&mut p), Err(CacheError::Other(_))));
}

#[test]
fn expiry_from_upper_cased_option() {
    let mut p = Parse::new(frame(b"*1\r\n:7\r\n")).unwrap();
    assert_eq!(SetValue::expire_from_option(&"EX".to_string(), &mut p).unwrap(), 7000);
    let mut p = Parse::new(frame(b"*1\r\n:7\r\n")).unwrap();
    assert_eq!(SetValue::expire_from_option(&"PX".to_string(), &mut p).unwrap(), 7);
    let mut p = Parse::new(frame(b"*1\r\n:7\r\n")).unwrap();
    assert!(matches!(SetValue::expire_from_option(&"ex".to_string(), &mut p), Err(CacheError::Other(_))));
    let mut p = Parse::new(frame(b"*1\r\n:-1\r\n")).unwrap();
    assert!(matches!(SetValue::expire_from_option(&"EX".to_string(), &mut p), Err(CacheError::Other(_))));
    let mut p = Parse::new(frame(b"*0\r\n")).unwrap();
    assert!(matches!(SetValue::expire_from_option(&"PX".to_string(), &mut p), Err(CacheError::EndOfStream)));
}

#[test]
fn del_hands_back_the_value() {
    let mut db = State::new();
    let k = Entity::Bulk(b"k".to_vec());
    db.set(k.clone(), Entity::Integer(9), Some(10), 0);
    assert_eq!(db.del(&k), Some(Entity::Integer(9)));
    assert_eq!(db.del(&k), None);
    assert_eq!(db.next_expiration(), None);
}

#[test]
fn subscription_bookkeeping() {
    let mut names: Vec<String> = Vec::new();
    assert_eq!(join(&mut names, "a".to_string()), 1);
    assert_eq!(join(&mut names, "b".to_string()), 2);
    assert_eq!(join(&mut names, "a".to_string()), 2);
    let before = names.clone();
    names.remove(0);
    assert_eq!(left_out(&before, &names), vec!["a".to_string()]);
}
