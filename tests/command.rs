use opal::command::{Del, SetCommand, Utf8Bytes};
use opal::engine::{Config, Engine};
use opal::frame::Frame;

#[test]
fn del_counts_live_keys() {
    let mut e = Engine::new(Config::new());
    e.set(b"a", b"1", 1).unwrap();
    e.set(b"b", b"2", 2).unwrap();
    let keys = vec![
        Utf8Bytes::from_str("a"),
        Utf8Bytes::from_str("missing"),
        Utf8Bytes::from_str("b"),
        Utf8Bytes::from_str("a"),
    ];
    match Del::new(keys).apply(&mut e, 3) {
        Ok(Frame::Integer(n)) => assert_eq!(n, 2),
        _ => panic!("expected an integer reply"),
    }
    assert_eq!(e.get(b"a"), None);
    assert_eq!(e.get(b"b"), None);
}

#[test]
fn set_command_replies_ok() {
    let mut e = Engine::new(Config::new());
    let cmd = SetCommand::new(Utf8Bytes::from_str("k"), b"v".to_vec());
    match cmd.apply(&mut e, 1) {
        Ok(Frame::SimpleString(s)) => assert_eq!(s, "OK"),
        _ => panic!("expected +OK"),
    }
    assert_eq!(e.get(b"k"), Some(b"v".to_vec()));
    let empty = SetCommand::new(Utf8Bytes::from_str(""), b"v".to_vec());
    assert!(empty.apply(&mut e, 2).is_err());
}

#[test]
fn command_frames() {
    let cmd = SetCommand::new(Utf8Bytes::from_str("k"), b"v".to_vec());
    match cmd.into_frame() {
        Frame::Array(items) => {
            assert_eq!(items.len(), 3);
            assert!(matches!(&items[0], Frame::BulkString(b) if b == b"SET"));
            assert!(matches!(&items[1], Frame::BulkString(b) if b == b"k"));
            assert!(matches!(&items[2], Frame::BulkString(b) if b == b"v"));
        }
        _ => panic!("expected an array"),
    }
    let del = Del::new(vec![Utf8Bytes::from_str("x"), Utf8Bytes::from_str("yz")]);
    match del.into_frame() {
        Frame::Array(items) => {
            assert_eq!(items.len(), 3);
            assert!(matches!(&items[0], Frame::BulkString(b) if b == b"DEL"));
            assert!(matches!(&items[1], Frame::BulkString(b) if b == b"x"));
            assert!(matches!(&items[2], Frame::BulkString(b) if b == b"yz"));
        }
        _ => panic!("expected an array"),
    }
}

#[test]
fn del_stops_at_first_refused_deletion() {
    let mut e = Engine::new(Config::new());
    e.set(b"a", b"1", 1).unwrap();
    e.set(b"b", b"2", u64::MAX).unwrap();
    let keys = vec![Utf8Bytes::from_str("missing"), Utf8Bytes::from_str("b"), Utf8Bytes::from_str("a")];
    match Del::new(keys).apply(&mut e, 3) {
        Err(err) => assert_eq!(err, opal::engine::EngineError::ClockExhausted),
        Ok(_) => panic!("expected the clock to be exhausted"),
    }
    assert_eq!(e.get(b"a"), Some(b"1".to_vec()));
    assert_eq!(e.get(b"b"), Some(b"2".to_vec()));
}
