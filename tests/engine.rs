use resp_server::engine::{apply, commands_of, execute, Command, CommandError};
use resp_server::store::Store;
use resp_server::value::RespValue;

fn bulk(s: &[u8]) -> RespValue {
    RespValue::BulkString(Some(s.to_vec()))
}

fn request(parts: &[&[u8]]) -> RespValue {
    RespValue::Array(Some(parts.iter().map(|p| bulk(p)).collect()))
}

#[test]
fn store_get_and_set() {
    let mut store = Store::new();
    assert_eq!(store.get(b"k"), None);
    store.set(b"k".to_vec(), b"v1".to_vec());
    assert_eq!(store.get(b"k"), Some(b"v1".to_vec()));
    store.set(b"k".to_vec(), b"v2".to_vec());
    assert_eq!(store.get(b"k"), Some(b"v2".to_vec()));
    store.set(b"other".to_vec(), b"".to_vec());
    assert_eq!(store.get(b"other"), Some(b"".to_vec()));
    assert_eq!(store.get(b"k"), Some(b"v2".to_vec()));
}

#[test]
fn ping_replies_pong() {
    let mut store = Store::new();
    let (replies, err) = execute(&mut store, request(&[b"PING"]));
    assert_eq!(replies, vec![RespValue::SimpleString(b"PONG".to_vec())]);
    assert_eq!(err, None);
}

#[test]
fn echo_replies_with_its_argument() {
    let mut store = Store::new();
    let (replies, err) = execute(&mut store, request(&[b"ECHO", b"hey there"]));
    assert_eq!(replies, vec![bulk(b"hey there")]);
    assert_eq!(err, None);
    let simple = RespValue::Array(Some(vec![bulk(b"echo"), RespValue::SimpleString(b"hi".to_vec())]));
    let (replies, _) = execute(&mut store, simple);
    assert_eq!(replies, vec![RespValue::SimpleString(b"hi".to_vec())]);
}

#[test]
fn names_ignore_case() {
    let mut store = Store::new();
    let (replies, err) = execute(&mut store, request(&[b"pInG"]));
    assert_eq!(replies, vec![RespValue::SimpleString(b"PONG".to_vec())]);
    assert_eq!(err, None);
}

#[test]
fn set_then_get_same_key() {
    let mut store = Store::new();
    let (replies, err) = execute(&mut store, request(&[b"SET", b"foo", b"bar"]));
    assert_eq!(replies, vec![bulk(b"OK")]);
    assert_eq!(err, None);
    let (replies, err) = execute(&mut store, request(&[b"GET", b"foo"]));
    assert_eq!(replies, vec![bulk(b"bar")]);
    assert_eq!(err, None);
}

#[test]
fn get_missing_key_is_absent() {
    let mut store = Store::new();
    let (replies, err) = execute(&mut store, request(&[b"GET", b"missing"]));
    assert_eq!(replies, vec![RespValue::BulkString(None)]);
    assert_eq!(err, None);
}

#[test]
fn writes_to_one_key_leave_one_of_the_values() {
    let mut store = Store::new();
    let written: Vec<&[u8]> = vec![b"a", b"bb", b"ccc", b"dddd"];
    for v in &written {
        execute(&mut store, request(&[b"SET", b"key", v]));
    }
    let (replies, _) = execute(&mut store, request(&[b"GET", b"key"]));
    assert_eq!(replies, vec![bulk(b"dddd")]);
    assert!(written.iter().any(|w| replies[0] == bulk(w)));
}

#[test]
fn several_commands_in_one_array() {
    let mut store = Store::new();
    let (replies, err) = execute(&mut store, request(&[b"SET", b"a", b"1", b"GET", b"a", b"PING"]));
    assert_eq!(replies, vec![bulk(b"OK"), bulk(b"1"), RespValue::SimpleString(b"PONG".to_vec())]);
    assert_eq!(err, None);
}

#[test]
fn inline_command() {
    let mut store = Store::new();
    let (replies, err) = execute(&mut store, RespValue::SimpleString(b"PING".to_vec()));
    assert_eq!(replies, vec![RespValue::SimpleString(b"PONG".to_vec())]);
    assert_eq!(err, None);
    let (replies, err) = execute(&mut store, bulk(b"ping"));
    assert_eq!(replies, vec![RespValue::SimpleString(b"PONG".to_vec())]);
    assert_eq!(err, None);
}

#[test]
fn error_value_is_answered_with_itself() {
    let mut store = Store::new();
    let (replies, err) = execute(&mut store, RespValue::Error(b"bad length".to_vec()));
    assert_eq!(replies, vec![RespValue::Error(b"bad length".to_vec())]);
    assert_eq!(err, None);
}

#[test]
fn unknown_command_stops_the_request() {
    let mut store = Store::new();
    let (replies, err) = execute(&mut store, request(&[b"PING", b"FLUSHALL"]));
    assert_eq!(replies, vec![RespValue::SimpleString(b"PONG".to_vec())]);
    assert_eq!(err, Some(CommandError::UnknownCommand));
}

#[test]
fn missing_argument_stops_the_request() {
    let mut store = Store::new();
    let (replies, err) = execute(&mut store, request(&[b"SET", b"k"]));
    assert!(replies.is_empty());
    assert_eq!(err, Some(CommandError::MissingArgument));
    assert_eq!(store.get(b"k"), None);
    let (_, err) = execute(&mut store, request(&[b"GET"]));
    assert_eq!(err, Some(CommandError::MissingArgument));
}

#[test]
fn bad_argument_stops_the_request() {
    let mut store = Store::new();
    let v = RespValue::Array(Some(vec![bulk(b"GET"), RespValue::Integer(1)]));
    let (replies, err) = execute(&mut store, v);
    assert!(replies.is_empty());
    assert_eq!(err, Some(CommandError::BadArgument));
    let v = RespValue::Array(Some(vec![bulk(b"ECHO"), RespValue::BulkString(None)]));
    let (_, err) = execute(&mut store, v);
    assert_eq!(err, Some(CommandError::BadArgument));
}

#[test]
fn non_text_name_is_not_a_command() {
    let mut store = Store::new();
    let (_, err) = execute(&mut store, RespValue::Integer(5));
    assert_eq!(err, Some(CommandError::NotACommand));
    let (_, err) = execute(&mut store, RespValue::Array(None));
    assert_eq!(err, Some(CommandError::NotACommand));
    let (_, err) = execute(&mut store, RespValue::Array(Some(vec![RespValue::Integer(1)])));
    assert_eq!(err, Some(CommandError::NotACommand));
}

#[test]
fn commands_then_apply_one_by_one() {
    let mut store = Store::new();
    let (cmds, err) = commands_of(request(&[b"SET", b"x", b"y", b"GET", b"x"]));
    assert_eq!(err, None);
    assert_eq!(cmds.len(), 2);
    let mut replies = Vec::new();
    for c in cmds {
        replies.push(apply(&mut store, c));
    }
    assert_eq!(replies, vec![bulk(b"OK"), bulk(b"y")]);
    let r = apply(&mut store, Command::GetKey(b"nope".to_vec()));
    assert_eq!(r, RespValue::BulkString(None));
}
