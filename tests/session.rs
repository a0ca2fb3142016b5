use resp_server::session::serve;
use resp_server::store::Store;

#[test]
fn ping_scenario() {
    let mut store = Store::new();
    let r = serve(&mut store, b"*1\r\n$4\r\nPING\r\n", false);
    assert_eq!(r.output, b"+PONG\r\n".to_vec());
    assert_eq!(r.consumed, 14);
    assert!(r.open);
}

#[test]
fn set_then_get_scenario() {
    let mut store = Store::new();
    let r = serve(&mut store, b"*3\r\n$3\r\nSET\r\n$3\r\nfoo\r\n$3\r\nbar\r\n", false);
    assert_eq!(r.output, b"$2\r\nOK\r\n".to_vec());
    assert!(r.open);
    let r = serve(&mut store, b"*2\r\n$3\r\nGET\r\n$3\r\nfoo\r\n", false);
    assert_eq!(r.output, b"$3\r\nbar\r\n".to_vec());
    assert!(r.open);
}

#[test]
fn get_missing_scenario() {
    let mut store = Store::new();
    let r = serve(&mut store, b"*2\r\n$3\r\nGET\r\n$7\r\nmissing\r\n", false);
    assert_eq!(r.output, b"$-1\r\n".to_vec());
    assert!(r.open);
}

#[test]
fn malformed_bulk_length_scenario() {
    let mut store = Store::new();
    let input = b"$3\r\nab\r\n*1\r\n$4\r\nPING\r\n";
    let r = serve(&mut store, input, false);
    assert_eq!(
        r.output,
        b"-Size mismatch for bulk string: n=3, string=ab\r\n+PONG\r\n".to_vec()
    );
    assert_eq!(r.consumed, input.len());
    assert!(r.open);
}

#[test]
fn malformed_bulk_length_at_end_of_stream() {
    let mut store = Store::new();
    let r = serve(&mut store, b"$3\r\nab\r\n", true);
    assert_eq!(r.output, b"-Size mismatch for bulk string: n=3, string=ab\r\n".to_vec());
    assert_eq!(r.consumed, 8);
    assert!(!r.open);
}

#[test]
fn partial_request_waits() {
    let mut store = Store::new();
    let r = serve(&mut store, b"*1\r\n$4\r\nPI", false);
    assert!(r.output.is_empty());
    assert_eq!(r.consumed, 0);
    assert!(r.open);
}

#[test]
fn pipelined_requests_in_order() {
    let mut store = Store::new();
    let r = serve(&mut store, b"+PING\r\n*2\r\n$4\r\nECHO\r\n$2\r\nhi\r\n", true);
    assert_eq!(r.output, b"+PONG\r\n$2\r\nhi\r\n".to_vec());
    assert!(!r.open);
}

#[test]
fn unknown_tag_closes_the_connection() {
    let mut store = Store::new();
    let r = serve(&mut store, b"+PING\r\n!oops\r\n+PING\r\n", false);
    assert_eq!(r.output, b"+PONG\r\n".to_vec());
    assert_eq!(r.consumed, 7);
    assert!(!r.open);
}

#[test]
fn unknown_command_closes_the_connection() {
    let mut store = Store::new();
    let r = serve(&mut store, b"*1\r\n$4\r\nNOPE\r\n+PING\r\n", false);
    assert!(r.output.is_empty());
    assert_eq!(r.consumed, 14);
    assert!(!r.open);
}
