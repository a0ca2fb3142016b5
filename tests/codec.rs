use resp_server::decode::{
    extract_to_separator_from_stream, parse_arrays, parse_bulk_string, parse_error, parse_integers,
    parse_resp, parse_simple_string, DecodeError,
};
use resp_server::encode::encode;
use resp_server::number::{parse_i64, NumberError};
use resp_server::value::RespValue;

fn bulk(s: &[u8]) -> RespValue {
    RespValue::BulkString(Some(s.to_vec()))
}

fn error_text(v: &RespValue) -> String {
    match v {
        RespValue::Error(t) => String::from_utf8(t.clone()).unwrap(),
        other => panic!("not an error value: {:?}", other),
    }
}

#[test]
fn parse_plain_and_signed_numbers() {
    assert_eq!(parse_i64(b"0"), Ok(0));
    assert_eq!(parse_i64(b"42"), Ok(42));
    assert_eq!(parse_i64(b"+7"), Ok(7));
    assert_eq!(parse_i64(b"-15"), Ok(-15));
    assert_eq!(parse_i64(b"9223372036854775807"), Ok(i64::MAX));
    assert_eq!(parse_i64(b"-9223372036854775808"), Ok(i64::MIN));
}

#[test]
fn parse_number_errors() {
    assert_eq!(parse_i64(b""), Err(NumberError::Empty));
    assert_eq!(parse_i64(b"-"), Err(NumberError::InvalidDigit));
    assert_eq!(parse_i64(b"12a"), Err(NumberError::InvalidDigit));
    assert_eq!(parse_i64(b"9223372036854775808"), Err(NumberError::TooLarge));
    assert_eq!(parse_i64(b"-9223372036854775809"), Err(NumberError::TooSmall));
}

#[test]
fn encode_each_kind() {
    assert_eq!(encode(&RespValue::SimpleString(b"OK".to_vec())), b"+OK\r\n".to_vec());
    assert_eq!(encode(&RespValue::Error(b"ERR x".to_vec())), b"-ERR x\r\n".to_vec());
    assert_eq!(encode(&RespValue::Integer(-12)), b":-12\r\n".to_vec());
    assert_eq!(encode(&RespValue::Integer(i64::MIN)), b":-9223372036854775808\r\n".to_vec());
    assert_eq!(encode(&RespValue::BulkString(None)), b"$-1\r\n".to_vec());
    assert_eq!(encode(&bulk(b"hello")), b"$5\r\nhello\r\n".to_vec());
    assert_eq!(encode(&bulk(b"")), b"$0\r\n\r\n".to_vec());
    assert_eq!(encode(&RespValue::Array(None)), b"*-1\r\n".to_vec());
    let arr = RespValue::Array(Some(vec![bulk(b"GET"), RespValue::Integer(3)]));
    assert_eq!(encode(&arr), b"*2\r\n$3\r\nGET\r\n:3\r\n".to_vec());
}

#[test]
fn decode_each_kind() {
    assert_eq!(parse_resp(b"+OK\r\n", 0, true), Ok((RespValue::SimpleString(b"OK".to_vec()), 5)));
    assert_eq!(parse_resp(b"-ERR bad\r\n", 0, true), Ok((RespValue::Error(b"ERR bad".to_vec()), 10)));
    assert_eq!(parse_resp(b":-5\r\n", 0, true), Ok((RespValue::Integer(-5), 5)));
    assert_eq!(parse_resp(b"$-1\r\n", 0, true), Ok((RespValue::BulkString(None), 5)));
    assert_eq!(parse_resp(b"$3\r\nfoo\r\n", 0, true), Ok((bulk(b"foo"), 9)));
    assert_eq!(parse_resp(b"*-1\r\n", 0, true), Ok((RespValue::Array(None), 5)));
    assert_eq!(parse_resp(b"*0\r\n", 0, true), Ok((RespValue::Array(Some(vec![])), 4)));
}

#[test]
fn decode_nested_array() {
    let input = b"*2\r\n*1\r\n:1\r\n$2\r\nab\r\n";
    let expected = RespValue::Array(Some(vec![
        RespValue::Array(Some(vec![RespValue::Integer(1)])),
        bulk(b"ab"),
    ]));
    assert_eq!(parse_resp(input, 0, true), Ok((expected, input.len())));
}

#[test]
fn decode_takes_only_one_value() {
    let input = b"+A\r\n+B\r\n";
    assert_eq!(parse_resp(input, 0, false), Ok((RespValue::SimpleString(b"A".to_vec()), 4)));
    assert_eq!(parse_resp(input, 4, false), Ok((RespValue::SimpleString(b"B".to_vec()), 8)));
    assert_eq!(parse_resp(input, 8, false), Err(DecodeError::Incomplete));
    assert_eq!(parse_resp(input, 8, true), Err(DecodeError::EndOfInput));
}

#[test]
fn decode_fatal_conditions() {
    assert_eq!(parse_resp(b"", 0, true), Err(DecodeError::EndOfInput));
    assert_eq!(parse_resp(b"", 0, false), Err(DecodeError::Incomplete));
    assert_eq!(parse_resp(b"?x\r\n", 0, true), Err(DecodeError::UnknownTag(b'?')));
}

#[test]
fn decode_incomplete_until_the_stream_ends() {
    assert_eq!(parse_resp(b"+PON", 0, false), Err(DecodeError::Incomplete));
    assert_eq!(parse_resp(b"+PON", 0, true), Ok((RespValue::SimpleString(b"PON".to_vec()), 4)));
    assert_eq!(parse_resp(b"$5\r\nab", 0, false), Err(DecodeError::Incomplete));
    assert_eq!(parse_resp(b"*2\r\n:1\r\n", 0, false), Err(DecodeError::Incomplete));
    assert_eq!(parse_resp(b"*2\r\n:1\r\n", 0, true), Err(DecodeError::EndOfInput));
}

#[test]
fn line_keeps_lone_carriage_return() {
    assert_eq!(parse_resp(b"+a\rb\r\n", 0, true), Ok((RespValue::SimpleString(b"a\rb".to_vec()), 6)));
    assert_eq!(parse_resp(b"+a\nb\r\n", 0, true), Ok((RespValue::SimpleString(b"a\nb".to_vec()), 6)));
}

#[test]
fn malformed_integer_is_an_error_value() {
    let (v, n) = parse_resp(b":12x\r\n", 0, true).unwrap();
    assert_eq!(n, 6);
    assert_eq!(error_text(&v), "invalid digit found in string");
    let (v, _) = parse_resp(b":\r\n", 0, true).unwrap();
    assert_eq!(error_text(&v), "cannot parse integer from empty string");
    let (v, _) = parse_resp(b":99999999999999999999\r\n", 0, true).unwrap();
    assert_eq!(error_text(&v), "number too large to fit in target type");
}

#[test]
fn bulk_length_mismatch_is_an_error_value() {
    let (v, n) = parse_resp(b"$3\r\nab\r\n", 0, true).unwrap();
    assert_eq!(error_text(&v), "Size mismatch for bulk string: n=3, string=ab");
    assert_eq!(n, 8);
    let (v, n) = parse_resp(b"$1\r\nabc\r\n", 0, true).unwrap();
    assert_eq!(error_text(&v), "Size mismatch for bulk string: n=1, string=abc");
    assert_eq!(n, 9);
}

#[test]
fn bulk_negative_length_other_than_minus_one() {
    let (v, n) = parse_resp(b"$-2\r\n", 0, true).unwrap();
    assert_eq!(error_text(&v), "invalid bulk string length");
    assert_eq!(n, 5);
}

#[test]
fn array_count_out_of_range_is_an_error_value() {
    let (v, n) = parse_resp(b"*128\r\n", 0, true).unwrap();
    assert_eq!(error_text(&v), "number too large to fit in target type");
    assert_eq!(n, 6);
    let (v, _) = parse_resp(b"*-129\r\n", 0, true).unwrap();
    assert_eq!(error_text(&v), "number too small to fit in target type");
    assert_eq!(parse_resp(b"*-5\r\n", 0, true), Ok((RespValue::Array(None), 5)));
}

#[test]
fn round_trip_of_values() {
    let values = vec![
        RespValue::SimpleString(b"hello world".to_vec()),
        RespValue::Error(b"ERR unknown".to_vec()),
        RespValue::Integer(i64::MAX),
        RespValue::Integer(i64::MIN),
        RespValue::BulkString(None),
        bulk(b"x"),
        RespValue::Array(None),
        RespValue::Array(Some(vec![
            bulk(b"SET"),
            RespValue::Array(Some(vec![RespValue::Integer(0), RespValue::BulkString(None)])),
            RespValue::SimpleString(b"".to_vec()),
        ])),
    ];
    for v in values {
        let bytes = encode(&v);
        let (back, n) = parse_resp(&bytes, 0, true).unwrap();
        assert_eq!(back, v);
        assert_eq!(n, bytes.len());
        let mut more = bytes.clone();
        more.extend_from_slice(b"+next\r\n");
        assert_eq!(parse_resp(&more, 0, false), Ok((v, bytes.len())));
    }
}

#[test]
fn bulk_round_trip_is_binary_safe() {
    let payload: Vec<u8> = vec![b'\r', b'\n', b'$', b'*', 0, 255, b'\r', b'\r', b'\n', b'+'];
    let v = bulk(&payload);
    let bytes = encode(&v);
    assert_eq!(bytes.len(), 1 + 2 + 2 + payload.len() + 2);
    assert_eq!(parse_resp(&bytes, 0, true), Ok((v, bytes.len())));
}

#[test]
fn line_reading() {
    assert_eq!(extract_to_separator_from_stream(b"ab\r\ncd", 0), (b"ab".to_vec(), 4, true));
    assert_eq!(extract_to_separator_from_stream(b"ab\r\ncd", 4), (b"cd".to_vec(), 6, false));
    assert_eq!(extract_to_separator_from_stream(b"a\rxb\r\n", 0), (b"a\rxb".to_vec(), 6, true));
    assert_eq!(extract_to_separator_from_stream(b"ab\r", 0), (b"ab\r".to_vec(), 3, false));
    assert_eq!(extract_to_separator_from_stream(b"", 0), (Vec::new(), 0, false));
}

#[test]
fn parsers_after_the_tag() {
    assert_eq!(parse_simple_string(b"+hi\r\n", 1, true), Ok((RespValue::SimpleString(b"hi".to_vec()), 5)));
    assert_eq!(parse_error(b"-no\r\n", 1, true), Ok((RespValue::Error(b"no".to_vec()), 5)));
    assert_eq!(parse_integers(b":10\r\n", 1, true), Ok((RespValue::Integer(10), 5)));
    assert_eq!(parse_bulk_string(b"$1\r\nz\r\n", 1, true), Ok((bulk(b"z"), 7)));
    assert_eq!(
        parse_arrays(b"*1\r\n+a\r\n", 1, true),
        Ok((RespValue::Array(Some(vec![RespValue::SimpleString(b"a".to_vec())])), 8))
    );
    assert_eq!(parse_simple_string(b"+hi", 1, false), Err(DecodeError::Incomplete));
}
