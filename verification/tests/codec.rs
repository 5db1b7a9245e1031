//! Wire codec tests: bit-exact encodings, round trips through the decoder,
//! incompleteness on every strict prefix, and the malformation errors.

use keyval::protocol::resp::encoder::RespValue;
use keyval::protocol::resp::decoder::{parse_resp_one, ProtocolError};
use keyval::protocol::resp::parser::parse_resp_one as read_request;

fn enc(v: &RespValue) -> Vec<u8> {
    v.to_bytes()
}

fn decode_full(bytes: &[u8]) -> (RespValue, usize) {
    match parse_resp_one(bytes) {
        Ok(Some(pair)) => pair,
        other => panic!("expected a complete value, got {:?}", other),
    }
}

#[test]
fn encodings_are_bit_exact() {
    assert_eq!(enc(&RespValue::SimpleString(b"OK".to_vec())), b"+OK\r\n".to_vec());
    assert_eq!(enc(&RespValue::Error(b"ERR oops".to_vec())), b"-ERR oops\r\n".to_vec());
    assert_eq!(enc(&RespValue::Integer(42)), b":42\r\n".to_vec());
    assert_eq!(enc(&RespValue::Integer(-7)), b":-7\r\n".to_vec());
    assert_eq!(enc(&RespValue::Integer(0)), b":0\r\n".to_vec());
    assert_eq!(enc(&RespValue::Bulk(None)), b"$-1\r\n".to_vec());
    assert_eq!(enc(&RespValue::Bulk(Some(b"hello".to_vec()))), b"$5\r\nhello\r\n".to_vec());
    assert_eq!(enc(&RespValue::Bulk(Some(Vec::new()))), b"$0\r\n\r\n".to_vec());
    let arr = RespValue::Array(vec![
        RespValue::Bulk(Some(b"GET".to_vec())),
        RespValue::Bulk(Some(b"k".to_vec())),
    ]);
    assert_eq!(enc(&arr), b"*2\r\n$3\r\nGET\r\n$1\r\nk\r\n".to_vec());
    assert_eq!(enc(&RespValue::Array(Vec::new())), b"*0\r\n".to_vec());
}

#[test]
fn integer_extremes_round_trip() {
    for n in [i64::MIN, i64::MIN + 1, -1, 0, 1, i64::MAX - 1, i64::MAX] {
        let bytes = enc(&RespValue::Integer(n));
        let (v, used) = decode_full(&bytes);
        assert_eq!(used, bytes.len());
        match v {
            RespValue::Integer(m) => assert_eq!(m, n),
            other => panic!("expected integer, got {:?}", other),
        }
    }
}

#[test]
fn round_trip_every_variant() {
    let values = vec![
        RespValue::SimpleString(b"PONG".to_vec()),
        RespValue::Error(b"ERR unknown command".to_vec()),
        RespValue::Integer(123456789),
        RespValue::Bulk(None),
        RespValue::Bulk(Some(b"binary\x00safe\x01payload".to_vec())),
        RespValue::Array(vec![
            RespValue::Integer(1),
            RespValue::Bulk(Some(b"x".to_vec())),
            RespValue::Array(vec![RespValue::SimpleString(b"deep".to_vec())]),
            RespValue::Bulk(None),
        ]),
    ];
    for v in &values {
        let bytes = enc(v);
        let (back, used) = decode_full(&bytes);
        assert_eq!(used, bytes.len());
        assert_eq!(enc(&back), bytes);
    }
}

#[test]
fn round_trip_with_trailing_bytes_consumes_exactly_one_message() {
    let v = RespValue::Array(vec![
        RespValue::Bulk(Some(b"SET".to_vec())),
        RespValue::Bulk(Some(b"k".to_vec())),
        RespValue::Bulk(Some(b"v".to_vec())),
    ]);
    let mut bytes = enc(&v);
    let len = bytes.len();
    bytes.extend_from_slice(b":1\r\ngarbage");
    let (back, used) = decode_full(&bytes);
    assert_eq!(used, len);
    assert_eq!(enc(&back), enc(&v));
}

#[test]
fn every_strict_prefix_is_incomplete() {
    let values = vec![
        RespValue::SimpleString(b"OK".to_vec()),
        RespValue::Error(b"ERR x".to_vec()),
        RespValue::Integer(-1234),
        RespValue::Bulk(None),
        RespValue::Bulk(Some(b"hello world".to_vec())),
        RespValue::Array(vec![
            RespValue::Bulk(Some(b"INCR".to_vec())),
            RespValue::Bulk(Some(b"ctr".to_vec())),
            RespValue::Array(vec![RespValue::Integer(5)]),
        ]),
    ];
    for v in &values {
        let bytes = enc(v);
        for cut in 0..bytes.len() {
            match parse_resp_one(&bytes[..cut]) {
                Ok(None) => {},
                other => panic!("prefix of len {} decoded as {:?}", cut, other.is_ok()),
            }
        }
    }
}

#[test]
fn malformed_buffers_name_their_error() {
    assert!(matches!(parse_resp_one(b"?x\r\n"), Err(ProtocolError::UnknownPrefix)));
    assert!(matches!(parse_resp_one(b":abc\r\n"), Err(ProtocolError::BadInteger)));
    assert!(matches!(parse_resp_one(b":\r\n"), Err(ProtocolError::BadInteger)));
    assert!(matches!(parse_resp_one(b"$x\r\n"), Err(ProtocolError::BadBulkLength)));
    assert!(matches!(parse_resp_one(b"$-2\r\n"), Err(ProtocolError::NegativeBulkLength)));
    assert!(matches!(parse_resp_one(b"$3\r\nabcXY"), Err(ProtocolError::UnterminatedBulk)));
    assert!(matches!(parse_resp_one(b"*nope\r\n"), Err(ProtocolError::BadArrayLength)));
    assert!(matches!(parse_resp_one(b"*-1\r\n"), Err(ProtocolError::NegativeArrayLength)));
}

#[test]
fn nested_array_element_error_surfaces() {
    assert!(matches!(parse_resp_one(b"*2\r\n:1\r\n?\r\n"), Err(ProtocolError::UnknownPrefix)));
}

#[test]
fn request_reader_returns_arguments() {
    let frame = b"*3\r\n$3\r\nSET\r\n$1\r\nk\r\n$1\r\nv\r\n";
    match read_request(frame) {
        Ok(Some((args, used))) => {
            assert_eq!(used, frame.len());
            assert_eq!(args, vec![b"SET".to_vec(), b"k".to_vec(), b"v".to_vec()]);
        },
        other => panic!("expected complete request, got {:?}", other.is_ok()),
    }
}

#[test]
fn request_reader_incomplete_and_errors() {
    assert!(matches!(read_request(b"*2\r\n$3\r\nGE"), Ok(None)));
    assert!(matches!(read_request(b"*1\r\n"), Ok(None)));
    assert_eq!(read_request(b"+PING\r\n"), Err(ProtocolError::ExpectedArray));
    assert_eq!(read_request(b"*1\r\n:5\r\n"), Err(ProtocolError::ExpectedBulk));
    assert_eq!(read_request(b"*1\r\n$-2\r\n"), Err(ProtocolError::NegativeBulkLength));
    assert_eq!(read_request(b"*x\r\n"), Err(ProtocolError::BadArrayLength));
    assert_eq!(read_request(b"*-3\r\n"), Err(ProtocolError::BadArrayLength));
}

#[test]
fn request_reader_nil_bulk_is_empty_argument() {
    let frame = b"*2\r\n$4\r\nPING\r\n$-1\r\n";
    match read_request(frame) {
        Ok(Some((args, used))) => {
            assert_eq!(used, frame.len());
            assert_eq!(args, vec![b"PING".to_vec(), Vec::new()]);
        },
        other => panic!("expected complete request, got {:?}", other.is_ok()),
    }
}
