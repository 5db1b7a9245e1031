//! Client helper tests: command encoding, the interactive argument
//! splitter, and the reply counter the load generator uses.

use keyval::client::{encode_cmd, resp_bulk, resp_array, split_args, count_replies, SplitError};

fn owned(parts: &[&[u8]]) -> Vec<Vec<u8>> {
    parts.iter().map(|p| p.to_vec()).collect()
}

#[test]
fn encode_cmd_builds_the_wire_frame() {
    let frame = encode_cmd(&owned(&[b"SET", b"key", b"value"]));
    assert_eq!(frame, b"*3\r\n$3\r\nSET\r\n$3\r\nkey\r\n$5\r\nvalue\r\n".to_vec());
    assert_eq!(encode_cmd(&owned(&[])), b"*0\r\n".to_vec());
    assert_eq!(encode_cmd(&owned(&[b""])), b"*1\r\n$0\r\n\r\n".to_vec());
}

#[test]
fn resp_bulk_and_resp_array_encode_text() {
    assert_eq!(resp_bulk("hi"), b"$2\r\nhi\r\n".to_vec());
    assert_eq!(resp_bulk(""), b"$0\r\n\r\n".to_vec());
    assert_eq!(
        resp_array(&["INCR", "ctr"]),
        b"*2\r\n$4\r\nINCR\r\n$3\r\nctr\r\n".to_vec()
    );
}

#[test]
fn split_args_plain_words() {
    let r = split_args(b"SET key  value").unwrap();
    assert_eq!(r, owned(&[b"SET", b"key", b"value"]));
    assert_eq!(split_args(b"").unwrap(), owned(&[]));
    assert_eq!(split_args(b"   ").unwrap(), owned(&[]));
}

#[test]
fn split_args_quotes_keep_spaces() {
    let r = split_args(b"SET k \"a b c\"").unwrap();
    assert_eq!(r, owned(&[b"SET", b"k", b"a b c"]));
    let r = split_args(b"a\"b c\"d").unwrap();
    assert_eq!(r, owned(&[b"ab cd"]));
}

#[test]
fn split_args_escapes() {
    let r = split_args(b"a\\ b").unwrap();
    assert_eq!(r, owned(&[b"a b"]));
    let r = split_args(b"say \\\"hi\\\"").unwrap();
    assert_eq!(r, owned(&[b"say", b"\"hi\""]));
}

#[test]
fn split_args_reports_dangling_escape() {
    assert_eq!(split_args(b"oops\\"), Err(SplitError::DanglingEscape));
}

#[test]
fn split_args_reports_unclosed_quote() {
    assert_eq!(split_args(b"\"half open"), Err(SplitError::UnclosedQuote));
}

#[test]
fn count_replies_counts_each_frame_kind() {
    assert_eq!(count_replies(b""), 0);
    assert_eq!(count_replies(b"+OK\r\n"), 1);
    assert_eq!(count_replies(b"+OK\r\n:1\r\n-ERR x\r\n"), 3);
    assert_eq!(count_replies(b"$-1\r\n"), 1);
    assert_eq!(count_replies(b"$3\r\nabc\r\n:2\r\n"), 2);
    assert_eq!(count_replies(b"*2\r\n$1\r\na\r\n$1\r\nb\r\n+OK\r\n"), 2);
    assert_eq!(count_replies(b"*0\r\n"), 1);
}

#[test]
fn count_replies_stops_at_partial_frames() {
    assert_eq!(count_replies(b"+OK\r\n:1"), 1);
    assert_eq!(count_replies(b"$3\r\nab"), 0);
    assert_eq!(count_replies(b"*2\r\n$1\r\na\r\n"), 0);
    // The array's second element never arrived: the array is not counted.
    assert_eq!(count_replies(b"+OK\r\n*2\r\n$1\r\na\r\n"), 1);
    assert_eq!(count_replies(b"*1\r\n:5\r\n"), 0);
}
