//! Session tests: pipelining, partial reads at arbitrary split points, the
//! plain-line mode, and the fail-fast handling of malformed frames.

use keyval::db::storage::{new_db, Store};
use keyval::session::drain_buffer;
use keyval::client::encode_cmd;

fn cmd(parts: &[&[u8]]) -> Vec<u8> {
    let owned: Vec<Vec<u8>> = parts.iter().map(|p| p.to_vec()).collect();
    encode_cmd(&owned)
}

fn drain(buf: &mut Vec<u8>, db: &mut Store) -> Vec<Vec<u8>> {
    drain_buffer(buf, db, 0)
}

#[test]
fn three_pipelined_commands_three_replies_in_order() {
    let mut db = new_db();
    let mut buf = Vec::new();
    buf.extend_from_slice(&cmd(&[b"SET", b"k", b"v"]));
    buf.extend_from_slice(&cmd(&[b"GET", b"k"]));
    buf.extend_from_slice(&cmd(&[b"PING"]));
    let replies = drain(&mut buf, &mut db);
    assert_eq!(replies.len(), 3);
    assert_eq!(replies[0], b"+OK\r\n".to_vec());
    assert_eq!(replies[1], b"$1\r\nv\r\n".to_vec());
    assert_eq!(replies[2], b"+PONG\r\n".to_vec());
    assert!(buf.is_empty());
}

#[test]
fn every_split_point_yields_the_same_replies() {
    let mut stream = Vec::new();
    stream.extend_from_slice(&cmd(&[b"SET", b"k", b"v1"]));
    stream.extend_from_slice(&cmd(&[b"INCR", b"c"]));
    stream.extend_from_slice(&cmd(&[b"GET", b"k"]));
    let expected = vec![
        b"+OK\r\n".to_vec(),
        b":1\r\n".to_vec(),
        b"$2\r\nv1\r\n".to_vec(),
    ];
    for cut in 0..=stream.len() {
        let mut db = new_db();
        let mut buf = stream[..cut].to_vec();
        let mut replies = drain(&mut buf, &mut db);
        buf.extend_from_slice(&stream[cut..]);
        replies.extend(drain(&mut buf, &mut db));
        assert_eq!(replies, expected, "split at {}", cut);
        assert!(buf.is_empty(), "split at {}", cut);
    }
}

#[test]
fn byte_by_byte_delivery_still_answers_once_each() {
    let mut stream = Vec::new();
    stream.extend_from_slice(&cmd(&[b"INCR", b"c"]));
    stream.extend_from_slice(&cmd(&[b"INCR", b"c"]));
    let mut db = new_db();
    let mut buf = Vec::new();
    let mut replies = Vec::new();
    for b in &stream {
        buf.push(*b);
        replies.extend(drain(&mut buf, &mut db));
    }
    assert_eq!(replies, vec![b":1\r\n".to_vec(), b":2\r\n".to_vec()]);
}

#[test]
fn incomplete_frame_waits_in_the_buffer() {
    let mut db = new_db();
    let full = cmd(&[b"SET", b"key", b"value"]);
    let mut buf = full[..full.len() - 3].to_vec();
    let kept = buf.clone();
    let replies = drain(&mut buf, &mut db);
    assert!(replies.is_empty());
    assert_eq!(buf, kept);
}

#[test]
fn malformed_frame_answers_once_and_drops_buffer() {
    let mut db = new_db();
    let mut buf = b"*1\r\n:5\r\n".to_vec();
    buf.extend_from_slice(&cmd(&[b"PING"]));
    let replies = drain(&mut buf, &mut db);
    assert_eq!(replies, vec![b"-ERR expected bulk header\r\n".to_vec()]);
    assert!(buf.is_empty());
}

#[test]
fn plain_line_mode_dispatches() {
    let mut db = new_db();
    let mut buf = b"SET k v\nGET k\n".to_vec();
    let replies = drain(&mut buf, &mut db);
    assert_eq!(replies, vec![b"+OK\r\n".to_vec(), b"$1\r\nv\r\n".to_vec()]);
    assert!(buf.is_empty());
}

#[test]
fn plain_blank_lines_earn_no_reply() {
    let mut db = new_db();
    let mut buf = b"\n   \r\nPING\n".to_vec();
    let replies = drain(&mut buf, &mut db);
    assert_eq!(replies, vec![b"+PONG\r\n".to_vec()]);
}

#[test]
fn plain_line_without_newline_waits() {
    let mut db = new_db();
    let mut buf = b"PIN".to_vec();
    let replies = drain(&mut buf, &mut db);
    assert!(replies.is_empty());
    assert_eq!(buf, b"PIN".to_vec());
    buf.extend_from_slice(b"G\n");
    let replies = drain(&mut buf, &mut db);
    assert_eq!(replies, vec![b"+PONG\r\n".to_vec()]);
}

#[test]
fn modes_can_alternate_on_one_connection() {
    let mut db = new_db();
    let mut buf = b"SET k v\n".to_vec();
    buf.extend_from_slice(&cmd(&[b"GET", b"k"]));
    let replies = drain(&mut buf, &mut db);
    assert_eq!(replies, vec![b"+OK\r\n".to_vec(), b"$1\r\nv\r\n".to_vec()]);
}
