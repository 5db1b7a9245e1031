//! Dispatcher tests: replies are bit-exact wire frames for each command,
//! case-insensitive names, arity errors, and the plain-line path.

use keyval::db::storage::new_db;
use keyval::protocol::parser::{process_parts, process};

fn args(parts: &[&[u8]]) -> Vec<Vec<u8>> {
    parts.iter().map(|p| p.to_vec()).collect()
}

#[test]
fn ping_answers_pong() {
    let mut db = new_db();
    let r = process_parts(&args(&[b"PING"]), &mut db, 0);
    assert_eq!(r.to_bytes(), b"+PONG\r\n".to_vec());
}

#[test]
fn command_names_match_case_insensitively() {
    let mut db = new_db();
    let r = process_parts(&args(&[b"ping"]), &mut db, 0);
    assert_eq!(r.to_bytes(), b"+PONG\r\n".to_vec());
    let r = process_parts(&args(&[b"SeT", b"k", b"v"]), &mut db, 0);
    assert_eq!(r.to_bytes(), b"+OK\r\n".to_vec());
    let r = process_parts(&args(&[b"get", b"k"]), &mut db, 0);
    assert_eq!(r.to_bytes(), b"$1\r\nv\r\n".to_vec());
}

#[test]
fn set_get_del_exists_replies() {
    let mut db = new_db();
    let r = process_parts(&args(&[b"SET", b"k", b"v"]), &mut db, 0);
    assert_eq!(r.to_bytes(), b"+OK\r\n".to_vec());
    let r = process_parts(&args(&[b"EXISTS", b"k"]), &mut db, 0);
    assert_eq!(r.to_bytes(), b":1\r\n".to_vec());
    let r = process_parts(&args(&[b"GET", b"k"]), &mut db, 0);
    assert_eq!(r.to_bytes(), b"$1\r\nv\r\n".to_vec());
    let r = process_parts(&args(&[b"DEL", b"k"]), &mut db, 0);
    assert_eq!(r.to_bytes(), b":1\r\n".to_vec());
    let r = process_parts(&args(&[b"EXISTS", b"k"]), &mut db, 0);
    assert_eq!(r.to_bytes(), b":0\r\n".to_vec());
    let r = process_parts(&args(&[b"DEL", b"k"]), &mut db, 0);
    assert_eq!(r.to_bytes(), b":0\r\n".to_vec());
    let r = process_parts(&args(&[b"GET", b"k"]), &mut db, 0);
    assert_eq!(r.to_bytes(), b"$-1\r\n".to_vec());
}

#[test]
fn incr_replies_and_non_integer_error() {
    let mut db = new_db();
    let r = process_parts(&args(&[b"INCR", b"ctr"]), &mut db, 0);
    assert_eq!(r.to_bytes(), b":1\r\n".to_vec());
    let r = process_parts(&args(&[b"INCR", b"ctr"]), &mut db, 0);
    assert_eq!(r.to_bytes(), b":2\r\n".to_vec());
    process_parts(&args(&[b"SET", b"ctr", b"bar"]), &mut db, 0);
    let r = process_parts(&args(&[b"INCR", b"ctr"]), &mut db, 0);
    assert_eq!(r.to_bytes(), b"-ERR value is not an integer\r\n".to_vec());
    let r = process_parts(&args(&[b"GET", b"ctr"]), &mut db, 0);
    assert_eq!(r.to_bytes(), b"$3\r\nbar\r\n".to_vec());
}

#[test]
fn arity_errors_are_replies() {
    let mut db = new_db();
    let r = process_parts(&args(&[b"SET", b"k"]), &mut db, 0);
    assert_eq!(r.to_bytes(), b"-ERR usage SET key value [EX seconds]\r\n".to_vec());
    let r = process_parts(&args(&[b"GET"]), &mut db, 0);
    assert_eq!(r.to_bytes(), b"-ERR usage GET key\r\n".to_vec());
    let r = process_parts(&args(&[b"DEL"]), &mut db, 0);
    assert_eq!(r.to_bytes(), b"-ERR usage DEL key\r\n".to_vec());
    let r = process_parts(&args(&[b"EXISTS"]), &mut db, 0);
    assert_eq!(r.to_bytes(), b"-ERR usage EXISTS key\r\n".to_vec());
    let r = process_parts(&args(&[b"INCR"]), &mut db, 0);
    assert_eq!(r.to_bytes(), b"-ERR usage INCR key\r\n".to_vec());
    let r = process_parts(&args(&[b"EXPIRE", b"k"]), &mut db, 0);
    assert_eq!(r.to_bytes(), b"-ERR usage EXPIRE key seconds\r\n".to_vec());
}

#[test]
fn expire_commands_drive_ttl() {
    let mut db = new_db();
    process_parts(&args(&[b"SET", b"k", b"1"]), &mut db, 0);
    let r = process_parts(&args(&[b"EXPIRE", b"k", b"1"]), &mut db, 0);
    assert_eq!(r.to_bytes(), b":1\r\n".to_vec());
    // One second is a thousand clock ticks; the lazy path evicts past it.
    let r = process_parts(&args(&[b"GET", b"k"]), &mut db, 1000);
    assert_eq!(r.to_bytes(), b"$1\r\n1\r\n".to_vec());
    let r = process_parts(&args(&[b"GET", b"k"]), &mut db, 1001);
    assert_eq!(r.to_bytes(), b"$-1\r\n".to_vec());
    let r = process_parts(&args(&[b"EXPIRE", b"gone", b"1"]), &mut db, 0);
    assert_eq!(r.to_bytes(), b":0\r\n".to_vec());
    let r = process_parts(&args(&[b"EXPIRE", b"k", b"soon"]), &mut db, 0);
    assert_eq!(r.to_bytes(), b"-ERR invalid seconds\r\n".to_vec());
}

#[test]
fn set_with_ex_clause_expires() {
    let mut db = new_db();
    let r = process_parts(&args(&[b"SET", b"k", b"v", b"EX", b"2"]), &mut db, 0);
    assert_eq!(r.to_bytes(), b"+OK\r\n".to_vec());
    let r = process_parts(&args(&[b"GET", b"k"]), &mut db, 2000);
    assert_eq!(r.to_bytes(), b"$1\r\nv\r\n".to_vec());
    let r = process_parts(&args(&[b"GET", b"k"]), &mut db, 2001);
    assert_eq!(r.to_bytes(), b"$-1\r\n".to_vec());
}

#[test]
fn malformed_ex_seconds_stores_without_expiry() {
    let mut db = new_db();
    let r = process_parts(&args(&[b"SET", b"k", b"v", b"EX", b"later"]), &mut db, 0);
    assert_eq!(r.to_bytes(), b"+OK\r\n".to_vec());
    let r = process_parts(&args(&[b"GET", b"k"]), &mut db, u64::MAX);
    assert_eq!(r.to_bytes(), b"$1\r\nv\r\n".to_vec());
}

#[test]
fn keys_and_flushall_replies() {
    let mut db = new_db();
    process_parts(&args(&[b"SET", b"a", b"1"]), &mut db, 0);
    process_parts(&args(&[b"SET", b"b", b"2"]), &mut db, 0);
    let r = process_parts(&args(&[b"KEYS"]), &mut db, 0);
    assert_eq!(r.to_bytes(), b"*2\r\n$1\r\na\r\n$1\r\nb\r\n".to_vec());
    let r = process_parts(&args(&[b"FLUSHALL"]), &mut db, 0);
    assert_eq!(r.to_bytes(), b"+OK\r\n".to_vec());
    let r = process_parts(&args(&[b"KEYS"]), &mut db, 0);
    assert_eq!(r.to_bytes(), b"*0\r\n".to_vec());
    let r = process_parts(&args(&[b"EXISTS", b"a"]), &mut db, 0);
    assert_eq!(r.to_bytes(), b":0\r\n".to_vec());
    let r = process_parts(&args(&[b"EXISTS", b"b"]), &mut db, 0);
    assert_eq!(r.to_bytes(), b":0\r\n".to_vec());
}

#[test]
fn unknown_and_empty_commands() {
    let mut db = new_db();
    let r = process_parts(&args(&[b"NOSUCH"]), &mut db, 0);
    assert_eq!(r.to_bytes(), b"-ERR unknown command\r\n".to_vec());
    let r = process_parts(&args(&[]), &mut db, 0);
    assert_eq!(r.to_bytes(), b"-ERR empty command\r\n".to_vec());
}

#[test]
fn plain_line_processing() {
    let mut db = new_db();
    let r = process(b"SET k v", &mut db, 0);
    assert_eq!(r, b"+OK\r\n".to_vec());
    let r = process(b"  GET   k ", &mut db, 0);
    assert_eq!(r, b"$1\r\nv\r\n".to_vec());
    let r = process(b"", &mut db, 0);
    assert_eq!(r, b"-ERR empty command\r\n".to_vec());
}
