use bytes::BytesMut;
use minikv::{execute, serve_buffer, Command, Config, Store};

fn config() -> Config {
    Config { dir: "/tmp/redis-data".to_string(), dbfilename: "dump.rdb".to_string() }
}

fn run(cmd: Command, st: &mut Store, now: u64) -> Vec<u8> {
    execute(cmd, st, &config(), &vec!["foo".to_string()], now)
}

#[test]
fn ping_replies_pong() {
    let mut st = Store::new();
    assert_eq!(run(Command::Ping, &mut st, 0), b"+PONG\r\n".to_vec());
}

#[test]
fn empty_echo_is_empty_bulk_not_nil() {
    let mut st = Store::new();
    assert_eq!(run(Command::Echo(String::new()), &mut st, 0), b"$0\r\n\r\n".to_vec());
}

#[test]
fn echo_counts_bytes_not_chars() {
    let mut st = Store::new();
    assert_eq!(run(Command::Echo("héllo".to_string()), &mut st, 0), "$6\r\nhéllo\r\n".as_bytes().to_vec());
}

#[test]
fn set_then_get_replies() {
    let mut st = Store::new();
    assert_eq!(run(Command::SetValue("a".into(), "b".into(), None), &mut st, 0), b"+OK\r\n".to_vec());
    assert_eq!(run(Command::Get("a".into()), &mut st, 0), b"$1\r\nb\r\n".to_vec());
    run(Command::SetValue("a".into(), "c".into(), None), &mut st, 0);
    assert_eq!(run(Command::Get("a".into()), &mut st, 5), b"$1\r\nc\r\n".to_vec());
}

#[test]
fn get_missing_is_nil() {
    let mut st = Store::new();
    assert_eq!(run(Command::Get("x".into()), &mut st, 0), b"$-1\r\n".to_vec());
}

#[test]
fn px_deadline_counts_from_set_time() {
    let mut st = Store::new();
    run(Command::SetValue("k".into(), "v".into(), Some(100)), &mut st, 1000);
    assert_eq!(run(Command::Get("k".into()), &mut st, 1099), b"$1\r\nv\r\n".to_vec());
    assert_eq!(run(Command::Get("k".into()), &mut st, 1101), b"$-1\r\n".to_vec());
    assert_eq!(st.len(), 0);
}

#[test]
fn px_deadline_saturates() {
    let mut st = Store::new();
    run(Command::SetValue("k".into(), "v".into(), Some(u64::MAX)), &mut st, 10);
    assert_eq!(run(Command::Get("k".into()), &mut st, u64::MAX), b"$1\r\nv\r\n".to_vec());
}

#[test]
fn config_get_dir_and_dbfilename() {
    let mut st = Store::new();
    assert_eq!(
        run(Command::ConfigGet("dir".into()), &mut st, 0),
        b"*2\r\n$3\r\ndir\r\n$15\r\n/tmp/redis-data\r\n".to_vec()
    );
    assert_eq!(
        run(Command::ConfigGet("dbfilename".into()), &mut st, 0),
        b"*2\r\n$10\r\ndbfilename\r\n$8\r\ndump.rdb\r\n".to_vec()
    );
}

#[test]
fn config_get_unknown_is_nil() {
    let mut st = Store::new();
    assert_eq!(run(Command::ConfigGet("nope".into()), &mut st, 0), b"$-1\r\n".to_vec());
}

#[test]
fn keys_lists_snapshot_keys() {
    let mut st = Store::new();
    st.set("live".into(), "x".into(), None);
    assert_eq!(run(Command::Keys, &mut st, 0), b"*1\r\n$3\r\nfoo\r\n".to_vec());
    let none: Vec<String> = Vec::new();
    assert_eq!(execute(Command::Keys, &mut st, &config(), &none, 0), b"*0\r\n".to_vec());
}

#[test]
fn serve_buffer_answers_pipelined_requests_and_keeps_the_rest() {
    let mut st = Store::new();
    let mut b = BytesMut::from(
        &b"*3\r\n$3\r\nSET\r\n$1\r\na\r\n$2\r\n10\r\n*2\r\n$3\r\nGET\r\n$1\r\na\r\n*1\r\n$4\r\nPI"[..],
    );
    let out = serve_buffer(&mut b, &mut st, &config(), &Vec::new(), 0);
    assert_eq!(out, b"+OK\r\n$2\r\n10\r\n".to_vec());
    assert_eq!(&b[..], b"*1\r\n$4\r\nPI");
    b.extend_from_slice(b"NG\r\n");
    let out = serve_buffer(&mut b, &mut st, &config(), &Vec::new(), 0);
    assert_eq!(out, b"+PONG\r\n".to_vec());
    assert_eq!(b.len(), 0);
}
