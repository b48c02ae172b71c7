use memcached::server::dispatch;
use memcached::session::TCP_TIMEOUT_MS;
use memcached::{Admission, AlwaysAdmit, Command, Connection, MemKV, ReadEvent, Step};

fn run(conn: &mut Connection, kv: &mut MemKV, now: u64, bytes: &[u8]) -> String {
    match conn.on_event(now, ReadEvent::Bytes(bytes.to_vec())) {
        Step::Process { commands, error_reply } => {
            let mut out = String::new();
            for cmd in commands.iter() {
                out.push_str(&dispatch(kv, cmd).to_wire());
            }
            if let Some(e) = error_reply {
                out.push_str(&e);
            }
            out
        }
        other => panic!("unexpected step {:?}", other),
    }
}

#[test]
fn end_to_end_set_then_get() {
    let mut conn = Connection::new(100, TCP_TIMEOUT_MS);
    let mut kv = MemKV::new();
    assert_eq!(run(&mut conn, &mut kv, 110, b"set k 0 0 3\r\nabc\r\n"), "UPDATED\r\n");
    assert_eq!(run(&mut conn, &mut kv, 120, b"get k\r\n"), "abc\r\nEND\r\n");
    assert_eq!(run(&mut conn, &mut kv, 130, b"set k 0 0 1\r\nd\r\n"), "STORED\r\n");
}

#[test]
fn pipelined_commands_run_in_order() {
    let mut conn = Connection::new(0, TCP_TIMEOUT_MS);
    let mut kv = MemKV::new();
    assert_eq!(
        run(&mut conn, &mut kv, 1, b"set a 0 0 1\r\n1\r\nget a\r\n"),
        "UPDATED\r\n1\r\nEND\r\n"
    );
    assert_eq!(conn.buffer, "");
}

#[test]
fn command_split_across_reads_is_kept() {
    let mut conn = Connection::new(0, TCP_TIMEOUT_MS);
    let mut kv = MemKV::new();
    assert_eq!(run(&mut conn, &mut kv, 1, b"set k 0 0 3\r\nab"), "");
    assert_eq!(conn.buffer, "set k 0 0 3\r\nab");
    assert_eq!(run(&mut conn, &mut kv, 2, b"c\r\nget"), "UPDATED\r\n");
    assert_eq!(conn.buffer, "get");
    assert_eq!(run(&mut conn, &mut kv, 3, b" k\r\n"), "abc\r\nEND\r\n");
}

#[test]
fn malformed_request_gets_parse_error_and_stays_open() {
    let mut conn = Connection::new(0, TCP_TIMEOUT_MS);
    let mut kv = MemKV::new();
    assert_eq!(run(&mut conn, &mut kv, 1, b"foo\r\n"), "PARSE ERROR\r\n");
    assert_eq!(conn.buffer, "");
    assert_eq!(
        run(&mut conn, &mut kv, 2, b"get a\r\nfoo\r\nget b\r\n"),
        "END\r\nPARSE ERROR\r\n"
    );
    assert_eq!(run(&mut conn, &mut kv, 3, b"get b\r\n"), "END\r\n");
}

#[test]
fn invalid_utf8_closes_with_error() {
    let mut conn = Connection::new(0, TCP_TIMEOUT_MS);
    match conn.on_event(1, ReadEvent::Bytes(vec![0x67, 0xff, 0x0d, 0x0a])) {
        Step::ReplyAndClose(t) => assert_eq!(t, "PARSE ERROR\r\n"),
        other => panic!("unexpected step {:?}", other),
    }
}

#[test]
fn timeout_and_read_outcomes() {
    let mut conn = Connection::new(1000, 500);
    assert!(matches!(conn.on_event(1499, ReadEvent::Pending), Step::Retry));
    assert!(matches!(conn.on_event(1500, ReadEvent::Pending), Step::Close));
    assert!(matches!(conn.on_event(1200, ReadEvent::Failed), Step::Close));
    assert!(matches!(conn.on_event(1200, ReadEvent::Bytes(vec![])), Step::Close));
    assert!(conn.is_expired(1500));
    assert!(!conn.is_expired(10));
    match conn.on_event(1200, ReadEvent::Bytes(b"get a b\r\n".to_vec())) {
        Step::Process { commands, error_reply } => {
            assert_eq!(commands, vec![Command::Get(vec!["a".to_string(), "b".to_string()])]);
            assert!(error_reply.is_none());
        }
        other => panic!("unexpected step {:?}", other),
    }
}

#[test]
fn default_policy_lets_everyone_in() {
    let mut policy = AlwaysAdmit;
    assert!(policy.permit(0x7f00_0001, 4000, 0));
    assert!(policy.permit(0, 1, u64::MAX));
}
