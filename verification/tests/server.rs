use kvstore::protocol::parse_request;
use kvstore::server::{process_command, Connection, Served};
use kvstore::storage::StorageEngine;

fn frame(args: &[&[u8]]) -> Vec<u8> {
    let mut body = Vec::new();
    body.extend_from_slice(&(args.len() as u32).to_le_bytes());
    for a in args {
        body.extend_from_slice(&(a.len() as u32).to_le_bytes());
        body.extend_from_slice(a);
    }
    let mut out = (body.len() as u32).to_le_bytes().to_vec();
    out.extend_from_slice(&body);
    out
}

fn packet(body: &[u8]) -> Vec<u8> {
    let mut out = (body.len() as u32).to_le_bytes().to_vec();
    out.extend_from_slice(body);
    out
}

fn error_packet(code: u32, msg: &str) -> Vec<u8> {
    let mut body = vec![1u8];
    body.extend_from_slice(&code.to_le_bytes());
    body.extend_from_slice(&(msg.len() as u32).to_le_bytes());
    body.extend_from_slice(msg.as_bytes());
    packet(&body)
}

fn int_packet(v: i64) -> Vec<u8> {
    let mut body = vec![3u8];
    body.extend_from_slice(&v.to_le_bytes());
    packet(&body)
}

fn run(engine: &mut StorageEngine, args: &[&[u8]], now: u64) -> Option<Vec<u8>> {
    let buf = frame(args);
    let (cmd, _) = parse_request(&buf).unwrap().unwrap();
    process_command(engine, &cmd, now)
}

#[test]
fn process_command_get_replies_with_the_stored_string() {
    let mut engine: StorageEngine = StorageEngine::new();
    assert_eq!(run(&mut engine, &[b"SET", b"k", b"v"], 0), Some(packet(&[0])));
    assert_eq!(run(&mut engine, &[b"GET", b"k"], 0), Some(vec![6, 0, 0, 0, 2, 1, 0, 0, 0, b'v']));
    assert_eq!(run(&mut engine, &[b"GET", b"other"], 0), Some(packet(&[0])));
    assert_eq!(run(&mut engine, &[b"DEL", b"k"], 0), Some(int_packet(1)));
    assert_eq!(run(&mut engine, &[b"DEL", b"k"], 0), Some(int_packet(0)));
    assert_eq!(run(&mut engine, &[b"GET", b"k"], 0), Some(packet(&[0])));
}

#[test]
fn process_command_refuses_unknown_commands_and_wrong_arity() {
    let mut engine: StorageEngine = StorageEngine::new();
    assert_eq!(run(&mut engine, &[b"PING"], 0), Some(error_packet(1, "unknown command")));
    assert_eq!(run(&mut engine, &[b"get", b"k"], 0), Some(error_packet(1, "unknown command")));
    assert_eq!(run(&mut engine, &[], 0), Some(error_packet(1, "unknown command")));
    assert_eq!(run(&mut engine, &[b"GET"], 0), Some(error_packet(2, "wrong number of arguments")));
    assert_eq!(
        run(&mut engine, &[b"SET", b"k", b"v", b"w"], 0),
        Some(error_packet(2, "wrong number of arguments"))
    );
    assert_eq!(run(&mut engine, &[b"PEXPIRE", b"k"], 0), Some(error_packet(2, "wrong number of arguments")));
    assert_eq!(engine.size(), 0);
}

#[test]
fn process_command_leaves_sorted_set_commands_to_the_caller() {
    let mut engine: StorageEngine = StorageEngine::new();
    assert_eq!(run(&mut engine, &[b"ZADD", b"z", b"1.5", b"m"], 0), None);
    assert_eq!(run(&mut engine, &[b"ZREM", b"z", b"m"], 0), None);
    assert_eq!(run(&mut engine, &[b"ZSCORE", b"z", b"m"], 0), None);
    assert_eq!(run(&mut engine, &[b"ZQUERY", b"z", b"0", b"0", b"10"], 0), None);
    assert_eq!(engine.size(), 0);
}

#[test]
fn process_command_pexpire_reads_a_decimal_time() {
    let mut engine: StorageEngine = StorageEngine::new();
    run(&mut engine, &[b"SET", b"a", b"v"], 0);
    assert_eq!(run(&mut engine, &[b"PEXPIRE", b"a", b"15"], 1_000), Some(int_packet(1)));
    assert_eq!(engine.next_expiry_us(), Some(16_000));
    assert_eq!(run(&mut engine, &[b"PEXPIRE", b"missing", b"15"], 1_000), Some(int_packet(0)));
    assert_eq!(run(&mut engine, &[b"PEXPIRE", b"a", b"1x"], 0), Some(error_packet(2, "expect int")));
    assert_eq!(run(&mut engine, &[b"PEXPIRE", b"a", b""], 0), Some(error_packet(2, "expect int")));
    assert_eq!(run(&mut engine, &[b"PEXPIRE", b"a", b"-"], 0), Some(error_packet(2, "expect int")));
    assert_eq!(
        run(&mut engine, &[b"PEXPIRE", b"a", b"99999999999999999999"], 0),
        Some(error_packet(2, "expect int"))
    );
    assert_eq!(
        run(&mut engine, &[b"PEXPIRE", b"a", b"9223372036854775807"], 0),
        Some(error_packet(2, "expire time out of range"))
    );
    assert_eq!(engine.next_expiry_us(), Some(16_000));
    assert_eq!(run(&mut engine, &[b"PEXPIRE", b"a", b"-9223372036854775808"], 0), Some(int_packet(1)));
    assert_eq!(engine.next_expiry_us(), None);
}

#[test]
fn connection_answers_complete_requests_through_the_engine() {
    let mut engine: StorageEngine = StorageEngine::new();
    let mut conn = Connection::new();
    assert!(!conn.has_output());
    let mut data = frame(&[b"SET", b"a", b"xy"]);
    data.extend_from_slice(&frame(&[b"GET", b"a"]));
    assert!(conn.received(&data));
    assert_eq!(conn.process_buffer(&mut engine, 0), Served::Waiting);
    let mut expected = packet(&[0]);
    expected.extend_from_slice(&packet(&[2, 2, 0, 0, 0, b'x', b'y']));
    assert_eq!(conn.output(), &expected[..]);
}

#[test]
fn connection_waits_for_the_rest_of_a_request() {
    let mut engine: StorageEngine = StorageEngine::new();
    let mut conn = Connection::new();
    let data = frame(&[b"SET", b"k", b"v"]);
    let (head, tail) = data.split_at(5);
    assert!(conn.received(head));
    assert_eq!(conn.process_buffer(&mut engine, 0), Served::Waiting);
    assert!(!conn.has_output());
    assert!(conn.received(tail));
    assert_eq!(conn.process_buffer(&mut engine, 0), Served::Waiting);
    assert_eq!(conn.output(), &packet(&[0])[..]);
}

#[test]
fn connection_stops_at_a_malformed_request() {
    let mut engine: StorageEngine = StorageEngine::new();
    let mut conn = Connection::new();
    let mut data = frame(&[b"DEL", b"x"]);
    data.extend_from_slice(&[2u8, 0, 0, 0, 0, 0]);
    data.extend_from_slice(&frame(&[b"DEL", b"x"]));
    assert!(conn.received(&data));
    assert_eq!(conn.process_buffer(&mut engine, 0), Served::Waiting);
    // Only the first request is answered; the malformed one blocks the rest.
    assert_eq!(conn.output(), &int_packet(0)[..]);
    assert_eq!(conn.process_buffer(&mut engine, 0), Served::Waiting);
    assert_eq!(conn.output(), &int_packet(0)[..]);
    assert!(conn.next_request().is_none());
}

#[test]
fn connection_hands_sorted_set_commands_to_the_caller() {
    let mut engine: StorageEngine = StorageEngine::new();
    let mut conn = Connection::new();
    let mut data = frame(&[b"DEL", b"x"]);
    let zadd = frame(&[b"ZADD", b"z", b"1", b"m"]);
    data.extend_from_slice(&zadd);
    data.extend_from_slice(&frame(&[b"GET", b"x"]));
    assert!(conn.received(&data));
    assert_eq!(conn.process_buffer(&mut engine, 0), Served::SortedSet);
    assert_eq!(conn.output(), &int_packet(0)[..]);
    let n = {
        let (cmd, n) = conn.next_request().unwrap();
        assert_eq!(cmd.args, vec![&b"ZADD"[..], b"z", b"1", b"m"]);
        n
    };
    assert_eq!(n, zadd.len());
    assert!(conn.answer(&int_packet(1), n));
    assert_eq!(conn.process_buffer(&mut engine, 0), Served::Waiting);
    let mut expected = int_packet(0);
    expected.extend_from_slice(&int_packet(1));
    expected.extend_from_slice(&packet(&[0]));
    assert_eq!(conn.output(), &expected[..]);
    assert!(!conn.answer(&[], 1));
}

#[test]
fn connection_written_drops_sent_bytes() {
    let mut engine: StorageEngine = StorageEngine::new();
    let mut conn = Connection::new();
    assert!(conn.received(&frame(&[b"GET", b"a"])));
    assert!(conn.received(&frame(&[b"GET", b"b"])));
    assert_eq!(conn.process_buffer(&mut engine, 0), Served::Waiting);
    assert_eq!(conn.output().len(), 10);
    conn.written(3);
    assert_eq!(conn.output().len(), 7);
    conn.written(7);
    assert!(!conn.has_output());
}

#[test]
fn connection_output_does_not_depend_on_how_bytes_arrive() {
    let mut stream = Vec::new();
    for args in [&[&b"SET"[..], b"k", b"v"][..], &[b"GET", b"k"], &[b"DEL", b"k"]] {
        stream.extend_from_slice(&frame(args));
    }
    stream.extend_from_slice(&[9u8, 0, 0]); // the start of a request still on its way
    let mut engine: StorageEngine = StorageEngine::new();
    let mut whole = Connection::new();
    assert!(whole.received(&stream));
    assert_eq!(whole.process_buffer(&mut engine, 0), Served::Waiting);
    for cut in 1..stream.len() {
        let mut engine: StorageEngine = StorageEngine::new();
        let mut pieces = Connection::new();
        assert!(pieces.received(&stream[..cut]));
        assert_eq!(pieces.process_buffer(&mut engine, 0), Served::Waiting);
        assert!(pieces.received(&stream[cut..]));
        assert_eq!(pieces.process_buffer(&mut engine, 0), Served::Waiting);
        assert_eq!(pieces.output(), whole.output());
    }
    let mut expected = packet(&[0]);
    expected.extend_from_slice(&packet(&[2, 1, 0, 0, 0, b'v']));
    expected.extend_from_slice(&int_packet(1));
    assert_eq!(whole.output(), &expected[..]);
}
