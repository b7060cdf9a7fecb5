use redis_core::dispatch::Engine;
use redis_core::session::{SessionStep, session_step};

fn frame(args: &[&[u8]]) -> Vec<u8> {
    let mut out = format!("*{}\r\n", args.len()).into_bytes();
    for a in args {
        out.extend(format!("${}\r\n", a.len()).into_bytes());
        out.extend(a.iter().copied());
        out.extend(b"\r\n".iter().copied());
    }
    out
}

fn run_bytes_at(e: &mut Engine, args: &[&[u8]], now: u64) -> Vec<u8> {
    let buf = frame(args);
    match session_step(e, &buf, 0, now) {
        SessionStep::Done { reply, used, .. } => {
            assert_eq!(used, buf.len());
            reply
        }
        _ => panic!("expected an immediate reply"),
    }
}

fn run(e: &mut Engine, args: &[&str]) -> Vec<u8> {
    let bytes: Vec<&[u8]> = args.iter().map(|s| s.as_bytes()).collect();
    run_bytes_at(e, &bytes, 0)
}

fn text(reply: &[u8]) -> String {
    String::from_utf8(reply.to_vec()).unwrap()
}

#[test]
fn ping_on_the_wire() {
    // one frame, byte for byte
    let mut e = Engine::new();
    let buf = b"*1\r\n$4\r\nPING\r\n".to_vec();
    match session_step(&mut e, &buf, 0, 0) {
        SessionStep::Done { reply, used, wakes } => {
            assert_eq!(used, buf.len());
            assert_eq!(reply, b"+PONG\r\n".to_vec());
            assert_eq!(wakes.len(), 0);
        }
        _ => panic!("expected a reply"),
    }
}

#[test]
fn command_names_are_case_insensitive() {
    let mut e = Engine::new();
    assert_eq!(text(&run(&mut e, &["ping"])), "+PONG\r\n");
    assert_eq!(text(&run(&mut e, &["PiNg"])), "+PONG\r\n");
}

#[test]
fn pipelined_frames_decode_back_to_back() {
    let mut e = Engine::new();
    let mut buf = b"*1\r\n$4\r\nPING\r\n".to_vec();
    buf.extend(b"*2\r\n$4\r\nECHO\r\n$2\r\nhi\r\n".iter().copied());
    let first_used;
    match session_step(&mut e, &buf, 0, 0) {
        SessionStep::Done { reply, used, .. } => {
            assert_eq!(reply, b"+PONG\r\n".to_vec());
            first_used = used;
        }
        _ => panic!("expected a reply"),
    }
    match session_step(&mut e, &buf, first_used, 0) {
        SessionStep::Done { reply, used, .. } => {
            assert_eq!(reply, b"$2\r\nhi\r\n".to_vec());
            assert_eq!(used, buf.len());
        }
        _ => panic!("expected a reply"),
    }
}

#[test]
fn split_read_waits_for_more_bytes() {
    let mut e = Engine::new();
    let whole = b"*2\r\n$4\r\nECHO\r\n$3\r\nhey\r\n";
    for cut in 1..whole.len() {
        let part = whole[..cut].to_vec();
        match session_step(&mut e, &part, 0, 0) {
            SessionStep::NeedMore => {}
            _ => panic!("a prefix of a frame must ask for more bytes"),
        }
    }
}

#[test]
fn malformed_frames_close_the_session() {
    let cases: &[&[u8]] = &[
        b"PING\r\n",             // not an array
        b"*x\r\n",               // no count
        b"*0\r\n",               // empty array
        b"*1025\r\n",            // count over the cap
        b"*01\r\n$4\r\nPING\r\n", // leading zero
        b"*1\r\nPING\r\n",       // element is not a bulk string
        b"*1\r\n$-2\r\n",        // negative length other than -1
        b"*1\r\n$4\r\nPINGX\r\n", // length not followed by CRLF
    ];
    for case in cases {
        let mut e = Engine::new();
        let buf = case.to_vec();
        match session_step(&mut e, &buf, 0, 0) {
            SessionStep::Close(reply) => {
                assert_eq!(reply, b"-ERR protocol error\r\n".to_vec());
            }
            _ => panic!("malformed bytes must close the session"),
        }
    }
}

#[test]
fn nil_bulk_element_is_the_empty_argument() {
    let mut e = Engine::new();
    let buf = b"*2\r\n$4\r\nECHO\r\n$-1\r\n".to_vec();
    match session_step(&mut e, &buf, 0, 0) {
        SessionStep::Done { reply, .. } => {
            assert_eq!(reply, b"$0\r\n\r\n".to_vec());
        }
        _ => panic!("expected a reply"),
    }
}

#[test]
fn binary_values_round_trip() {
    // a SET then GET returns exactly the stored bytes
    let mut e = Engine::new();
    let value: Vec<u8> = (0u16..=255).map(|b| b as u8).collect();
    let reply = run_bytes_at(&mut e, &[b"SET", b"blob", &value], 0);
    assert_eq!(reply, b"+OK\r\n".to_vec());
    let got = run_bytes_at(&mut e, &[b"GET", b"blob"], 0);
    let mut expected = format!("${}\r\n", value.len()).into_bytes();
    expected.extend(value.iter().copied());
    expected.extend(b"\r\n".iter().copied());
    assert_eq!(got, expected);
}

#[test]
fn empty_value_round_trips() {
    let mut e = Engine::new();
    assert_eq!(text(&run(&mut e, &["SET", "k", ""])), "+OK\r\n");
    assert_eq!(text(&run(&mut e, &["GET", "k"])), "$0\r\n\r\n");
}

#[test]
fn lpop_count_and_auto_delete() {
    let mut e = Engine::new();
    assert_eq!(text(&run(&mut e, &["RPUSH", "list", "a", "b", "c", "d"])), ":4\r\n");
    assert_eq!(text(&run(&mut e, &["LPOP", "list"])), "$1\r\na\r\n");
    assert_eq!(
        text(&run(&mut e, &["LPOP", "list", "2"])),
        "*2\r\n$1\r\nb\r\n$1\r\nc\r\n"
    );
    assert_eq!(text(&run(&mut e, &["LPOP", "list", "5"])), "*1\r\n$1\r\nd\r\n");
    assert_eq!(text(&run(&mut e, &["LLEN", "list"])), ":0\r\n");
    assert_eq!(text(&run(&mut e, &["DBSIZE"])), ":0\r\n");
    assert_eq!(text(&run(&mut e, &["LRANGE", "list", "0", "-1"])), "*0\r\n");
    assert_eq!(text(&run(&mut e, &["LPOP", "list"])), "$-1\r\n");
}

#[test]
fn dbsize_counts_stored_keys() {
    let mut e = Engine::new();
    assert_eq!(text(&run(&mut e, &["DBSIZE"])), ":0\r\n");
    assert_eq!(text(&run(&mut e, &["SET", "a", "1"])), "+OK\r\n");
    assert_eq!(text(&run(&mut e, &["SET", "a", "2"])), "+OK\r\n");
    assert_eq!(text(&run(&mut e, &["RPUSH", "l", "x"])), ":1\r\n");
    assert_eq!(text(&run(&mut e, &["DBSIZE"])), ":2\r\n");
}

#[test]
fn wrongtype_both_ways() {
    let mut e = Engine::new();
    assert_eq!(text(&run(&mut e, &["SET", "s", "x"])), "+OK\r\n");
    assert_eq!(
        text(&run(&mut e, &["LPUSH", "s", "y"])),
        "-WRONGTYPE Operation against a key holding the wrong kind of value\r\n"
    );
    assert_eq!(text(&run(&mut e, &["RPUSH", "l", "a"])), ":1\r\n");
    assert_eq!(
        text(&run(&mut e, &["GET", "l"])),
        "-WRONGTYPE Operation against a key holding the wrong kind of value\r\n"
    );
    assert_eq!(
        text(&run(&mut e, &["LLEN", "s"])),
        "-WRONGTYPE Operation against a key holding the wrong kind of value\r\n"
    );
    assert_eq!(
        text(&run(&mut e, &["LRANGE", "s", "0", "-1"])),
        "-WRONGTYPE Operation against a key holding the wrong kind of value\r\n"
    );
}

#[test]
fn expiry_is_permanent_until_set() {
    let mut e = Engine::new();
    assert_eq!(text(&run_at(&mut e, &["SET", "k", "v", "px", "50"])), "+OK\r\n");
    assert_eq!(text(&run2(&mut e, &["GET", "k"], 51)), "$-1\r\n");
    assert_eq!(text(&run2(&mut e, &["GET", "k"], 40)), "$-1\r\n");
    assert_eq!(text(&run2(&mut e, &["DBSIZE"], 60)), ":0\r\n");
    assert_eq!(text(&run2(&mut e, &["SET", "k", "w"], 70)), "+OK\r\n");
    assert_eq!(text(&run2(&mut e, &["GET", "k"], 80)), "$1\r\nw\r\n");
}

fn run_at(e: &mut Engine, args: &[&str]) -> Vec<u8> {
    run2(e, args, 0)
}

fn run2(e: &mut Engine, args: &[&str], now: u64) -> Vec<u8> {
    let bytes: Vec<&[u8]> = args.iter().map(|s| s.as_bytes()).collect();
    run_bytes_at(e, &bytes, now)
}

#[test]
fn ttl_reply_forms() {
    let mut e = Engine::new();
    assert_eq!(text(&run2(&mut e, &["TTL", "missing"], 0)), "+-1\r\n");
    assert_eq!(text(&run2(&mut e, &["SET", "k", "v"], 0)), "+OK\r\n");
    assert_eq!(text(&run2(&mut e, &["TTL", "k"], 5)), "+-1\r\n");
    assert_eq!(text(&run2(&mut e, &["SET", "k", "v", "px", "1000"], 100)), "+OK\r\n");
    assert_eq!(text(&run2(&mut e, &["TTL", "k"], 400)), "+700\r\n");
    assert_eq!(text(&run2(&mut e, &["TTL", "k"], 5000)), "+0\r\n");
}

#[test]
fn arity_and_parse_errors_keep_the_session() {
    let mut e = Engine::new();
    assert_eq!(
        text(&run(&mut e, &["GET"])),
        "-ERR wrong number of arguments for command\r\n"
    );
    assert_eq!(
        text(&run(&mut e, &["SET", "k"])),
        "-ERR wrong number of arguments for command\r\n"
    );
    assert_eq!(
        text(&run(&mut e, &["RPUSH", "k"])),
        "-ERR wrong number of arguments for command\r\n"
    );
    assert_eq!(
        text(&run(&mut e, &["LPOP", "k", "abc"])),
        "-ERR value is not an integer or out of range\r\n"
    );
    assert_eq!(
        text(&run(&mut e, &["LRANGE", "k", "a", "1"])),
        "-ERR value is not an integer or out of range\r\n"
    );
    assert_eq!(
        text(&run(&mut e, &["SET", "k", "v", "px", "ten"])),
        "-ERR value is not an integer or out of range\r\n"
    );
    // the session still answers afterwards
    assert_eq!(text(&run(&mut e, &["PING"])), "+PONG\r\n");
}

#[test]
fn unknown_command_reply_names_it() {
    let mut e = Engine::new();
    assert_eq!(
        text(&run(&mut e, &["FLUSHALL", "now"])),
        "-ERR unknown command 'FLUSHALL', with args beginning with: 'now', \r\n"
    );
}

#[test]
fn client_handshake_is_acknowledged() {
    let mut e = Engine::new();
    assert_eq!(text(&run(&mut e, &["CLIENT", "SETINFO", "lib-name", "x"])), "+OK\r\n");
}

#[test]
fn two_digit_lengths_encode_correctly() {
    let mut e = Engine::new();
    let vals: Vec<String> = (0..12).map(|i| format!("v{i}")).collect();
    let mut args: Vec<&str> = vec!["RPUSH", "big"];
    for v in &vals {
        args.push(v);
    }
    assert_eq!(text(&run(&mut e, &args)), ":12\r\n");
    assert_eq!(text(&run(&mut e, &["LLEN", "big"])), ":12\r\n");
    assert_eq!(
        text(&run(&mut e, &["LRANGE", "big", "10", "11"])),
        "*2\r\n$3\r\nv10\r\n$3\r\nv11\r\n"
    );
}
