use redis_core::dispatch::Engine;
use redis_core::session::{SessionStep, session_step};

fn frame(args: &[&[u8]]) -> Vec<u8> {
    let mut out = format!("*{}\r\n", args.len()).into_bytes();
    for a in args {
        out.extend(format!("${}\r\n", a.len()).into_bytes());
        out.extend(a.iter().copied());
        out.extend(b"\r\n".iter().copied());
    }
    out
}

fn run_at(e: &mut Engine, args: &[&str], now: u64) -> Vec<u8> {
    let bytes: Vec<&[u8]> = args.iter().map(|s| s.as_bytes()).collect();
    let buf = frame(&bytes);
    match session_step(e, &buf, 0, now) {
        SessionStep::Done { reply, used, .. } => {
            assert_eq!(used, buf.len());
            reply
        }
        _ => panic!("expected an immediate reply"),
    }
}

fn run(e: &mut Engine, args: &[&str]) -> Vec<u8> {
    run_at(e, args, 0)
}

fn text(reply: &[u8]) -> String {
    String::from_utf8(reply.to_vec()).unwrap()
}

#[test]
fn test_rpush_lrange() {
    let mut e = Engine::new();

    assert_eq!(text(&run(&mut e, &["RPUSH", "list", "foo"])), ":1\r\n");
    assert_eq!(text(&run(&mut e, &["RPUSH", "list", "bar", "baz"])), ":3\r\n");
    assert_eq!(text(&run(&mut e, &["LLEN", "list"])), ":3\r\n");
    assert_eq!(
        text(&run(&mut e, &["RPUSH", "list", "foo", "bar", "baz"])),
        ":6\r\n"
    );
    assert_eq!(text(&run(&mut e, &["LLEN", "list"])), ":6\r\n");

    assert_eq!(text(&run(&mut e, &["LLEN", "non_existent"])), ":0\r\n");

    assert_eq!(
        text(&run(&mut e, &["LRANGE", "list", "0", "1"])),
        "*2\r\n$3\r\nfoo\r\n$3\r\nbar\r\n"
    );
    assert_eq!(
        text(&run(&mut e, &["LRANGE", "list", "4", "4"])),
        "*1\r\n$3\r\nbar\r\n"
    );
    assert_eq!(
        text(&run(&mut e, &["LRANGE", "non_existent_list", "4", "4"])),
        "*0\r\n"
    );
    assert_eq!(text(&run(&mut e, &["LRANGE", "list", "8", "4"])), "*0\r\n");
    assert_eq!(
        text(&run(&mut e, &["LRANGE", "list", "4", "8"])),
        "*2\r\n$3\r\nbar\r\n$3\r\nbaz\r\n"
    );
    assert_eq!(text(&run(&mut e, &["LRANGE", "list", "2", "0"])), "*0\r\n");

    assert_eq!(
        text(&run(&mut e, &["LRANGE", "list", "-2", "-1"])),
        "*2\r\n$3\r\nbar\r\n$3\r\nbaz\r\n"
    );
    assert_eq!(
        text(&run(&mut e, &["LRANGE", "list", "0", "-5"])),
        "*2\r\n$3\r\nfoo\r\n$3\r\nbar\r\n"
    );
}

#[test]
fn test_lpush() {
    let mut e = Engine::new();

    assert_eq!(text(&run(&mut e, &["LPUSH", "llist", "c"])), ":1\r\n");
    assert_eq!(text(&run(&mut e, &["LPUSH", "llist", "b", "a"])), ":3\r\n");

    assert_eq!(text(&run(&mut e, &["LLEN", "llist"])), ":3\r\n");

    assert_eq!(
        text(&run(&mut e, &["LRANGE", "llist", "0", "-1"])),
        "*3\r\n$1\r\na\r\n$1\r\nb\r\n$1\r\nc\r\n"
    );
}

#[test]
fn test_lpop() {
    let mut e = Engine::new();

    assert_eq!(
        text(&run(&mut e, &["RPUSH", "list", "a", "b", "c", "d"])),
        ":4\r\n"
    );
    assert_eq!(text(&run(&mut e, &["LLEN", "list"])), ":4\r\n");

    assert_eq!(text(&run(&mut e, &["LPOP", "list"])), "$1\r\na\r\n");
    assert_eq!(text(&run(&mut e, &["LLEN", "list"])), ":3\r\n");

    assert_eq!(
        text(&run(&mut e, &["LPOP", "list", "2"])),
        "*2\r\n$1\r\nb\r\n$1\r\nc\r\n"
    );
    assert_eq!(text(&run(&mut e, &["LLEN", "list"])), ":1\r\n");
}

#[test]
fn test_array() {
    let mut e = Engine::new();

    assert_eq!(text(&run(&mut e, &["RPUSH", "list", "foo"])), ":1\r\n");
    assert_eq!(text(&run(&mut e, &["RPUSH", "list", "bar", "baz"])), ":3\r\n");
    assert_eq!(
        text(&run(&mut e, &["RPUSH", "list", "foo", "bar", "baz"])),
        ":6\r\n"
    );

    assert_eq!(
        text(&run(&mut e, &["LRANGE", "list", "0", "1"])),
        "*2\r\n$3\r\nfoo\r\n$3\r\nbar\r\n"
    );
    assert_eq!(
        text(&run(&mut e, &["LRANGE", "list", "4", "4"])),
        "*1\r\n$3\r\nbar\r\n"
    );
    assert_eq!(
        text(&run(&mut e, &["LRANGE", "non_existent_list", "4", "4"])),
        "*0\r\n"
    );
    assert_eq!(text(&run(&mut e, &["LRANGE", "list", "8", "4"])), "*0\r\n");
    assert_eq!(
        text(&run(&mut e, &["LRANGE", "list", "4", "8"])),
        "*2\r\n$3\r\nbar\r\n$3\r\nbaz\r\n"
    );
    assert_eq!(text(&run(&mut e, &["LRANGE", "list", "2", "0"])), "*0\r\n");

    assert_eq!(
        text(&run(&mut e, &["LRANGE", "list", "-2", "-1"])),
        "*2\r\n$3\r\nbar\r\n$3\r\nbaz\r\n"
    );
    assert_eq!(
        text(&run(&mut e, &["LRANGE", "list", "0", "-5"])),
        "*2\r\n$3\r\nfoo\r\n$3\r\nbar\r\n"
    );
}

#[test]
fn command_echo_test_echo() {
    let mut e = Engine::new();
    let message = "hey";
    assert_eq!(text(&run(&mut e, &["ECHO", message])), "$3\r\nhey\r\n");
}

#[test]
fn operations_test_echo() {
    let mut e = Engine::new();
    let message = "hey";
    assert_eq!(text(&run(&mut e, &["ECHO", message])), "$3\r\nhey\r\n");
}

#[test]
fn command_ping_test_ping() {
    let mut e = Engine::new();
    assert_eq!(text(&run(&mut e, &["PING"])), "+PONG\r\n");
}

#[test]
fn operations_test_ping() {
    let mut e = Engine::new();
    assert_eq!(text(&run(&mut e, &["PING"])), "+PONG\r\n");
}

#[test]
fn command_get_set_test_set_get_ttl() {
    let mut e = Engine::new();

    assert_eq!(
        text(&run_at(&mut e, &["SET", "foo", "bar", "px", "1000"], 0)),
        "+OK\r\n"
    );
    assert_eq!(text(&run_at(&mut e, &["GET", "foo"], 10)), "$3\r\nbar\r\n");

    // the clock moves past the TTL
    assert_eq!(text(&run_at(&mut e, &["GET", "foo"], 1100)), "$-1\r\n");
}

#[test]
fn operations_test_set_get_ttl() {
    let mut e = Engine::new();

    assert_eq!(
        text(&run_at(&mut e, &["SET", "foo", "bar", "px", "1000"], 0)),
        "+OK\r\n"
    );
    assert_eq!(text(&run_at(&mut e, &["GET", "foo"], 10)), "$3\r\nbar\r\n");
    assert_eq!(text(&run_at(&mut e, &["GET", "foo"], 1100)), "$-1\r\n");
}
