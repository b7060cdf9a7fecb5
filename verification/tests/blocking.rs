use redis_core::dispatch::Engine;
use redis_core::session::{SessionStep, session_step};

fn frame(args: &[&str]) -> Vec<u8> {
    let mut out = format!("*{}\r\n", args.len()).into_bytes();
    for a in args {
        out.extend(format!("${}\r\n", a.len()).into_bytes());
        out.extend(a.as_bytes().iter().copied());
        out.extend(b"\r\n".iter().copied());
    }
    out
}

fn step(e: &mut Engine, args: &[&str]) -> SessionStep {
    let buf = frame(args);
    session_step(e, &buf, 0, 0)
}

fn reply_of(s: SessionStep) -> Vec<u8> {
    match s {
        SessionStep::Done { reply, .. } => reply,
        _ => panic!("expected a reply"),
    }
}

fn ticket_of(s: SessionStep) -> u64 {
    match s {
        SessionStep::Blocked { ticket, .. } => ticket,
        _ => panic!("expected the session to block"),
    }
}

#[test]
fn lbpop_fast_path_pops_the_head() {
    let mut e = Engine::new();
    assert_eq!(reply_of(step(&mut e, &["RPUSH", "q", "hello", "there"])), b":2\r\n".to_vec());
    assert_eq!(reply_of(step(&mut e, &["LBPOP", "q"])), b"$5\r\nhello\r\n".to_vec());
    assert_eq!(reply_of(step(&mut e, &["LLEN", "q"])), b":1\r\n".to_vec());
}

#[test]
fn lbpop_on_a_string_key_is_a_type_error() {
    let mut e = Engine::new();
    assert_eq!(reply_of(step(&mut e, &["SET", "s", "x"])), b"+OK\r\n".to_vec());
    assert_eq!(
        reply_of(step(&mut e, &["LBPOP", "s"])),
        b"-WRONGTYPE Operation against a key holding the wrong kind of value\r\n".to_vec()
    );
}

#[test]
fn lbpop_rendezvous_hands_the_value_over() {
    // one blocked session, then a push: the waiter gets the element
    // and the list stays empty
    let mut e = Engine::new();
    let t = ticket_of(step(&mut e, &["LBPOP", "q"]));
    match step(&mut e, &["LPUSH", "q", "hello"]) {
        SessionStep::Done { reply, wakes, .. } => {
            assert_eq!(reply, b":1\r\n".to_vec());
            assert_eq!(wakes.len(), 1);
            assert_eq!(wakes[0].ticket, t);
            assert_eq!(wakes[0].value, b"hello".to_vec());
        }
        _ => panic!("expected a reply"),
    }
    assert_eq!(reply_of(step(&mut e, &["LLEN", "q"])), b":0\r\n".to_vec());
    assert_eq!(reply_of(step(&mut e, &["DBSIZE"])), b":0\r\n".to_vec());
}

#[test]
fn waiters_wake_in_fifo_order() {
    // three waiters, two pushed values: the first two waiters get the
    // two heads of the post-push list, in order; the third stays
    let mut e = Engine::new();
    let t1 = ticket_of(step(&mut e, &["LBPOP", "k"]));
    let t2 = ticket_of(step(&mut e, &["LBPOP", "k"]));
    let t3 = ticket_of(step(&mut e, &["LBPOP", "k"]));
    assert!(t1 < t2 && t2 < t3);

    match step(&mut e, &["RPUSH", "k", "one", "two"]) {
        SessionStep::Done { reply, wakes, .. } => {
            assert_eq!(reply, b":2\r\n".to_vec());
            assert_eq!(wakes.len(), 2);
            assert_eq!(wakes[0].ticket, t1);
            assert_eq!(wakes[0].value, b"one".to_vec());
            assert_eq!(wakes[1].ticket, t2);
            assert_eq!(wakes[1].value, b"two".to_vec());
        }
        _ => panic!("expected a reply"),
    }

    // the list is drained; the third waiter is still queued and the
    // next push serves it
    assert_eq!(reply_of(step(&mut e, &["LLEN", "k"])), b":0\r\n".to_vec());
    match step(&mut e, &["RPUSH", "k", "three", "four"]) {
        SessionStep::Done { reply, wakes, .. } => {
            assert_eq!(reply, b":2\r\n".to_vec());
            assert_eq!(wakes.len(), 1);
            assert_eq!(wakes[0].ticket, t3);
            assert_eq!(wakes[0].value, b"three".to_vec());
        }
        _ => panic!("expected a reply"),
    }
    assert_eq!(reply_of(step(&mut e, &["LLEN", "k"])), b":1\r\n".to_vec());
    assert_eq!(
        reply_of(step(&mut e, &["LRANGE", "k", "0", "-1"])),
        b"*1\r\n$4\r\nfour\r\n".to_vec()
    );
}

#[test]
fn lpush_order_matches_wake_order() {
    // LPUSH inserts arguments at the head one by one, so the last
    // argument is the first element and goes to the first waiter
    let mut e = Engine::new();
    let t1 = ticket_of(step(&mut e, &["LBPOP", "k"]));
    match step(&mut e, &["LPUSH", "k", "b", "a"]) {
        SessionStep::Done { reply, wakes, .. } => {
            assert_eq!(reply, b":2\r\n".to_vec());
            assert_eq!(wakes.len(), 1);
            assert_eq!(wakes[0].ticket, t1);
            assert_eq!(wakes[0].value, b"a".to_vec());
        }
        _ => panic!("expected a reply"),
    }
    assert_eq!(
        reply_of(step(&mut e, &["LRANGE", "k", "0", "-1"])),
        b"*1\r\n$1\r\nb\r\n".to_vec()
    );
}

#[test]
fn a_withdrawn_waiter_is_not_woken() {
    let mut e = Engine::new();
    let t1 = ticket_of(step(&mut e, &["LBPOP", "k"]));
    let t2 = ticket_of(step(&mut e, &["LBPOP", "k"]));
    // the first session goes away and deregisters
    e.withdraw_waiter(&b"k".to_vec(), t1);
    match step(&mut e, &["RPUSH", "k", "x"]) {
        SessionStep::Done { wakes, .. } => {
            assert_eq!(wakes.len(), 1);
            assert_eq!(wakes[0].ticket, t2);
            assert_eq!(wakes[0].value, b"x".to_vec());
        }
        _ => panic!("expected a reply"),
    }
}

#[test]
fn push_without_waiters_wakes_nobody() {
    let mut e = Engine::new();
    match step(&mut e, &["RPUSH", "k", "x"]) {
        SessionStep::Done { wakes, .. } => assert_eq!(wakes.len(), 0),
        _ => panic!("expected a reply"),
    }
}
