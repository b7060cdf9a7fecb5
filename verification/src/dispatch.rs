//! The command dispatcher: one engine step per decoded frame.
//!
//! The engine holds the keyspace, the waiter registry and the ticket
//! counter. Each command is one atomic step: the abstract transition
//! is `dispatch_step`, and the executable `dispatch` is proved to
//! implement it exactly — reply bytes, state change and wakeups.
//!
//! A push that finds waiters hands the new list heads over: the
//! dispatcher pops them under the same step and pairs them with the
//! fired tickets in FIFO order; the embedder delivers each value
//! through the channel it keeps for that ticket.

use vstd::prelude::*;
use vstd::string::StrSliceExecFns;
use vstd::string::StringSliceAdditionalSpecFns;

use crate::bytes::bytes_eq;
use crate::bytes::clone_bytes;
use crate::bytes::deep_of;
use crate::codec::put_bytes;
use crate::codec::dec_of;
use crate::codec::enc_array;
use crate::codec::enc_bulk;
use crate::codec::enc_error;
use crate::codec::enc_int;
use crate::codec::enc_nil_bulk;
use crate::codec::enc_simple;
use crate::codec::is_digit;
use crate::codec::lemma_num_val_bound;
use crate::codec::lemma_pow10_19;
use crate::codec::lemma_pow10_monotone;
use crate::codec::num_val;
use crate::codec::pow10;
use crate::codec::put_array;
use crate::codec::put_bulk;
use crate::codec::put_crlf;
use crate::codec::put_error_str;
use crate::codec::put_int;
use crate::codec::put_nil_bulk;
use crate::codec::put_simple_str;
use crate::codec::put_str;
use crate::codec::put_u64;
use crate::store::GetOut;
use crate::store::PopOut;
use crate::store::Store;
use crate::store::get_step;
use crate::store::items_of;
use crate::store::lpop_step;
use crate::store::lrange_step;
use crate::store::llen_step;
use crate::store::push_step;
use crate::store::set_step;
use crate::store::ttl_step;
use crate::value::EntryView;
use crate::waiters::Waiters;
use crate::waiters::dequeue_step;
use crate::waiters::enqueue_step;
use crate::waiters::lemma_dequeue_tickets;
use crate::waiters::lemma_dequeue_unique;
use crate::waiters::lemma_enqueue_tickets;
use crate::waiters::lemma_enqueue_unique;
use crate::waiters::lemma_withdraw_unique;
use crate::waiters::tickets_lt;
use crate::waiters::tickets_unique;

verus! {

broadcast use crate::bytes::lemma_deep_of_vec;

/// Error text for a command with the wrong number of arguments.
pub open spec fn arity_text() -> Seq<u8> {
    "ERR wrong number of arguments for command".spec_bytes()
}

/// Error text for a command applied to the wrong kind of value.
pub open spec fn wrongtype_text() -> Seq<u8> {
    "WRONGTYPE Operation against a key holding the wrong kind of value".spec_bytes()
}

/// Error text for an argument that should have been an integer.
pub open spec fn notint_text() -> Seq<u8> {
    "ERR value is not an integer or out of range".spec_bytes()
}

/// Error text for a blocking pop when every ticket has been issued.
pub open spec fn exhausted_text() -> Seq<u8> {
    "ERR no waiter ticket left".spec_bytes()
}

/// The arguments of an unknown command, each quoted and followed by a
/// comma and a space.
pub open spec fn quoted_args(args: Seq<Seq<u8>>) -> Seq<u8>
    decreases args.len(),
{
    if args.len() == 0 {
        Seq::empty()
    } else {
        seq![39u8] + args[0] + seq![39u8, 44u8, 32u8] + quoted_args(args.drop_first())
    }
}

/// Error text for an unknown command.
pub open spec fn unknown_text(args: Seq<Seq<u8>>) -> Seq<u8> {
    "ERR unknown command '".spec_bytes() + args[0] + "', with args beginning with: ".spec_bytes()
        + quoted_args(args.drop_first())
}

/// ASCII lower case of one byte.
pub open spec fn lower_byte(b: u8) -> u8 {
    if 65 <= b <= 90 {
        (b + 32) as u8
    } else {
        b
    }
}

/// ASCII lower case of a byte string.
pub open spec fn lower(s: Seq<u8>) -> Seq<u8> {
    Seq::new(s.len(), |i: int| lower_byte(s[i]))
}

/// A command argument as a non-negative integer: one to nineteen
/// decimal digits.
pub open spec fn parse_u64_arg(s: Seq<u8>) -> Option<int> {
    if 1 <= s.len() <= 19 && (forall|i: int| 0 <= i < s.len() ==> is_digit(#[trigger] s[i])) {
        Some(num_val(s, 0, s.len() as int))
    } else {
        None
    }
}

/// A command argument as a signed integer: an optional minus sign,
/// then one to eighteen decimal digits.
pub open spec fn parse_i64_arg(s: Seq<u8>) -> Option<int> {
    if s.len() >= 1 && s[0] == 45 {
        if 2 <= s.len() <= 19 && (forall|i: int| 1 <= i < s.len() ==> is_digit(#[trigger] s[i])) {
            Some(-num_val(s, 1, s.len() as int))
        } else {
            None
        }
    } else if 1 <= s.len() <= 18 && (forall|i: int|
        0 <= i < s.len() ==> is_digit(#[trigger] s[i])) {
        Some(num_val(s, 0, s.len() as int))
    } else {
        None
    }
}

/// Abstract engine state: keyspace, waiter queues, next fresh ticket.
pub struct EngineView {
    pub store: Map<Seq<u8>, EntryView>,
    pub waiters: Map<Seq<u8>, Seq<u64>>,
    pub next_ticket: u64,
}

/// Abstract result of a step: an immediate reply, or a suspension on
/// a fresh ticket.
pub enum SpecStep {
    SReply(Seq<u8>),
    SBlock(u64),
}

/// One wakeup: the fired ticket and the value handed to it.
pub struct Wake {
    pub ticket: u64,
    pub value: Vec<u8>,
}

impl DeepView for Wake {
    type V = (u64, Seq<u8>);

    open spec fn deep_view(&self) -> (u64, Seq<u8>) {
        (self.ticket, self.value@)
    }
}

/// A step that only replies.
pub open spec fn reply_only(v: EngineView, r: Seq<u8>) -> (EngineView, SpecStep, Seq<
    (u64, Seq<u8>),
>) {
    (v, SpecStep::SReply(r), Seq::empty())
}

/// `PING`: pong.
pub open spec fn step_ping(v: EngineView, args: Seq<Seq<u8>>) -> (EngineView, SpecStep, Seq<
    (u64, Seq<u8>),
>) {
    if args.len() != 1 {
        reply_only(v, enc_error(arity_text()))
    } else {
        reply_only(v, enc_simple("PONG".spec_bytes()))
    }
}

/// `ECHO`: the argument back as a bulk string.
pub open spec fn step_echo(v: EngineView, args: Seq<Seq<u8>>) -> (EngineView, SpecStep, Seq<
    (u64, Seq<u8>),
>) {
    if args.len() != 2 {
        reply_only(v, enc_error(arity_text()))
    } else {
        reply_only(v, enc_bulk(args[1]))
    }
}

/// `SET k v` or `SET k v <unit> <ms>`: overwrite, with an optional TTL
/// whose unit token is not inspected.
pub open spec fn step_set(v: EngineView, args: Seq<Seq<u8>>, now: u64) -> (EngineView, SpecStep, Seq<
    (u64, Seq<u8>),
>) {
    if args.len() == 3 {
        let st = set_step(v.store, args[1], args[2], None, now);
        (
            EngineView { store: st, ..v },
            SpecStep::SReply(enc_simple("OK".spec_bytes())),
            Seq::empty(),
        )
    } else if args.len() == 5 {
        match parse_u64_arg(args[4]) {
            None => reply_only(v, enc_error(notint_text())),
            Some(ms) => {
                let st = set_step(v.store, args[1], args[2], Some(ms as u64), now);
                (
                    EngineView { store: st, ..v },
                    SpecStep::SReply(enc_simple("OK".spec_bytes())),
                    Seq::empty(),
                )
            },
        }
    } else {
        reply_only(v, enc_error(arity_text()))
    }
}

/// `GET k`: the string value, nil, or a type error; an expired entry
/// is deleted in the same step.
pub open spec fn step_get(v: EngineView, args: Seq<Seq<u8>>, now: u64) -> (EngineView, SpecStep, Seq<
    (u64, Seq<u8>),
>) {
    if args.len() != 2 {
        reply_only(v, enc_error(arity_text()))
    } else {
        let r = get_step(v.store, args[1], now);
        let v2 = EngineView { store: r.0, ..v };
        match r.1 {
            GetOut::Val(s) => reply_only(v2, enc_bulk(s)),
            GetOut::Nil => reply_only(v2, enc_nil_bulk()),
            GetOut::Wrong => reply_only(v2, enc_error(wrongtype_text())),
        }
    }
}

/// `TTL k`: remaining milliseconds as a simple string; `-1` when the
/// key is missing or never expires.
pub open spec fn step_ttl(v: EngineView, args: Seq<Seq<u8>>, now: u64) -> (EngineView, SpecStep, Seq<
    (u64, Seq<u8>),
>) {
    if args.len() != 2 {
        reply_only(v, enc_error(arity_text()))
    } else {
        match ttl_step(v.store, args[1], now) {
            None => reply_only(v, enc_simple(dec_of(-1))),
            Some(ms) => reply_only(v, enc_simple(dec_of(ms))),
        }
    }
}

/// `DBSIZE`: the number of stored entries.
pub open spec fn step_dbsize(v: EngineView, args: Seq<Seq<u8>>) -> (EngineView, SpecStep, Seq<
    (u64, Seq<u8>),
>) {
    if args.len() != 1 {
        reply_only(v, enc_error(arity_text()))
    } else {
        reply_only(v, enc_int(v.store.dom().len() as int))
    }
}

/// `RPUSH`/`LPUSH`: push, then hand the new heads to the waiters that
/// were first in line, one head per fired ticket.
pub open spec fn step_push(v: EngineView, args: Seq<Seq<u8>>, now: u64, at_front: bool) -> (
    EngineView,
    SpecStep,
    Seq<(u64, Seq<u8>)>,
) {
    if args.len() < 3 {
        reply_only(v, enc_error(arity_text()))
    } else {
        let vals = args.skip(2);
        let pr = push_step(v.store, args[1], vals, now, at_front);
        match pr.1 {
            Err(_) => reply_only(v, enc_error(wrongtype_text())),
            Ok(len) => {
                let dq = dequeue_step(v.waiters, args[1], vals.len() as int);
                let fired = dq.1;
                let po = lpop_step(pr.0, args[1], fired.len() as int);
                let popped = match po.1 {
                    PopOut::Popped(p) => p,
                    _ => Seq::empty(),
                };
                let wakes = Seq::new(fired.len(), |i: int| (fired[i], popped[i]));
                (
                    EngineView { store: po.0, waiters: dq.0, ..v },
                    SpecStep::SReply(enc_int(len)),
                    wakes,
                )
            },
        }
    }
}

/// The pop count an argument asks for, saturated to the machine limit.
pub open spec fn count_of(n: int) -> int {
    if n > usize::MAX {
        usize::MAX as int
    } else {
        n
    }
}

/// `LPOP k` or `LPOP k count`: one head as a bulk string, or up to
/// `count` heads as an array; nil when nothing was popped.
pub open spec fn step_lpop(v: EngineView, args: Seq<Seq<u8>>) -> (EngineView, SpecStep, Seq<
    (u64, Seq<u8>),
>) {
    if args.len() != 2 && args.len() != 3 {
        reply_only(v, enc_error(arity_text()))
    } else if args.len() == 3 && parse_u64_arg(args[2]) is None {
        reply_only(v, enc_error(notint_text()))
    } else {
        let cnt = if args.len() == 2 {
            1
        } else {
            count_of(parse_u64_arg(args[2])->Some_0)
        };
        let r = lpop_step(v.store, args[1], cnt);
        let v2 = EngineView { store: r.0, ..v };
        match r.1 {
            PopOut::Missing => reply_only(v2, enc_nil_bulk()),
            PopOut::Wrong => reply_only(v2, enc_error(wrongtype_text())),
            PopOut::Popped(p) => {
                if p.len() == 0 {
                    reply_only(v2, enc_nil_bulk())
                } else if args.len() == 2 {
                    reply_only(v2, enc_bulk(p[0]))
                } else {
                    reply_only(v2, enc_array(p))
                }
            },
        }
    }
}

/// `LLEN k`: list length, zero when missing.
pub open spec fn step_llen(v: EngineView, args: Seq<Seq<u8>>) -> (EngineView, SpecStep, Seq<
    (u64, Seq<u8>),
>) {
    if args.len() != 2 {
        reply_only(v, enc_error(arity_text()))
    } else {
        match llen_step(v.store, args[1]) {
            Ok(n) => reply_only(v, enc_int(n)),
            Err(_) => reply_only(v, enc_error(wrongtype_text())),
        }
    }
}

/// `LRANGE k start stop`: the clamped inclusive slice as an array.
pub open spec fn step_lrange(v: EngineView, args: Seq<Seq<u8>>) -> (EngineView, SpecStep, Seq<
    (u64, Seq<u8>),
>) {
    if args.len() != 4 {
        reply_only(v, enc_error(arity_text()))
    } else if parse_i64_arg(args[2]) is None || parse_i64_arg(args[3]) is None {
        reply_only(v, enc_error(notint_text()))
    } else {
        match lrange_step(
            v.store,
            args[1],
            parse_i64_arg(args[2])->Some_0,
            parse_i64_arg(args[3])->Some_0,
        ) {
            Ok(items) => reply_only(v, enc_array(items)),
            Err(_) => reply_only(v, enc_error(wrongtype_text())),
        }
    }
}

/// `LBPOP k`: pop the head when the key holds a list; otherwise
/// suspend on a fresh ticket appended to the key's FIFO queue.
pub open spec fn step_lbpop(v: EngineView, args: Seq<Seq<u8>>) -> (EngineView, SpecStep, Seq<
    (u64, Seq<u8>),
>) {
    if args.len() != 2 {
        reply_only(v, enc_error(arity_text()))
    } else if v.store.dom().contains(args[1]) {
        if v.store[args[1]].data is List {
            let r = lpop_step(v.store, args[1], 1);
            let v2 = EngineView { store: r.0, ..v };
            match r.1 {
                PopOut::Popped(p) => {
                    if p.len() == 0 {
                        reply_only(v2, enc_nil_bulk())
                    } else {
                        reply_only(v2, enc_bulk(p[0]))
                    }
                },
                _ => reply_only(v2, enc_nil_bulk()),
            }
        } else {
            reply_only(v, enc_error(wrongtype_text()))
        }
    } else if v.next_ticket == u64::MAX {
        reply_only(v, enc_error(exhausted_text()))
    } else {
        (
            EngineView {
                waiters: enqueue_step(v.waiters, args[1], v.next_ticket),
                next_ticket: (v.next_ticket + 1) as u64,
                ..v
            },
            SpecStep::SBlock(v.next_ticket),
            Seq::empty(),
        )
    }
}

/// One engine step: dispatch on the lower-cased command name.
pub open spec fn dispatch_step(v: EngineView, args: Seq<Seq<u8>>, now: u64) -> (EngineView, SpecStep, Seq<
    (u64, Seq<u8>),
>)
    recommends
        args.len() >= 1,
{
    let name = lower(args[0]);
    if name == "ping".spec_bytes() {
        step_ping(v, args)
    } else if name == "echo".spec_bytes() {
        step_echo(v, args)
    } else if name == "client".spec_bytes() {
        reply_only(v, enc_simple("OK".spec_bytes()))
    } else if name == "set".spec_bytes() {
        step_set(v, args, now)
    } else if name == "get".spec_bytes() {
        step_get(v, args, now)
    } else if name == "ttl".spec_bytes() {
        step_ttl(v, args, now)
    } else if name == "dbsize".spec_bytes() {
        step_dbsize(v, args)
    } else if name == "rpush".spec_bytes() {
        step_push(v, args, now, false)
    } else if name == "lpush".spec_bytes() {
        step_push(v, args, now, true)
    } else if name == "lpop".spec_bytes() {
        step_lpop(v, args)
    } else if name == "llen".spec_bytes() {
        step_llen(v, args)
    } else if name == "lrange".spec_bytes() {
        step_lrange(v, args)
    } else if name == "lbpop".spec_bytes() {
        step_lbpop(v, args)
    } else {
        reply_only(v, enc_error(unknown_text(args)))
    }
}

/// ASCII lower case of a byte string.
fn to_lower(v: &Vec<u8>) -> (r: Vec<u8>)
    ensures
        r@ == lower(v@),
{
    let mut r: Vec<u8> = Vec::new();
    let mut i: usize = 0;
    while i < v.len()
        invariant
            i <= v@.len(),
            r@.len() == i,
            forall|x: int| 0 <= x < i ==> r@[x] == lower_byte(v@[x]),
        decreases v@.len() - i,
    {
        let b = v[i];
        if 65 <= b && b <= 90 {
            r.push(b + 32);
        } else {
            r.push(b);
        }
        i += 1;
    }
    proof {
        assert(r@ =~= lower(v@));
    }
    r
}

/// Whether a byte string equals the bytes of an ASCII text.
fn eq_str(a: &Vec<u8>, s: &str) -> (r: bool)
    ensures
        r == (a@ == s.spec_bytes()),
{
    let b = s.as_bytes_vec();
    bytes_eq(a, &b)
}

/// Parse a command argument as a non-negative integer, exactly as
/// `parse_u64_arg` describes.
fn parse_u64_vec(s: &Vec<u8>) -> (r: Option<u64>)
    ensures
        match r {
            Some(v) => parse_u64_arg(s@) == Some(v as int),
            None => parse_u64_arg(s@) is None,
        },
{
    if s.len() < 1 || s.len() > 19 {
        return None;
    }
    let mut v: u64 = 0;
    let mut p: usize = 0;
    proof {
        lemma_pow10_19();
    }
    while p < s.len()
        invariant
            p <= s@.len(),
            s@.len() <= 19,
            forall|x: int| 0 <= x < p ==> is_digit(#[trigger] s@[x]),
            v == num_val(s@, 0, p as int),
            pow10(19) == 10_000_000_000_000_000_000,
        decreases s@.len() - p,
    {
        let b = s[p];
        if b < 48 || b > 57 {
            proof {
                assert(!is_digit(s@[p as int]));
            }
            return None;
        }
        proof {
            lemma_num_val_bound(s@, 0, p as int);
            lemma_pow10_monotone(p as nat, 18);
            assert(pow10(19) == 10 * pow10(18));
        }
        v = v * 10 + ((b - 48) as u64);
        p += 1;
    }
    Some(v)
}

/// Parse a command argument as a signed integer, exactly as
/// `parse_i64_arg` describes.
fn parse_i64_vec(s: &Vec<u8>) -> (r: Option<i64>)
    ensures
        match r {
            Some(v) => parse_i64_arg(s@) == Some(v as int),
            None => parse_i64_arg(s@) is None,
        },
{
    if s.len() >= 1 && s[0] == 45 {
        if s.len() < 2 || s.len() > 19 {
            return None;
        }
        let mut v: u64 = 0;
        let mut p: usize = 1;
        proof {
            lemma_pow10_19();
        }
        while p < s.len()
            invariant
                1 <= p <= s@.len(),
                2 <= s@.len() <= 19,
                s@[0] == 45,
                forall|x: int| 1 <= x < p ==> is_digit(#[trigger] s@[x]),
                v == num_val(s@, 1, p as int),
                pow10(19) == 10_000_000_000_000_000_000,
            decreases s@.len() - p,
        {
            let b = s[p];
            if b < 48 || b > 57 {
                proof {
                    assert(!is_digit(s@[p as int]));
                }
                return None;
            }
            proof {
                lemma_num_val_bound(s@, 1, p as int);
                lemma_pow10_monotone((p - 1) as nat, 18);
                assert(pow10(19) == 10 * pow10(18));
            }
            v = v * 10 + ((b - 48) as u64);
            p += 1;
        }
        proof {
            lemma_num_val_bound(s@, 1, s@.len() as int);
            lemma_pow10_monotone((s@.len() - 1) as nat, 18);
            assert(pow10(19) == 10 * pow10(18));
        }
        Some(-(v as i64))
    } else {
        if s.len() < 1 || s.len() > 18 {
            return None;
        }
        let mut v: u64 = 0;
        let mut p: usize = 0;
        proof {
            lemma_pow10_19();
        }
        while p < s.len()
            invariant
                p <= s@.len(),
                1 <= s@.len() <= 18,
                s@[0] != 45,
                forall|x: int| 0 <= x < p ==> is_digit(#[trigger] s@[x]),
                v == num_val(s@, 0, p as int),
                pow10(19) == 10_000_000_000_000_000_000,
            decreases s@.len() - p,
        {
            let b = s[p];
            if b < 48 || b > 57 {
                proof {
                    assert(!is_digit(s@[p as int]));
                }
                return None;
            }
            proof {
                lemma_num_val_bound(s@, 0, p as int);
                lemma_pow10_monotone(p as nat, 17);
                assert(pow10(19) == 10 * pow10(18));
                assert(pow10(18) == 10 * pow10(17));
            }
            v = v * 10 + ((b - 48) as u64);
            p += 1;
        }
        proof {
            lemma_num_val_bound(s@, 0, s@.len() as int);
            lemma_pow10_monotone(s@.len() as nat, 18);
            assert(pow10(19) == 10 * pow10(18));
        }
        Some(v as i64)
    }
}

/// Immediate reply or suspension on a ticket.
pub enum Step {
    Reply(Vec<u8>),
    Block(u64),
}

/// No wakeups.
fn no_wakes() -> (r: Vec<Wake>)
    ensures
        r.deep_view() == Seq::<(u64, Seq<u8>)>::empty(),
{
    let r: Vec<Wake> = Vec::new();
    proof {
        assert(r.deep_view() =~= Seq::<(u64, Seq<u8>)>::empty());
    }
    r
}

/// An error reply from a fixed text.
fn reply_error(t: &str) -> (r: Vec<u8>)
    ensures
        r@ == enc_error(t.spec_bytes()),
{
    let mut out: Vec<u8> = Vec::new();
    put_error_str(&mut out, t);
    proof {
        assert(out@ =~= enc_error(t.spec_bytes()));
    }
    out
}

/// A simple-string reply from a fixed text.
fn reply_simple(t: &str) -> (r: Vec<u8>)
    ensures
        r@ == enc_simple(t.spec_bytes()),
{
    let mut out: Vec<u8> = Vec::new();
    put_simple_str(&mut out, t);
    proof {
        assert(out@ =~= enc_simple(t.spec_bytes()));
    }
    out
}


/// A nil-bulk reply.
fn reply_nil() -> (r: Vec<u8>)
    ensures
        r@ == enc_nil_bulk(),
{
    let mut out: Vec<u8> = Vec::new();
    put_nil_bulk(&mut out);
    proof {
        assert(out@ =~= enc_nil_bulk());
    }
    out
}

/// An integer reply.
fn reply_int(n: u64) -> (r: Vec<u8>)
    ensures
        r@ == enc_int(n as int),
{
    let mut out: Vec<u8> = Vec::new();
    put_int(&mut out, n);
    proof {
        assert(out@ =~= enc_int(n as int));
    }
    out
}

/// A bulk-string reply.
fn reply_bulk(b: &Vec<u8>) -> (r: Vec<u8>)
    ensures
        r@ == enc_bulk(b@),
{
    let mut out: Vec<u8> = Vec::new();
    put_bulk(&mut out, b);
    proof {
        assert(out@ =~= enc_bulk(b@));
    }
    out
}

/// An array reply.
fn reply_array(items: &Vec<Vec<u8>>) -> (r: Vec<u8>)
    ensures
        r@ == enc_array(items.deep_view()),
{
    let mut out: Vec<u8> = Vec::new();
    put_array(&mut out, items);
    proof {
        assert(out@ =~= enc_array(items.deep_view()));
    }
    out
}

/// The TTL reply: remaining milliseconds, or `-1`, as a simple string.
fn reply_ttl(ms: Option<u64>) -> (r: Vec<u8>)
    ensures
        match ms {
            None => r@ == enc_simple(dec_of(-1)),
            Some(m) => r@ == enc_simple(dec_of(m as int)),
        },
{
    let mut out: Vec<u8> = Vec::new();
    out.push(43);
    match ms {
        None => {
            out.push(45);
            out.push(49);
            proof {
                assert(crate::codec::dec_digits(0) == Seq::<u8>::empty());
                assert(crate::codec::dec_digits(1) =~= seq![49u8]);
                assert(dec_of(-1) =~= seq![45u8, 49u8]);
            }
        },
        Some(m) => {
            put_u64(&mut out, m);
        },
    }
    put_crlf(&mut out);
    proof {
        match ms {
            None => {
                assert(out@ =~= enc_simple(dec_of(-1)));
            },
            Some(m) => {
                assert(out@ =~= enc_simple(dec_of(m as int)));
            },
        }
    }
    out
}

/// One more argument extends the quoted run at the back.
proof fn lemma_quoted_push(args: Seq<Seq<u8>>, x: Seq<u8>)
    ensures
        quoted_args(args.push(x)) == quoted_args(args) + (seq![39u8] + x + seq![39u8, 44u8, 32u8]),
    decreases args.len(),
{
    let piece = seq![39u8] + x + seq![39u8, 44u8, 32u8];
    if args.len() == 0 {
        assert(args.push(x)[0] == x);
        assert(args.push(x).drop_first() =~= Seq::<Seq<u8>>::empty());
        assert(quoted_args(args.push(x)) == seq![39u8] + x + seq![39u8, 44u8, 32u8] + quoted_args(
            args.push(x).drop_first(),
        ));
        assert(seq![39u8] + x + seq![39u8, 44u8, 32u8] + Seq::<u8>::empty() =~= piece);
        assert(Seq::<u8>::empty() + piece =~= piece);
    } else {
        assert(args.push(x)[0] == args[0]);
        assert(args.push(x).drop_first() =~= args.drop_first().push(x));
        assert(quoted_args(args.push(x)) == seq![39u8] + args[0] + seq![39u8, 44u8, 32u8]
            + quoted_args(args.drop_first().push(x)));
        assert(quoted_args(args) == seq![39u8] + args[0] + seq![39u8, 44u8, 32u8] + quoted_args(
            args.drop_first(),
        ));
        lemma_quoted_push(args.drop_first(), x);
        assert(seq![39u8] + args[0] + seq![39u8, 44u8, 32u8] + (quoted_args(args.drop_first())
            + piece) =~= (seq![39u8] + args[0] + seq![39u8, 44u8, 32u8] + quoted_args(
            args.drop_first(),
        )) + piece);
    }
}
/// The engine: keyspace, waiter registry and ticket counter, driven
/// one command at a time.
pub struct Engine {
    store: Store,
    waiters: Waiters,
    next_ticket: u64,
}

impl View for Engine {
    type V = EngineView;

    closed spec fn view(&self) -> EngineView {
        EngineView {
            store: self.store@,
            waiters: self.waiters@,
            next_ticket: self.next_ticket,
        }
    }
}

impl Engine {
    /// Keyspace and registry are well formed, and every queued ticket
    /// is below the next fresh one.
    pub closed spec fn wf(self) -> bool {
        &&& self.store.wf()
        &&& self.waiters.wf()
        &&& tickets_lt(self.waiters@, self.next_ticket)
        &&& tickets_unique(self.waiters@)
    }

    /// Tickets are at-most-once handles: no ticket sits in two queue
    /// positions, and a fresh ticket collides with none in a queue.
    pub proof fn lemma_tickets_fresh(&self)
        requires
            self.wf(),
        ensures
            tickets_unique(self@.waiters),
            tickets_lt(self@.waiters, self@.next_ticket),
    {
    }

    /// Fresh engine: empty keyspace, no waiters, tickets from zero.
    pub fn new() -> (r: Engine)
        ensures
            r.wf(),
            r@.store == Map::<Seq<u8>, EntryView>::empty(),
            r@.waiters == Map::<Seq<u8>, Seq<u64>>::empty(),
            r@.next_ticket == 0,
    {
        Engine { store: Store::new(), waiters: Waiters::new(), next_ticket: 0 }
    }

    /// One command: the reply or suspension, and the wakeups to
    /// deliver, exactly as `dispatch_step` describes.
    pub fn dispatch(&mut self, args: Vec<Vec<u8>>, now: u64) -> (r: (Step, Vec<Wake>))
        requires
            old(self).wf(),
            args@.len() >= 1,
        ensures
            final(self).wf(),
            ({
                let s = dispatch_step(old(self)@, args.deep_view(), now);
                &&& final(self)@ == s.0
                &&& (match r.0 {
                    Step::Reply(b) => s.1 == SpecStep::SReply(b@),
                    Step::Block(t) => s.1 == SpecStep::SBlock(t),
                })
                &&& r.1.deep_view() == s.2
            }),
    {
        let ghost dv = args.deep_view();
        proof {
            assert(dv.len() == args@.len());
            assert(forall|i: int| 0 <= i < dv.len() ==> dv[i] == (#[trigger] args@[i])@);
        }
        let name = to_lower(&args[0]);
        if eq_str(&name, "ping") {
            if args.len() != 1 {
                return (
                    Step::Reply(reply_error("ERR wrong number of arguments for command")),
                    no_wakes(),
                );
            }
            (Step::Reply(reply_simple("PONG")), no_wakes())
        } else if eq_str(&name, "echo") {
            if args.len() != 2 {
                return (
                    Step::Reply(reply_error("ERR wrong number of arguments for command")),
                    no_wakes(),
                );
            }
            (Step::Reply(reply_bulk(&args[1])), no_wakes())
        } else if eq_str(&name, "client") {
            (Step::Reply(reply_simple("OK")), no_wakes())
        } else if eq_str(&name, "set") {
            if args.len() == 3 {
                let k = clone_bytes(&args[1]);
                let v = clone_bytes(&args[2]);
                self.store.set(k, v, None, now);
                (Step::Reply(reply_simple("OK")), no_wakes())
            } else if args.len() == 5 {
                match parse_u64_vec(&args[4]) {
                    None => (
                        Step::Reply(reply_error("ERR value is not an integer or out of range")),
                        no_wakes(),
                    ),
                    Some(ms) => {
                        let k = clone_bytes(&args[1]);
                        let v = clone_bytes(&args[2]);
                        self.store.set(k, v, Some(ms), now);
                        (Step::Reply(reply_simple("OK")), no_wakes())
                    },
                }
            } else {
                (Step::Reply(reply_error("ERR wrong number of arguments for command")), no_wakes())
            }
        } else if eq_str(&name, "get") {
            if args.len() != 2 {
                return (
                    Step::Reply(reply_error("ERR wrong number of arguments for command")),
                    no_wakes(),
                );
            }
            match self.store.get(&args[1], now) {
                Ok(Some(v)) => (Step::Reply(reply_bulk(&v)), no_wakes()),
                Ok(None) => (Step::Reply(reply_nil()), no_wakes()),
                Err(_) => (
                    Step::Reply(
                        reply_error(
                            "WRONGTYPE Operation against a key holding the wrong kind of value",
                        ),
                    ),
                    no_wakes(),
                ),
            }
        } else if eq_str(&name, "ttl") {
            if args.len() != 2 {
                return (
                    Step::Reply(reply_error("ERR wrong number of arguments for command")),
                    no_wakes(),
                );
            }
            (Step::Reply(reply_ttl(self.store.ttl_remaining(&args[1], now))), no_wakes())
        } else if eq_str(&name, "dbsize") {
            if args.len() != 1 {
                return (
                    Step::Reply(reply_error("ERR wrong number of arguments for command")),
                    no_wakes(),
                );
            }
            let n = self.store.dbsize();
            (Step::Reply(reply_int(n as u64)), no_wakes())
        } else if eq_str(&name, "rpush") {
            self.do_push(args, now, false)
        } else if eq_str(&name, "lpush") {
            self.do_push(args, now, true)
        } else if eq_str(&name, "lpop") {
            if args.len() != 2 && args.len() != 3 {
                return (
                    Step::Reply(reply_error("ERR wrong number of arguments for command")),
                    no_wakes(),
                );
            }
            let explicit = args.len() == 3;
            let cnt: usize;
            if explicit {
                match parse_u64_vec(&args[2]) {
                    None => {
                        return (
                            Step::Reply(reply_error("ERR value is not an integer or out of range")),
                            no_wakes(),
                        );
                    },
                    Some(c) => {
                        cnt = if c > usize::MAX as u64 {
                            usize::MAX
                        } else {
                            c as usize
                        };
                    },
                }
            } else {
                cnt = 1;
            }
            match self.store.lpop(&args[1], cnt) {
                Ok(None) => (Step::Reply(reply_nil()), no_wakes()),
                Err(_) => (
                    Step::Reply(
                        reply_error(
                            "WRONGTYPE Operation against a key holding the wrong kind of value",
                        ),
                    ),
                    no_wakes(),
                ),
                Ok(Some(p)) => {
                    if p.len() == 0 {
                        (Step::Reply(reply_nil()), no_wakes())
                    } else if !explicit {
                        proof {
                            assert(p.deep_view()[0] == p@[0]@);
                        }
                        (Step::Reply(reply_bulk(&p[0])), no_wakes())
                    } else {
                        (Step::Reply(reply_array(&p)), no_wakes())
                    }
                },
            }
        } else if eq_str(&name, "llen") {
            if args.len() != 2 {
                return (
                    Step::Reply(reply_error("ERR wrong number of arguments for command")),
                    no_wakes(),
                );
            }
            match self.store.llen(&args[1]) {
                Ok(n) => (Step::Reply(reply_int(n as u64)), no_wakes()),
                Err(_) => (
                    Step::Reply(
                        reply_error(
                            "WRONGTYPE Operation against a key holding the wrong kind of value",
                        ),
                    ),
                    no_wakes(),
                ),
            }
        } else if eq_str(&name, "lrange") {
            if args.len() != 4 {
                return (
                    Step::Reply(reply_error("ERR wrong number of arguments for command")),
                    no_wakes(),
                );
            }
            let s0 = parse_i64_vec(&args[2]);
            let e0 = parse_i64_vec(&args[3]);
            match (s0, e0) {
                (Some(a), Some(b)) => {
                    match self.store.lrange(&args[1], a, b) {
                        Ok(items) => (Step::Reply(reply_array(&items)), no_wakes()),
                        Err(_) => (
                            Step::Reply(
                                reply_error(
                                    "WRONGTYPE Operation against a key holding the wrong kind of value",
                                ),
                            ),
                            no_wakes(),
                        ),
                    }
                },
                _ => (
                    Step::Reply(reply_error("ERR value is not an integer or out of range")),
                    no_wakes(),
                ),
            }
        } else if eq_str(&name, "lbpop") {
            if args.len() != 2 {
                return (
                    Step::Reply(reply_error("ERR wrong number of arguments for command")),
                    no_wakes(),
                );
            }
            match self.store.llen(&args[1]) {
                Err(_) => (
                    Step::Reply(
                        reply_error(
                            "WRONGTYPE Operation against a key holding the wrong kind of value",
                        ),
                    ),
                    no_wakes(),
                ),
                Ok(n) => {
                    if n > 0 {
                        match self.store.lpop(&args[1], 1) {
                            Ok(Some(p)) => {
                                if p.len() == 0 {
                                    (Step::Reply(reply_nil()), no_wakes())
                                } else {
                                    proof {
                                        assert(p.deep_view()[0] == p@[0]@);
                                    }
                                    (Step::Reply(reply_bulk(&p[0])), no_wakes())
                                }
                            },
                            _ => {
                                proof {
                                    assert(false);
                                }
                                (Step::Reply(reply_nil()), no_wakes())
                            },
                        }
                    } else {
                        proof {
                            self.store.lemma_lists_nonempty();
                        }
                        if self.next_ticket == u64::MAX {
                            (Step::Reply(reply_error("ERR no waiter ticket left")), no_wakes())
                        } else {
                            let t = self.next_ticket;
                            let ghost w0 = self.waiters@;
                            self.waiters.enqueue(&args[1], t);
                            proof {
                                lemma_enqueue_tickets(w0, args@[1]@, t, (t + 1) as u64);
                                lemma_enqueue_unique(w0, args@[1]@, t);
                            }
                            self.next_ticket = t + 1;
                            (Step::Block(t), no_wakes())
                        }
                    }
                },
            }
        } else {
            let mut out: Vec<u8> = Vec::new();
            out.push(45);
            put_str(&mut out, "ERR unknown command '");
            put_bytes(&mut out, &args[0]);
            put_str(&mut out, "', with args beginning with: ");
            let ghost tail = dv.drop_first();
            let ghost base = out@;
            let mut i: usize = 1;
            proof {
                assert(quoted_args(tail.take(0)) == Seq::<u8>::empty());
                assert(out@ =~= base + quoted_args(tail.take(0)));
            }
            while i < args.len()
                invariant
                    1 <= i <= args@.len(),
                    dv == args.deep_view(),
                    dv.len() == args@.len(),
                    tail == dv.drop_first(),
                    out@ == base + quoted_args(tail.take(i - 1)),
                decreases args@.len() - i,
            {
                out.push(39);
                put_bytes(&mut out, &args[i]);
                out.push(39);
                out.push(44);
                out.push(32);
                i += 1;
                proof {
                    assert(tail.take(i - 1) =~= tail.take(i - 2).push(tail[i - 2]));
                    lemma_quoted_push(tail.take(i - 2), tail[i - 2]);
                    assert(tail[i - 2] == dv[i - 1]);
                    assert(dv[i - 1] == args@[i - 1]@);
                    assert(out@ =~= base + quoted_args(tail.take(i - 1)));
                }
            }
            put_crlf(&mut out);
            proof {
                assert(tail.take(tail.len() as int) =~= tail);
                assert(out@ =~= enc_error(unknown_text(dv)));
            }
            (Step::Reply(out), no_wakes())
        }
    }

    /// `RPUSH`/`LPUSH`: push the values, then hand the new heads over
    /// to the waiters that were first in line.
    fn do_push(&mut self, args: Vec<Vec<u8>>, now: u64, at_front: bool) -> (r: (Step, Vec<Wake>))
        requires
            old(self).wf(),
            args@.len() >= 1,
        ensures
            final(self).wf(),
            ({
                let s = step_push(old(self)@, args.deep_view(), now, at_front);
                &&& final(self)@ == s.0
                &&& (match r.0 {
                    Step::Reply(b) => s.1 == SpecStep::SReply(b@),
                    Step::Block(t) => s.1 == SpecStep::SBlock(t),
                })
                &&& r.1.deep_view() == s.2
            }),
    {
        let ghost dv = args.deep_view();
        let ghost argsv = args@;
        let ghost v0 = self@;
        proof {
            assert(dv.len() == args@.len());
            assert(forall|i: int| 0 <= i < dv.len() ==> dv[i] == (#[trigger] argsv[i])@);
        }
        if args.len() < 3 {
            return (
                Step::Reply(reply_error("ERR wrong number of arguments for command")),
                no_wakes(),
            );
        }
        let k = clone_bytes(&args[1]);
        let mut a = args;
        let vals = a.split_off(2);
        proof {
            assert forall|i: int| 0 <= i < vals@.len() implies deep_of(vals@)[i] == dv.skip(2)[i] by {
                assert(vals@[i] == argsv[i + 2]);
                assert(deep_of(vals@)[i] == vals@[i]@);
                assert(dv[i + 2] == argsv[i + 2]@);
            }
            assert(deep_of(vals@) =~= dv.skip(2));
        }
        let n_vals = vals.len();
        match self.store.push(&k, vals, now, at_front) {
            Err(_) => (
                Step::Reply(
                    reply_error(
                        "WRONGTYPE Operation against a key holding the wrong kind of value",
                    ),
                ),
                no_wakes(),
            ),
            Ok(len) => {
                let ghost st1 = push_step(v0.store, dv[1], dv.skip(2), now, at_front).0;
                let fired = self.waiters.dequeue_upto(&k, n_vals);
                proof {
                    lemma_dequeue_tickets(v0.waiters, k@, n_vals as int, self.next_ticket);
                    lemma_dequeue_unique(v0.waiters, k@, n_vals as int);
                    assert(fired@.len() <= n_vals);
                    assert(st1.dom().contains(k@));
                    assert(items_of(st1[k@].data).len() >= n_vals);
                }
                let fcount = fired.len();
                let mut popped: Vec<Vec<u8>>;
                match self.store.lpop(&k, fcount) {
                    Ok(Some(p)) => {
                        popped = p;
                    },
                    _ => {
                        proof {
                            assert(false);
                        }
                        popped = Vec::new();
                    },
                }
                let ghost popped_dv = popped.deep_view();
                let ghost tw = Seq::new(fired@.len() as nat, |i: int| (fired@[i], popped_dv[i]));
                proof {
                    assert(popped_dv.len() == fcount as int);
                }
                let mut wakes: Vec<Wake> = Vec::new();
                let mut rest = popped;
                let mut i: usize = 0;
                proof {
                    assert(wakes.deep_view() =~= tw.take(0));
                    assert(rest.deep_view() =~= popped_dv.skip(0));
                }
                while i < fcount
                    invariant
                        i <= fcount,
                        fcount == fired@.len(),
                        popped_dv.len() == fcount as int,
                        tw == Seq::new(fired@.len() as nat, |x: int| (fired@[x], popped_dv[x])),
                        rest@.len() == fcount - i,
                        deep_of(rest@) == popped_dv.skip(i as int),
                        wakes.deep_view() == tw.take(i as int),
                    decreases fcount - i,
                {
                    let ghost rest0 = rest@;
                    let ghost wakes0 = wakes@;
                    let ghost wdv0 = wakes.deep_view();
                    let v = rest.remove(0);
                    let t = fired[i];
                    wakes.push(Wake { ticket: t, value: v });
                    i += 1;
                    proof {
                        assert forall|x: int|
                            0 <= x < rest@.len() implies deep_of(rest@)[x] == popped_dv.skip(
                            i as int,
                        )[x] by {
                            assert(rest@[x] == rest0[x + 1]);
                            assert(deep_of(rest0)[x + 1] == rest0[x + 1]@);
                        }
                        assert(deep_of(rest@) =~= popped_dv.skip(i as int));
                        assert(deep_of(rest0)[0] == rest0[0]@);
                        assert(v@ == popped_dv[i as int - 1]);
                        assert(wdv0.len() == wakes0.len());
                        assert(wakes0.len() == i as int - 1);
                        assert(wakes@.len() == i as int);
                        assert(tw.len() == fcount as int);
                        assert forall|x: int|
                            0 <= x < wakes@.len() implies wakes@[x].deep_view() == tw.take(
                            i as int,
                        )[x] by {
                            if x < wakes0.len() {
                                assert(wakes@[x] == wakes0[x]);
                                assert(wdv0[x] == wakes0[x].deep_view());
                                assert(wdv0[x] == tw.take(i as int - 1)[x]);
                            } else {
                                assert(wakes@[x] == Wake { ticket: t, value: v });
                                assert(tw[x] == (fired@[x], popped_dv[x]));
                            }
                        }
                        assert(wakes.deep_view() =~= tw.take(i as int));
                    }
                }
                proof {
                    assert(tw.take(tw.len() as int) =~= tw);
                }
                (Step::Reply(reply_int(len as u64)), wakes)
            },
        }
    }
    /// Best-effort de-registration of a waiter at session teardown:
    /// the ticket leaves the queue for `k` if it is still there.
    pub fn withdraw_waiter(&mut self, k: &Vec<u8>, ticket: u64)
        requires
            old(self).wf(),
        ensures
            final(self).wf(),
            final(self)@.store == old(self)@.store,
            final(self)@.next_ticket == old(self)@.next_ticket,
            final(self)@.waiters == crate::waiters::withdraw_step(old(self)@.waiters, k@, ticket),
    {
        let ghost w0 = self.waiters@;
        self.waiters.withdraw(k, ticket);
        proof {
            crate::waiters::lemma_withdraw_tickets(w0, k@, ticket, self.next_ticket);
            lemma_withdraw_unique(w0, k@, ticket);
        }
    }
}

} // verus!
