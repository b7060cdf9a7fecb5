//! One step of the per-connection session loop.
//!
//! The embedder owns the socket and a read buffer; it appends the
//! bytes it reads and calls `session_step` while frames are complete.
//! Everything the loop decides — framing, dispatch, the reply, which
//! waiters to wake, when to close — happens here; the embedder only
//! moves bytes and parks blocked sessions on their tickets.

use vstd::prelude::*;
use vstd::string::StringSliceAdditionalSpecFns;

use crate::bytes::clone_bytes;
use crate::codec::Decoded;
use crate::codec::SpecFrame;
use crate::codec::decode_frame;
use crate::codec::enc_error;
use crate::codec::lemma_elems_len;
use crate::codec::lemma_spec_num_bounds;
use crate::codec::put_error_str;
use crate::codec::spec_decode;
use crate::codec::spec_num;
use crate::codec::NumTok;
use crate::dispatch::Engine;
use crate::dispatch::SpecStep;
use crate::dispatch::Step;
use crate::dispatch::Wake;
use crate::dispatch::dispatch_step;

verus! {

/// Only a blocking pop suspends, and it carries its key as the second
/// argument.
proof fn lemma_block_needs_key(v: crate::dispatch::EngineView, args: Seq<Seq<u8>>, now: u64)
    requires
        args.len() >= 1,
    ensures
        dispatch_step(v, args, now).1 is SBlock ==> args.len() >= 2,
{
}

/// Error text sent before closing a session on a malformed frame.
pub open spec fn protocol_error_text() -> Seq<u8> {
    "ERR protocol error".spec_bytes()
}

/// What one session step decided.
pub enum SessionStep {
    /// The buffer holds no complete frame: read more bytes.
    NeedMore,
    /// The bytes are not a well-formed frame: send this reply and
    /// close the connection.
    Close(Vec<u8>),
    /// A command was executed: send the reply, deliver the wakeups,
    /// and drop `used` bytes of input.
    Done { reply: Vec<u8>, wakes: Vec<Wake>, used: usize },
    /// A blocking pop suspended: drop `used` bytes of input and park
    /// the session on the ticket; `key` is the list the pop waits on.
    Blocked { ticket: u64, key: Vec<u8>, used: usize },
}

/// A well-formed frame holds at least one argument.
proof fn lemma_frame_nonempty(s: Seq<u8>, start: int)
    requires
        0 <= start <= s.len(),
    ensures
        spec_decode(s, start) matches SpecFrame::Frame(args, end) ==> args.len() >= 1,
{
    if start < s.len() && s[start] == 42 {
        match spec_num(s, start + 1) {
            NumTok::NumVal(n, j) => {
                lemma_spec_num_bounds(s, start + 1);
                if 1 <= n <= 1024 {
                    lemma_elems_len(s, j, n);
                }
            },
            _ => {},
        }
    }
}

/// Decode one frame at `start` and run it: the step taken is exactly
/// the composition of `spec_decode` and `dispatch_step`.
pub fn session_step(engine: &mut Engine, buf: &Vec<u8>, start: usize, now: u64) -> (r: SessionStep)
    requires
        old(engine).wf(),
        start <= buf@.len(),
    ensures
        final(engine).wf(),
        match r {
            SessionStep::NeedMore => spec_decode(buf@, start as int) is More && final(engine)@
                == old(engine)@,
            SessionStep::Close(reply) => spec_decode(buf@, start as int) is Bad && reply@
                == enc_error(protocol_error_text()) && final(engine)@ == old(engine)@,
            SessionStep::Done { reply, wakes, used } => spec_decode(buf@, start as int) matches
                SpecFrame::Frame(args, end) && {
                let s = dispatch_step(old(engine)@, args, now);
                &&& used as int == end
                &&& start < used <= buf@.len()
                &&& final(engine)@ == s.0
                &&& s.1 == SpecStep::SReply(reply@)
                &&& wakes.deep_view() == s.2
            },
            SessionStep::Blocked { ticket, key, used } => spec_decode(buf@, start as int)
                matches SpecFrame::Frame(args, end) && {
                let s = dispatch_step(old(engine)@, args, now);
                &&& used as int == end
                &&& start < used <= buf@.len()
                &&& args.len() >= 2 && key@ == args[1]
                &&& final(engine)@ == s.0
                &&& s.1 == SpecStep::SBlock(ticket)
            },
        },
{
    match decode_frame(buf, start) {
        Decoded::More => SessionStep::NeedMore,
        Decoded::Bad => {
            let mut out: Vec<u8> = Vec::new();
            put_error_str(&mut out, "ERR protocol error");
            proof {
                assert(out@ =~= enc_error(protocol_error_text()));
            }
            SessionStep::Close(out)
        },
        Decoded::Frame(args, end) => {
            proof {
                lemma_frame_nonempty(buf@, start as int);
            }
            let key: Vec<u8> = if args.len() >= 2 {
                clone_bytes(&args[1])
            } else {
                Vec::new()
            };
            let ghost argsdv = args.deep_view();
            let (step, wakes) = engine.dispatch(args, now);
            match step {
                Step::Reply(reply) => SessionStep::Done { reply, wakes, used: end },
                Step::Block(ticket) => {
                    let _ = wakes;
                    proof {
                        lemma_block_needs_key(old(engine)@, argsdv, now);
                    }
                    SessionStep::Blocked { ticket, key, used: end }
                },
            }
        },
    }
}

} // verus!
