//! Core of a single-node, in-memory key-value server speaking the RESP2
//! wire format: a keyspace of string and list values with optional TTL,
//! a RESP codec, a FIFO waiter registry for blocking pops, and a command
//! dispatcher. The embedder supplies the socket loop and the clock; every
//! function here is verified.

pub mod assoc;
pub mod bytes;
pub mod codec;
pub mod dispatch;
pub mod laws;
pub mod session;
pub mod store;
pub mod value;
pub mod waiters;

pub use dispatch::Engine;
pub use dispatch::Step;
pub use dispatch::Wake;
pub use session::SessionStep;
pub use session::session_step;
pub use store::Store;
pub use value::Data;
pub use value::Entry;
pub use waiters::Waiters;
