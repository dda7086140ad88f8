//! Aulon: the verified core of a message broker for the NATS-core protocol.
//!
//! - The codec: [`parse`] and [`emit`] over borrowed byte slices, stated in
//!   [`grammar`]; what the two promise together is in [`codec`].
//! - Routing: [`subject`] validation, the [`subscription`] trie, and what a
//!   published subject reaches in [`matching`].
//! - The broker: [`connection_state`] between a connection's reader and its
//!   [`writer`], the live [`links`], queue groups in [`dispatch`], the
//!   [`worker`] that acts on frames, and what it promises in [`broker`].
//! - The rest of the runtime: [`buffer_pool`], [`connection`],
//!   [`shard_inbox`] and its [`handoff`] between threads, [`topology`].
//! - The benchmark client in [`fanout`].
//!
//! Sockets, timers, system directories and the async runtime stay outside.

pub mod broker;
pub mod buffer_pool;
pub mod bytes;
pub mod codec;
pub mod connection;
pub mod connection_state;
pub mod dispatch;
pub mod emit;
pub mod error;
pub mod fanout;
pub mod frame;
pub mod grammar;
pub mod handoff;
pub mod links;
pub mod matching;
pub mod parse;
mod sealed;
pub mod shard_inbox;
pub mod sid_map;
pub mod subject;
pub mod subscription;
pub mod topology;
pub mod worker;
pub mod writer;

pub use buffer_pool::{BufferPool, DEFAULT_BUFFER_SIZE, DEFAULT_POOL_CAPACITY};
pub use connection::{Active, Closing, Connection, ReadOutcome, State};
pub use connection_state::{
    CloseReason, ConnectionState, EnqueueOutcome, DEFAULT_OUTBOUND_CAPACITY,
};
pub use emit::{
    emit_connect, emit_err, emit_frame, emit_info, emit_msg, emit_ok, emit_ping, emit_pong,
    emit_pub, emit_sub, emit_unsub,
};
pub use error::{EmitError, ParseError};
pub use frame::Frame;
pub use parse::{parse_frame, ParseOutcome};
pub use shard_inbox::{PublishedFrame, ShardInbox, ShardInboxFull};
pub use subject::SubjectError;
pub use subscription::{ConnectionId, Sub, SubscriptionTrie};
pub use topology::{Shard, Topology};
pub use worker::{Reader, Worker};
pub use writer::WriterStep;
