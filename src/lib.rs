//! A single-threaded TCP server core driven by edge-triggered readiness
//! notifications.
//!
//! The crate holds the decision logic of the server: how readiness masks are
//! encoded and decoded, the per-connection buffers and write scheduling, and
//! the connection table that turns handler actions into queued writes and
//! interest updates. The socket and multiplexor calls themselves are made by
//! the caller, which hands the outcomes back as plain values.

pub mod client_state;
pub mod connections;
pub mod event;
pub mod handler;

pub use event::{
    checked_ready_count, is_valid_descriptor, Event, Operation, PeerRole, EPOLLERR, EPOLLET, EPOLLHUP, EPOLLIN, EPOLLONESHOT, EPOLLOUT,
    EPOLLPRI, EPOLLRDHUP,
};

pub use client_state::{
    ClientState, FlushStep, ReadOutcome, ReadStatus, WriteOutcome, WriteStatus, READ_INTERESTS,
    READ_WRITE_INTERESTS,
};

pub use handler::HandlerAction;

pub use connections::{ConnectionTable, EventPlan};
