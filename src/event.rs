use vstd::prelude::*;

verus! {

/// Readable data is available.
pub const EPOLLIN: u32 = 0x1;

/// Urgent data is available.
pub const EPOLLPRI: u32 = 0x2;

/// The descriptor accepts writes.
pub const EPOLLOUT: u32 = 0x4;

/// An error condition was raised on the descriptor.
pub const EPOLLERR: u32 = 0x8;

/// The descriptor was hung up.
pub const EPOLLHUP: u32 = 0x10;

/// The stream peer closed its side of the connection.
pub const EPOLLRDHUP: u32 = 0x2000;

/// Deliver notifications one-shot: the descriptor is disarmed after one event.
pub const EPOLLONESHOT: u32 = 0x4000_0000;

/// Deliver notifications edge-triggered.
pub const EPOLLET: u32 = 0x8000_0000;

/// The party an event belongs to: the listening socket, or one client.
///
/// The role travels through the multiplexor as its 64-bit token, where the
/// value zero is reserved for the listener.
#[derive(Debug, PartialEq, Eq, Structural, Copy, Clone)]
pub enum PeerRole {
    Server,
    Client(u64),
}

/// The token under which a role is registered.
pub open spec fn token_of(role: PeerRole) -> u64 {
    match role {
        PeerRole::Server => 0,
        PeerRole::Client(id) => id,
    }
}

/// The role that a token stands for.
pub open spec fn role_of(token: u64) -> PeerRole {
    if token == 0 {
        PeerRole::Server
    } else {
        PeerRole::Client(token)
    }
}

/// A role is encodable without loss when it is not a client with the
/// reserved token.
pub open spec fn role_is_encodable(role: PeerRole) -> bool {
    role != PeerRole::Client(0)
}

impl From<u64> for PeerRole {
    fn from(value: u64) -> (r: Self)
        ensures
            r == role_of(value),
    {
        if value == 0 {
            PeerRole::Server
        } else {
            PeerRole::Client(value)
        }
    }
}

impl vstd::std_specs::convert::FromSpecImpl<u64> for PeerRole {
    open spec fn obeys_from_spec() -> bool {
        true
    }

    open spec fn from_spec(v: u64) -> PeerRole {
        role_of(v)
    }
}

impl From<PeerRole> for u64 {
    fn from(value: PeerRole) -> (r: Self)
        ensures
            r == token_of(value),
    {
        match value {
            PeerRole::Server => 0,
            PeerRole::Client(id) => id,
        }
    }
}

impl vstd::std_specs::convert::FromSpecImpl<PeerRole> for u64 {
    open spec fn obeys_from_spec() -> bool {
        true
    }

    open spec fn from_spec(v: PeerRole) -> u64 {
        token_of(v)
    }
}

/// Decoding a token gives back the role it was made from, for every role
/// other than a client holding the reserved value zero; and encoding the
/// decoded role gives back the token.
pub proof fn lemma_token_round_trip(role: PeerRole, token: u64)
    requires
        role_is_encodable(role),
    ensures
        role_of(token_of(role)) == role,
        token_of(role_of(token)) == token,
{
}

/// The operations of the multiplexor's control call.
#[derive(Debug, PartialEq, Eq, Structural, Copy, Clone)]
pub enum Operation {
    /// Register a descriptor in the interest set.
    Add,
    /// Remove a descriptor from the interest set.
    Del,
    /// Change the mask and token of a registered descriptor.
    Mod,
}

/// The kernel's code for each control operation.
pub open spec fn operation_code(op: Operation) -> i32 {
    match op {
        Operation::Add => 1,
        Operation::Del => 2,
        Operation::Mod => 3,
    }
}

impl From<Operation> for i32 {
    fn from(value: Operation) -> (r: Self)
        ensures
            r == operation_code(value),
    {
        match value {
            Operation::Add => 1,
            Operation::Del => 2,
            Operation::Mod => 3,
        }
    }
}

impl vstd::std_specs::convert::FromSpecImpl<Operation> for i32 {
    open spec fn obeys_from_spec() -> bool {
        true
    }

    open spec fn from_spec(v: Operation) -> i32 {
        operation_code(v)
    }
}

/// One readiness record: an event mask and the token of the peer it is about.
#[derive(Debug, PartialEq, Eq, Structural, Copy, Clone)]
pub struct Event {
    /// The mask of readiness bits and mode flags.
    pub events: u32,
    /// The token that identifies the peer.
    pub data: u64,
}

impl Event {
    /// A record with the given mask, tagged with the token of `identifier`.
    pub fn new(bitmask: u32, identifier: PeerRole) -> (r: Self)
        ensures
            r.events == bitmask,
            r.data == token_of(identifier),
    {
        Event { events: bitmask, data: u64::from(identifier) }
    }

    /// The event mask.
    pub fn event_type(&self) -> (r: u32)
        ensures
            r == self.events,
    {
        self.events
    }

    /// The peer the record is about, decoded from its token.
    pub fn role(&self) -> (r: PeerRole)
        ensures
            r == role_of(self.data),
    {
        PeerRole::from(self.data)
    }

    /// The raw token.
    pub fn data(&self) -> (r: u64)
        ensures
            r == self.data,
    {
        self.data
    }
}

/// Whether a descriptor may be handed to the multiplexor: negative values
/// are never descriptors.
pub fn is_valid_descriptor(fd: i32) -> (r: bool)
    ensures
        r == (fd >= 0),
{
    fd >= 0
}

/// The number of records a wait reported, when it lies within the capacity
/// the wait was given; `None` when the kernel claims more records than it
/// was offered room for, or a negative count.
pub fn checked_ready_count(returned: i32, capacity: i32) -> (r: Option<usize>)
    ensures
        r is Some <==> 0 <= returned <= capacity,
        r matches Some(n) ==> n == returned,
{
    if 0 <= returned && returned <= capacity {
        Some(returned as usize)
    } else {
        None
    }
}

} // verus!
