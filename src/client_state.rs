use std::collections::VecDeque;
use vstd::prelude::*;

use crate::event::{EPOLLET, EPOLLIN, EPOLLOUT};

verus! {

/// The interest mask of a connection with nothing to send.
pub const READ_INTERESTS: u32 = EPOLLIN | EPOLLET;

/// The interest mask of a connection with bytes waiting to be sent.
pub const READ_WRITE_INTERESTS: u32 = EPOLLIN | EPOLLET | EPOLLOUT;

/// The mask a connection should be registered with, given whether it has
/// bytes waiting to be sent.
pub open spec fn desired_interests(pending: bool) -> u32 {
    if pending {
        READ_WRITE_INTERESTS
    } else {
        READ_INTERESTS
    }
}

/// Both masks ask for read readiness in edge-triggered mode, and exactly the
/// mask of a connection with pending bytes asks for write readiness.
pub proof fn lemma_desired_interests_bits(pending: bool)
    ensures
        desired_interests(pending) & EPOLLIN == EPOLLIN,
        desired_interests(pending) & EPOLLET == EPOLLET,
        (desired_interests(pending) & EPOLLOUT == EPOLLOUT) == pending,
{
    assert(0x8000_0001u32 & 0x1u32 == 0x1u32) by (bit_vector);
    assert(0x8000_0001u32 & 0x8000_0000u32 == 0x8000_0000u32) by (bit_vector);
    assert(0x8000_0001u32 & 0x4u32 != 0x4u32) by (bit_vector);
    assert(0x8000_0005u32 & 0x1u32 == 0x1u32) by (bit_vector);
    assert(0x8000_0005u32 & 0x8000_0000u32 == 0x8000_0000u32) by (bit_vector);
    assert(0x8000_0005u32 & 0x4u32 == 0x4u32) by (bit_vector);
    assert(READ_INTERESTS == 0x8000_0001u32) by (bit_vector);
    assert(READ_WRITE_INTERESTS == 0x8000_0005u32) by (bit_vector);
}

/// How a flush ended.
#[derive(Debug, PartialEq, Eq, Structural, Copy, Clone)]
pub enum WriteStatus {
    /// Nothing is left to send.
    Drained,
    /// The stream accepts no more bytes for now; what is left stays queued.
    WouldBlock,
    /// The stream failed, or accepted zero bytes: the connection is broken.
    Error,
}

/// What one non-blocking write on the stream reported.
#[derive(Debug, PartialEq, Eq, Structural, Copy, Clone)]
pub enum WriteOutcome {
    /// This many bytes were accepted.
    Written(usize),
    /// The write would have blocked.
    WouldBlock,
    /// The write failed.
    Failed,
}

impl WriteStatus {
    /// Whether a flush that ended so breaks the connection.
    pub fn ends_connection(&self) -> (r: bool)
        ensures
            r == (*self == WriteStatus::Error),
    {
        match self {
            WriteStatus::Error => true,
            _ => false,
        }
    }
}

/// What a flush asks for next.
#[derive(Debug, PartialEq, Eq, Structural, Copy, Clone)]
pub enum FlushStep {
    /// Write the bytes of `unsent_bytes` and report the outcome.
    Send,
    /// The flush is over.
    Finished(WriteStatus),
}

/// What one non-blocking read on the stream reported.
#[derive(Debug, PartialEq, Eq)]
pub enum ReadOutcome {
    /// These bytes arrived. An empty vector is a zero-byte read.
    Data(Vec<u8>),
    /// The read would have blocked.
    WouldBlock,
    /// The read failed.
    Failed,
}

/// What a read loop does after one read.
#[derive(Debug, PartialEq, Eq, Structural, Copy, Clone)]
pub enum ReadStatus {
    /// Bytes were taken in: read again.
    Continue,
    /// The socket is empty for now: the read loop is over.
    Drained,
    /// The peer closed the connection.
    PeerClosed,
    /// The read failed.
    Fatal,
}

impl ReadStatus {
    /// Whether a read loop that ended so ends the connection: only a loop
    /// that drained the socket leaves it open.
    pub fn ends_connection(&self) -> (r: bool)
        ensures
            r == (*self == ReadStatus::PeerClosed || *self == ReadStatus::Fatal),
    {
        match self {
            ReadStatus::PeerClosed => true,
            ReadStatus::Fatal => true,
            _ => false,
        }
    }
}

/// The state of one connection as a mathematical value.
pub struct ClientView {
    /// The bytes read since the last complete message.
    pub read: Seq<u8>,
    /// The payloads waiting to be sent, oldest first.
    pub queue: Seq<Seq<u8>>,
    /// The payload being sent, if a send is in progress.
    pub active: Option<Seq<u8>>,
    /// How many bytes of the active payload have been sent.
    pub offset: nat,
    /// The interest mask last registered for the connection.
    pub interests: u32,
}

impl ClientView {
    /// An active payload always has bytes left to send.
    pub open spec fn wf(self) -> bool {
        match self.active {
            Some(a) => self.offset < a.len(),
            None => self.offset == 0,
        }
    }

    /// A send is in progress or a payload is queued.
    pub open spec fn has_pending(self) -> bool {
        self.queue.len() > 0 || self.active is Some
    }

    /// The bytes of the active payload that have not been sent.
    pub open spec fn unsent(self) -> Seq<u8> {
        match self.active {
            Some(a) => a.subrange(self.offset as int, a.len() as int),
            None => Seq::empty(),
        }
    }

    /// Every byte still owed to the peer, in the order it will be sent.
    pub open spec fn pending(self) -> Seq<u8> {
        self.unsent() + self.queue.flatten()
    }

    /// The state after the payload `data` is queued.
    pub open spec fn queued(self, data: Seq<u8>) -> ClientView {
        ClientView { queue: self.queue.push(data), ..self }
    }

    /// The state once the head of the queue has been made the active payload,
    /// empty payloads being dropped on the way.
    pub open spec fn promoted(self) -> ClientView
        decreases self.queue.len(),
    {
        if self.active is Some || self.queue.len() == 0 {
            self
        } else if self.queue[0].len() == 0 {
            ClientView { queue: self.queue.drop_first(), ..self }.promoted()
        } else {
            ClientView { queue: self.queue.drop_first(), active: Some(self.queue[0]), offset: 0, ..self }
        }
    }

    /// What a flush asks for in this state.
    pub open spec fn step(self) -> FlushStep {
        if self.active is Some {
            FlushStep::Send
        } else {
            FlushStep::Finished(WriteStatus::Drained)
        }
    }

    /// The state after `n` bytes of the active payload were sent.
    pub open spec fn advanced(self, n: nat) -> ClientView {
        match self.active {
            Some(a) => if self.offset + n >= a.len() {
                ClientView { active: None, offset: 0, ..self }.promoted()
            } else {
                ClientView { offset: self.offset + n, ..self }
            },
            None => self,
        }
    }

    /// The state and step after a write reported `outcome`.
    pub open spec fn after_write(self, outcome: WriteOutcome) -> (ClientView, FlushStep) {
        match outcome {
            WriteOutcome::Written(n) => if 0 < n <= self.unsent().len() {
                (self.advanced(n as nat), self.advanced(n as nat).step())
            } else {
                (self, FlushStep::Finished(WriteStatus::Error))
            },
            WriteOutcome::WouldBlock => (self, FlushStep::Finished(WriteStatus::WouldBlock)),
            WriteOutcome::Failed => (self, FlushStep::Finished(WriteStatus::Error)),
        }
    }
}

/// Promoting the head of the queue keeps every byte owed to the peer, in
/// order, and leaves an active payload with bytes left to send.
pub proof fn lemma_promoted_keeps_pending(v: ClientView)
    requires
        v.wf(),
    ensures
        v.promoted().wf(),
        v.promoted().pending() == v.pending(),
        v.promoted().read == v.read,
        v.promoted().interests == v.interests,
        v.promoted().has_pending() ==> v.promoted().active is Some,
        (v.promoted().active is Some) == (v.pending().len() > 0),
        v.active is Some ==> v.promoted() == v,
        v.promoted().promoted() == v.promoted(),
    decreases v.queue.len(),
{
    if v.active is Some || v.queue.len() == 0 {
        if v.active is None {
            assert(v.pending() =~= Seq::<u8>::empty());
        }
    } else {
        let rest = ClientView { queue: v.queue.drop_first(), ..v };
        assert(v.queue.flatten() == v.queue[0] + v.queue.drop_first().flatten());
        if v.queue[0].len() == 0 {
            lemma_promoted_keeps_pending(rest);
            assert(v.pending() =~= rest.pending());
        } else {
            let p = v.promoted();
            assert(p.unsent() =~= v.queue[0]);
            assert(v.pending() =~= p.pending());
        }
    }
}

/// The bytes handed to the stream are the first bytes owed to the peer:
/// after `n` of them are confirmed, what is owed is the rest, in order.
pub proof fn lemma_advanced_takes_prefix(v: ClientView, n: nat)
    requires
        v.wf(),
        0 < n <= v.unsent().len(),
    ensures
        v.advanced(n).wf(),
        v.unsent().subrange(0, n as int) + v.advanced(n).pending() == v.pending(),
        v.pending().subrange(0, n as int) == v.unsent().subrange(0, n as int),
        v.advanced(n).read == v.read,
        v.advanced(n).interests == v.interests,
        v.advanced(n).has_pending() ==> v.advanced(n).active is Some,
{
    let a = v.active->Some_0;
    if v.offset + n >= a.len() {
        let idle = ClientView { active: None, offset: 0, ..v };
        lemma_promoted_keeps_pending(idle);
        assert(v.unsent().subrange(0, n as int) =~= v.unsent());
        assert(idle.pending() =~= v.queue.flatten());
    } else {
        let w = v.advanced(n);
        assert(v.unsent().subrange(0, n as int) + w.unsent() =~= v.unsent());
        assert(v.unsent().subrange(0, n as int) + w.pending() =~= v.pending());
    }
    assert(v.pending().subrange(0, n as int) =~= v.unsent().subrange(0, n as int));
}

/// A flush that meets a would-block changes nothing: once the head of the
/// queue has been promoted, promoting again and meeting would-block again
/// leaves the state as it is and reports would-block, with no byte sent.
pub proof fn lemma_flush_idempotent_on_would_block(v: ClientView)
    requires
        v.wf(),
    ensures
        v.promoted().promoted() == v.promoted(),
        v.promoted().after_write(WriteOutcome::WouldBlock) == (
        v.promoted(),
        FlushStep::Finished(WriteStatus::WouldBlock),
        ),
        v.promoted().pending() == v.pending(),
{
    lemma_promoted_keeps_pending(v);
}

/// Bytes leave in the order they were queued: queueing a payload puts it
/// after everything already owed, and each confirmed write takes the
/// oldest bytes owed, so what is sent followed by what is still owed is
/// always what was owed before followed by the payload.
pub proof fn lemma_output_in_order(v: ClientView, data: Seq<u8>, n: nat)
    requires
        v.wf(),
        0 < n <= v.queued(data).promoted().unsent().len(),
    ensures
        v.queued(data).pending() == v.pending() + data,
        v.queued(data).promoted().unsent().subrange(0, n as int) + v.queued(data).promoted().advanced(
            n,
        ).pending() == v.pending() + data,
{
    let q = v.queued(data);
    assert(q.queue == v.queue.push(data));
    v.queue.lemma_flatten_push(data);
    assert(q.pending() =~= v.pending() + data);
    lemma_promoted_keeps_pending(q);
    lemma_advanced_takes_prefix(q.promoted(), n);
}

/// What a read loop does after a read that reported `outcome`.
pub open spec fn read_status_of(outcome: ReadOutcome) -> ReadStatus {
    match outcome {
        ReadOutcome::Data(d) => if d@.len() == 0 {
            ReadStatus::PeerClosed
        } else {
            ReadStatus::Continue
        },
        ReadOutcome::WouldBlock => ReadStatus::Drained,
        ReadOutcome::Failed => ReadStatus::Fatal,
    }
}

/// The bytes a read outcome adds to the accumulator.
pub open spec fn read_bytes_of(outcome: ReadOutcome) -> Seq<u8> {
    match outcome {
        ReadOutcome::Data(d) => d@,
        _ => Seq::empty(),
    }
}

/// The state of one connection: its stream, the bytes read so far, the
/// payloads waiting to be sent and the interest mask it is registered with.
pub struct ClientState<S> {
    stream: S,
    read_buffer: Vec<u8>,
    write_queue: VecDeque<Vec<u8>>,
    write_buffer: Option<Vec<u8>>,
    write_offset: usize,
    current_interests: u32,
}

impl<S> View for ClientState<S> {
    type V = ClientView;

    closed spec fn view(&self) -> ClientView {
        ClientView {
            read: self.read_buffer@,
            queue: self.write_queue@.map_values(|b: Vec<u8>| b@),
            active: match self.write_buffer {
                Some(b) => Some(b@),
                None => None,
            },
            offset: self.write_offset as nat,
            interests: self.current_interests,
        }
    }
}

impl<S> ClientState<S> {
    /// The stream the state owns.
    pub closed spec fn spec_stream(&self) -> S {
        self.stream
    }

    /// A fresh connection: nothing read, nothing to send, no interest
    /// registered yet.
    pub fn new(stream: S) -> (r: Self)
        ensures
            r@.wf(),
            r@.read == Seq::<u8>::empty(),
            r@.queue == Seq::<Seq<u8>>::empty(),
            r@.active is None,
            r@.interests == 0,
            r.spec_stream() == stream,
    {
        let r = ClientState {
            stream,
            read_buffer: Vec::with_capacity(16384),
            write_queue: VecDeque::with_capacity(16),
            write_buffer: None,
            write_offset: 0,
            current_interests: 0,
        };
        assert(r@.queue =~= Seq::<Seq<u8>>::empty());
        r
    }

    /// Appends `data` at the tail of the write queue.
    pub fn queue_write(&mut self, data: Vec<u8>)
        ensures
            final(self)@ == old(self)@.queued(data@),
            final(self)@.pending() == old(self)@.pending() + data@,
            final(self).spec_stream() == old(self).spec_stream(),
    {
        self.write_queue.push_back(data);
        proof {
            assert(self@.queue =~= old(self)@.queue.push(data@));
            old(self)@.queue.lemma_flatten_push(data@);
        }
    }

    /// Whether a send is in progress or a payload is queued.
    pub fn has_pending_writes(&self) -> (r: bool)
        ensures
            r == self@.has_pending(),
    {
        self.write_queue.len() > 0 || self.write_buffer.is_some()
    }

    /// The interest mask last registered for the connection.
    pub fn current_interests(&self) -> (r: u32)
        ensures
            r == self@.interests,
    {
        self.current_interests
    }

    /// Records the interest mask that was registered for the connection.
    pub fn set_current_interests(&mut self, interests: u32)
        ensures
            final(self)@ == (ClientView { interests, ..old(self)@ }),
            final(self).spec_stream() == old(self).spec_stream(),
    {
        self.current_interests = interests;
    }

    /// The mask the connection should be registered with now.
    pub fn wanted_interests(&self) -> (r: u32)
        ensures
            r == desired_interests(self@.has_pending()),
    {
        if self.has_pending_writes() {
            READ_WRITE_INTERESTS
        } else {
            READ_INTERESTS
        }
    }

    /// The bytes read since the last complete message.
    pub fn read_buf(&self) -> (r: &[u8])
        ensures
            r@ == self@.read,
    {
        self.read_buffer.as_slice()
    }

    /// Forgets the bytes read so far.
    pub fn clear_read_buf(&mut self)
        ensures
            final(self)@ == (ClientView { read: Seq::empty(), ..old(self)@ }),
            final(self).spec_stream() == old(self).spec_stream(),
    {
        self.read_buffer.clear();
    }

    /// Takes in what one read reported and says whether to read again.
    pub fn on_read(&mut self, outcome: ReadOutcome) -> (r: ReadStatus)
        ensures
            r == read_status_of(outcome),
            final(self)@ == (ClientView { read: old(self)@.read + read_bytes_of(outcome), ..old(self)@ }),
            final(self).spec_stream() == old(self).spec_stream(),
    {
        match outcome {
            ReadOutcome::Data(d) => {
                if d.len() == 0 {
                    proof {
                        assert(self@.read + read_bytes_of(outcome) =~= self@.read);
                    }
                    ReadStatus::PeerClosed
                } else {
                    self.read_buffer.extend_from_slice(d.as_slice());
                    proof {
                        assert(self@.read =~= old(self)@.read + read_bytes_of(outcome));
                        assert(self@.queue =~= old(self)@.queue);
                    }
                    ReadStatus::Continue
                }
            },
            ReadOutcome::WouldBlock => {
                proof {
                    assert(self@.read + read_bytes_of(outcome) =~= self@.read);
                }
                ReadStatus::Drained
            },
            ReadOutcome::Failed => {
                proof {
                    assert(self@.read + read_bytes_of(outcome) =~= self@.read);
                }
                ReadStatus::Fatal
            },
        }
    }

    /// Makes the head of the queue the active payload when none is active,
    /// dropping empty payloads.
    fn promote(&mut self)
        requires
            old(self)@.wf(),
        ensures
            final(self)@ == old(self)@.promoted(),
            final(self).spec_stream() == old(self).spec_stream(),
    {
        while self.write_buffer.is_none() && self.write_queue.len() > 0
            invariant
                self@.wf(),
                self@.promoted() == old(self)@.promoted(),
                self.spec_stream() == old(self).spec_stream(),
            decreases self.write_queue@.len(),
        {
            let ghost before = self@;
            let next = self.write_queue.pop_front();
            proof {
                assert(self@.queue =~= before.queue.drop_first());
            }
            match next {
                Some(b) => {
                    if b.len() > 0 {
                        self.write_buffer = Some(b);
                        self.write_offset = 0;
                    }
                },
                None => {},
            }
        }
    }

    /// What a flush asks for in the current state.
    fn current_step(&self) -> (r: FlushStep)
        ensures
            r == self@.step(),
    {
        if self.write_buffer.is_some() {
            FlushStep::Send
        } else {
            FlushStep::Finished(WriteStatus::Drained)
        }
    }

    /// Begins a flush: makes the head of the queue the active payload when
    /// none is active, and says whether there is anything to send.
    pub fn start_flush(&mut self) -> (r: FlushStep)
        requires
            old(self)@.wf(),
        ensures
            final(self)@ == old(self)@.promoted(),
            r == final(self)@.step(),
            final(self)@.wf(),
            final(self)@.pending() == old(self)@.pending(),
            r == FlushStep::Send <==> old(self)@.pending().len() > 0,
            final(self).spec_stream() == old(self).spec_stream(),
    {
        proof {
            lemma_promoted_keeps_pending(self@);
        }
        self.promote();
        self.current_step()
    }

    /// The bytes of the active payload that have not been sent yet: what the
    /// next write hands to the stream.
    pub fn unsent_bytes(&self) -> (r: &[u8])
        requires
            self@.wf(),
        ensures
            r@ == self@.unsent(),
    {
        match &self.write_buffer {
            Some(b) => vstd::slice::slice_subrange(b.as_slice(), self.write_offset, b.len()),
            None => {
                let empty: &[u8] = &[];
                proof {
                    assert(empty@ =~= Seq::<u8>::empty());
                }
                empty
            },
        }
    }

    /// Takes in what one write reported and says what the flush does next.
    /// Confirmed bytes are dropped from the front of what is owed; a
    /// would-block or a failure leaves the state as it is.
    pub fn on_write_result(&mut self, outcome: WriteOutcome) -> (r: FlushStep)
        requires
            old(self)@.wf(),
        ensures
            (final(self)@, r) == old(self)@.after_write(outcome),
            final(self)@.wf(),
            final(self).spec_stream() == old(self).spec_stream(),
    {
        match outcome {
            WriteOutcome::Written(n) => {
                let remaining: usize = match &self.write_buffer {
                    Some(b) => b.len() - self.write_offset,
                    None => 0,
                };
                if n == 0 || n > remaining {
                    return FlushStep::Finished(WriteStatus::Error);
                }
                proof {
                    lemma_advanced_takes_prefix(self@, n as nat);
                }
                self.write_offset = self.write_offset + n;
                let done: bool = match &self.write_buffer {
                    Some(b) => self.write_offset >= b.len(),
                    None => false,
                };
                if done {
                    self.write_buffer = None;
                    self.write_offset = 0;
                    self.promote();
                }
                self.current_step()
            },
            WriteOutcome::WouldBlock => FlushStep::Finished(WriteStatus::WouldBlock),
            WriteOutcome::Failed => FlushStep::Finished(WriteStatus::Error),
        }
    }

    /// The stream the state owns.
    pub fn stream(&self) -> (r: &S)
        ensures
            *r == self.spec_stream(),
    {
        &self.stream
    }

    /// Gives up the state and hands back its stream.
    pub fn into_stream(self) -> (r: S)
        ensures
            r == self.spec_stream(),
    {
        self.stream
    }
}

} // verus!
