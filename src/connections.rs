use std::collections::HashMap;
use vstd::prelude::*;

use crate::client_state::{
    desired_interests, lemma_desired_interests_bits, ClientState, ClientView, FlushStep,
    ReadOutcome, ReadStatus, WriteOutcome, READ_INTERESTS, READ_WRITE_INTERESTS,
};
use crate::event::{role_of, Event, PeerRole, EPOLLET, EPOLLIN, EPOLLOUT, EPOLLRDHUP};
use crate::handler::{action_payload, is_recipient, HandlerAction};

verus! {

broadcast use vstd::std_specs::hash::group_hash_axioms;

/// What the server does with one readiness record.
#[derive(Debug, PartialEq, Eq, Structural, Copy, Clone)]
pub enum EventPlan {
    /// The listener is ready: accept connections until it would block.
    Accept,
    /// The record is about a connection that is gone: drop it.
    Ignore,
    /// The record is about a live connection: read if `read`, then flush if
    /// `write`, then tear it down if `close`.
    Serve { id: u64, read: bool, write: bool, close: bool },
}

/// The plan for record `e`, given the live connections `live`.
pub open spec fn plan_of(live: Set<u64>, e: Event) -> EventPlan {
    match role_of(e.data) {
        PeerRole::Server => EventPlan::Accept,
        PeerRole::Client(id) => if !live.contains(id) {
            EventPlan::Ignore
        } else {
            let read = e.events & EPOLLIN == EPOLLIN;
            let write = e.events & EPOLLOUT == EPOLLOUT;
            EventPlan::Serve {
                id,
                read,
                write,
                close: e.events & EPOLLRDHUP == EPOLLRDHUP || (!read && !write),
            }
        },
    }
}

/// Every live connection has a token other than the listener's, a well-formed
/// state, and is registered for write readiness exactly when it owes bytes.
pub open spec fn table_invariant(m: Map<u64, ClientView>) -> bool {
    forall|id: u64|
        #![trigger m[id]]
        m.contains_key(id) ==> {
            &&& id != 0
            &&& m[id].wf()
            &&& m[id].interests == desired_interests(m[id].has_pending())
        }
}

/// What the multiplexor holds for the connections in `m`: each descriptor
/// (the connection's identifier) with its mask and token.
pub open spec fn registrations(m: Map<u64, ClientView>) -> Map<u64, Event> {
    Map::new(|fd: u64| m.contains_key(fd), |fd: u64| Event { events: m[fd].interests, data: fd })
}

/// The update that re-registers connection `id` when its mask must change
/// to `wanted`.
pub open spec fn update_for(id: u64, current: u32, wanted: u32) -> Option<Event> {
    if current == wanted {
        None
    } else {
        Some(Event { events: wanted, data: id })
    }
}

/// A connection's state once `data` is queued on it and it is registered
/// for write readiness.
pub open spec fn queued_view(v: ClientView, data: Seq<u8>) -> ClientView {
    ClientView { interests: READ_WRITE_INTERESTS, ..v.queued(data) }
}

/// The connections after an action from `origin` was carried out: each
/// recipient has the payload queued once, every other connection is as it
/// was.
pub open spec fn delivered(m: Map<u64, ClientView>, origin: u64, action: HandlerAction) -> Map<
    u64,
    ClientView,
> {
    Map::new(
        |k: u64| m.contains_key(k),
        |k: u64|
            if is_recipient(action, origin, m.dom(), k) {
                queued_view(m[k], action_payload(action))
            } else {
                m[k]
            },
    )
}

/// The recipients of an action that must be re-registered for write
/// readiness.
pub open spec fn needing_update(m: Map<u64, ClientView>, origin: u64, action: HandlerAction) -> Set<u64> {
    m.dom().filter(|k: u64| is_recipient(action, origin, m.dom(), k) && m[k].interests != READ_WRITE_INTERESTS)
}

/// Every live connection is registered for read readiness in edge-triggered
/// mode, and for write readiness exactly when it owes bytes.
pub proof fn lemma_interests_follow_pending(m: Map<u64, ClientView>, id: u64)
    requires
        table_invariant(m),
        m.contains_key(id),
    ensures
        m[id].interests & EPOLLIN == EPOLLIN,
        m[id].interests & EPOLLET == EPOLLET,
        (m[id].interests & EPOLLOUT == EPOLLOUT) == m[id].has_pending(),
{
    lemma_desired_interests_bits(m[id].has_pending());
}

/// Every live connection is registered, and every registered descriptor
/// carries a token that decodes to a live connection: its own.
pub proof fn lemma_registrations_match_table(m: Map<u64, ClientView>, fd: u64)
    requires
        table_invariant(m),
    ensures
        registrations(m).dom() == m.dom(),
        registrations(m).contains_key(fd) ==> role_of(registrations(m)[fd].data) == PeerRole::Client(
            fd,
        ) && m.contains_key(fd) && registrations(m)[fd].events == m[fd].interests,
{
    assert(registrations(m).dom() =~= m.dom());
    if registrations(m).contains_key(fd) {
        assert(m[fd].wf());
    }
}

/// A connection leaves the table once: after it has been removed, removing
/// it again finds nothing, and no other connection is touched.
pub proof fn lemma_removed_once(m: Map<u64, ClientView>, id: u64, other: u64)
    requires
        m.contains_key(id),
        other != id,
    ensures
        !m.remove(id).contains_key(id),
        m.remove(id).remove(id) == m.remove(id),
        m.contains_key(other) ==> m.remove(id).contains_key(other) && m.remove(id)[other] == m[other],
{
    assert(m.remove(id).remove(id) =~= m.remove(id));
}

/// A broadcast queues its payload once on every live connection but the
/// sender, after whatever each already owed, and leaves the sender as it
/// was; a send to all queues it on the sender as well.
pub proof fn lemma_fan_out(m: Map<u64, ClientView>, origin: u64, action: HandlerAction, id: u64)
    requires
        m.contains_key(id),
        action is Broadcast || action is SendToAll,
    ensures
        delivered(m, origin, action).dom() == m.dom(),
        (action is Broadcast && id == origin) ==> delivered(m, origin, action)[id] == m[id],
        (action is SendToAll || id != origin) ==> delivered(m, origin, action)[id].pending()
            == m[id].pending() + action_payload(action),
{
    assert(delivered(m, origin, action).dom() =~= m.dom());
    let d = action_payload(action);
    m[id].queue.lemma_flatten_push(d);
    assert(m[id].queued(d).queue == m[id].queue.push(d));
    assert(m[id].queued(d).pending() =~= m[id].pending() + d);
}

/// A reply queues its payload on the sender alone, after whatever it
/// already owed.
pub proof fn lemma_reply_to_sender(m: Map<u64, ClientView>, origin: u64, action: HandlerAction, id: u64)
    requires
        m.contains_key(id),
        action is Reply,
    ensures
        id == origin ==> delivered(m, origin, action)[id].pending() == m[id].pending()
            + action_payload(action),
        id != origin ==> delivered(m, origin, action)[id] == m[id],
{
    let d = action_payload(action);
    m[id].queue.lemma_flatten_push(d);
    assert(m[id].queued(d).queue == m[id].queue.push(d));
    assert(m[id].queued(d).pending() =~= m[id].pending() + d);
}

/// The connections of a server, keyed by their identifier, in the order they
/// were inserted.
pub struct ConnectionTable<S> {
    clients: HashMap<u64, ClientState<S>>,
    order: Vec<u64>,
}

impl<S> View for ConnectionTable<S> {
    type V = Map<u64, ClientView>;

    closed spec fn view(&self) -> Map<u64, ClientView> {
        self.clients@.map_values(|c: ClientState<S>| c@)
    }
}

impl<S> ConnectionTable<S> {
    /// The identifiers of the live connections, in the order they were
    /// inserted.
    pub closed spec fn spec_ids(&self) -> Seq<u64> {
        self.order@
    }

    /// The stream held for each live connection.
    pub closed spec fn spec_streams(&self) -> Map<u64, S> {
        self.clients@.map_values(|c: ClientState<S>| c.spec_stream())
    }

    /// The table's internal invariant.
    pub closed spec fn wf(&self) -> bool {
        &&& table_invariant(self@)
        &&& self.order@.no_duplicates()
        &&& forall|id: u64| self.order@.contains(id) <==> self.clients@.contains_key(id)
    }

    /// What a well-formed table says of its live connections.
    pub proof fn lemma_wf(&self)
        requires
            self.wf(),
        ensures
            table_invariant(self@),
            self.spec_ids().no_duplicates(),
            self.spec_ids().to_set() == self@.dom(),
            self.spec_streams().dom() == self@.dom(),
    {
        assert(self.spec_ids().to_set() =~= self@.dom());
        assert(self.spec_streams().dom() =~= self@.dom());
    }

    /// An empty table.
    pub fn new() -> (r: Self)
        ensures
            r.wf(),
            r@ == Map::<u64, ClientView>::empty(),
            r.spec_ids() == Seq::<u64>::empty(),
    {
        let r = ConnectionTable { clients: HashMap::new(), order: Vec::new() };
        assert(r@ =~= Map::<u64, ClientView>::empty());
        r
    }

    /// The number of live connections.
    pub fn len(&self) -> (r: usize)
        requires
            self.wf(),
        ensures
            r == self@.len(),
    {
        proof {
            assert(self@.dom() =~= self.clients@.dom());
        }
        self.clients.len()
    }

    /// Whether connection `id` is live.
    pub fn contains(&self, id: u64) -> (r: bool)
        ensures
            r == self@.contains_key(id),
    {
        self.clients.contains_key(&id)
    }

    /// The identifiers of the live connections, in the order they were
    /// inserted.
    pub fn ids(&self) -> (r: Vec<u64>)
        ensures
            r@ == self.spec_ids(),
    {
        let mut r: Vec<u64> = Vec::new();
        let mut i: usize = 0;
        while i < self.order.len()
            invariant
                0 <= i <= self.order@.len(),
                r@ == self.order@.subrange(0, i as int),
            decreases self.order@.len() - i,
        {
            r.push(self.order[i]);
            i = i + 1;
            proof {
                assert(r@ =~= self.order@.subrange(0, i as int));
            }
        }
        proof {
            assert(r@ =~= self.order@);
        }
        r
    }

    /// The state of connection `id`, if it is live.
    pub fn get(&self, id: u64) -> (r: Option<&ClientState<S>>)
        ensures
            match r {
                Some(c) => self@.contains_key(id) && c@ == self@[id] && c.spec_stream()
                    == self.spec_streams()[id],
                None => !self@.contains_key(id),
            },
    {
        self.clients.get(&id)
    }

    /// The plan for record `e`.
    pub fn plan(&self, e: &Event) -> (r: EventPlan)
        ensures
            r == plan_of(self@.dom(), *e),
    {
        match e.role() {
            PeerRole::Server => EventPlan::Accept,
            PeerRole::Client(id) => {
                if !self.contains(id) {
                    EventPlan::Ignore
                } else {
                    let read = e.events & EPOLLIN == EPOLLIN;
                    let write = e.events & EPOLLOUT == EPOLLOUT;
                    EventPlan::Serve {
                        id,
                        read,
                        write,
                        close: e.events & EPOLLRDHUP == EPOLLRDHUP || (!read && !write),
                    }
                }
            },
        }
    }

    /// The record with which a newly accepted connection `id` is registered:
    /// read readiness, edge-triggered, tagged with the connection's token.
    pub fn registration(id: u64) -> (r: Event)
        ensures
            r == (Event { events: READ_INTERESTS, data: id }),
    {
        Event::new(READ_INTERESTS, PeerRole::Client(id))
    }

    /// Whether a connection may be inserted under `id`: the identifier is
    /// not the listener's token and no live connection holds it.
    pub fn can_insert(&self, id: u64) -> (r: bool)
        ensures
            r == (id != 0 && !self@.contains_key(id)),
    {
        id != 0 && !self.contains(id)
    }

    /// Inserts a connection that was registered with `registration(id)`.
    /// When `id` cannot be inserted the stream is handed back.
    pub fn insert(&mut self, id: u64, stream: S) -> (r: Result<(), S>)
        requires
            old(self).wf(),
        ensures
            final(self).wf(),
            r is Ok <==> (id != 0 && !old(self)@.contains_key(id)),
            r is Ok ==> final(self)@ == old(self)@.insert(
                id,
                ClientView {
                    read: Seq::empty(),
                    queue: Seq::empty(),
                    active: None,
                    offset: 0,
                    interests: READ_INTERESTS,
                },
            ),
            r is Ok ==> final(self).spec_ids() == old(self).spec_ids().push(id),
            r is Ok ==> final(self).spec_streams() == old(self).spec_streams().insert(id, stream),
            r matches Err(s) ==> s == stream && final(self)@ == old(self)@ && final(self).spec_ids()
                == old(self).spec_ids() && final(self).spec_streams() == old(self).spec_streams(),
    {
        if !self.can_insert(id) {
            return Err(stream);
        }
        let mut c = ClientState::new(stream);
        c.set_current_interests(READ_INTERESTS);
        proof {
            lemma_desired_interests_bits(false);
        }
        self.clients.insert(id, c);
        self.order.push(id);
        proof {
            assert(self@ =~= old(self)@.insert(id, c@));
            assert(self.spec_streams() =~= old(self).spec_streams().insert(id, stream));
            assert forall|k: u64| self.order@.contains(k) <==> self.clients@.contains_key(k) by {
                if k != id {
                    assert(self.order@.contains(k) ==> old(self).order@.contains(k)) by {
                        if self.order@.contains(k) {
                            let i = choose|i: int| 0 <= i < self.order@.len() && self.order@[i] == k;
                            assert(old(self).order@[i] == k);
                        }
                    }
                    assert(old(self).order@.contains(k) ==> self.order@.contains(k)) by {
                        if old(self).order@.contains(k) {
                            let i = choose|i: int| 0 <= i < old(self).order@.len() && old(self).order@[i] == k;
                            assert(self.order@[i] == k);
                        }
                    }
                } else {
                    assert(self.order@[self.order@.len() - 1] == id);
                }
            }
            assert(self.order@.no_duplicates()) by {
                assert forall|i: int, j: int|
                    0 <= i < self.order@.len() && 0 <= j < self.order@.len() && i != j implies
                    self.order@[i] != self.order@[j] by {
                    if i == self.order@.len() - 1 && j < self.order@.len() - 1 {
                        assert(old(self).order@.contains(self.order@[j]));
                    } else if j == self.order@.len() - 1 && i < self.order@.len() - 1 {
                        assert(old(self).order@.contains(self.order@[i]));
                    }
                }
            }
        }
        Ok(())
    }

    /// Removes connection `id` and hands back its state, if it was live.
    pub fn remove(&mut self, id: u64) -> (r: Option<ClientState<S>>)
        requires
            old(self).wf(),
        ensures
            final(self).wf(),
            final(self)@ == old(self)@.remove(id),
            final(self).spec_streams() == old(self).spec_streams().remove(id),
            final(self).spec_ids().to_set() == old(self).spec_ids().to_set().remove(id),
            match r {
                Some(c) => old(self)@.contains_key(id) && c@ == old(self)@[id] && c.spec_stream()
                    == old(self).spec_streams()[id],
                None => !old(self)@.contains_key(id),
            },
    {
        let r = self.clients.remove(&id);
        let mut i: usize = 0;
        while i < self.order.len()
            invariant
                0 <= i <= self.order@.len(),
                self.order@ == old(self).order@,
                forall|j: int| 0 <= j < i ==> self.order@[j] != id,
            ensures
                0 <= i <= self.order@.len(),
                self.order@ == old(self).order@,
                forall|j: int| 0 <= j < i ==> self.order@[j] != id,
                i < self.order@.len() ==> self.order@[i as int] == id,
            decreases self.order@.len() - i,
        {
            if self.order[i] == id {
                break;
            }
            i = i + 1;
        }
        if i < self.order.len() {
            let ghost before = self.order@;
            self.order.remove(i);
            proof {
                assert forall|k: u64| self.order@.contains(k) <==> (before.contains(k) && k != id) by {
                    if self.order@.contains(k) {
                        let j = choose|j: int| 0 <= j < self.order@.len() && self.order@[j] == k;
                        if j < i {
                            assert(before[j] == k);
                        } else {
                            assert(before[j + 1] == k);
                        }
                    }
                    if before.contains(k) && k != id {
                        let j = choose|j: int| 0 <= j < before.len() && before[j] == k;
                        if j < i {
                            assert(self.order@[j] == k);
                        } else {
                            assert(j != i as int);
                            assert(self.order@[j - 1] == k);
                        }
                    }
                }
                assert(self.order@.no_duplicates()) by {
                    assert forall|a: int, b: int|
                        0 <= a < self.order@.len() && 0 <= b < self.order@.len() && a != b implies
                        self.order@[a] != self.order@[b] by {
                        let a2 = if a < i { a } else { a + 1 };
                        let b2 = if b < i { b } else { b + 1 };
                        assert(self.order@[a] == before[a2]);
                        assert(self.order@[b] == before[b2]);
                    }
                }
            }
        } else {
            proof {
                assert(!self.order@.contains(id));
            }
        }
        proof {
            assert(self@ =~= old(self)@.remove(id));
            assert(self.spec_streams() =~= old(self).spec_streams().remove(id));
            assert forall|k: u64| self.order@.contains(k) <==> self.clients@.contains_key(k) by {
                assert(old(self).order@.contains(k) <==> old(self).clients@.contains_key(k));
            }
            assert forall|k: u64| #[trigger] self@.contains_key(k) implies old(self)@.contains_key(k)
                && self@[k] == old(self)@[k] by {}
            assert(self.spec_ids().to_set() =~= old(self).spec_ids().to_set().remove(id));
        }
        r
    }
    /// Replacing the state of a live connection with one that keeps the
    /// table's invariant keeps the table well formed.
    proof fn lemma_entry_replaced(t0: &Self, t1: &Self, id: u64)
        requires
            t0.wf(),
            t0@.contains_key(id),
            t1.order@ == t0.order@,
            t1.clients@ == t0.clients@.insert(id, t1.clients@[id]),
            t1.clients@[id]@.wf(),
            t1.clients@[id]@.interests == desired_interests(t1.clients@[id]@.has_pending()),
            t1.clients@[id].spec_stream() == t0.clients@[id].spec_stream(),
        ensures
            t1.wf(),
            t1@ == t0@.insert(id, t1.clients@[id]@),
            t1.spec_ids() == t0.spec_ids(),
            t1.spec_streams() == t0.spec_streams(),
    {
        assert(t1@ =~= t0@.insert(id, t1.clients@[id]@));
        assert(t1.spec_streams() =~= t0.spec_streams());
        assert forall|k: u64| t1.order@.contains(k) <==> t1.clients@.contains_key(k) by {
            assert(t0.order@.contains(k) <==> t0.clients@.contains_key(k));
        }
        assert forall|k: u64| #[trigger] t1@.contains_key(k) implies {
            &&& k != 0
            &&& t1@[k].wf()
            &&& t1@[k].interests == desired_interests(t1@[k].has_pending())
        } by {
            if k != id {
                assert(t1@[k] == t0@[k]);
            } else {
                assert(t0@[id].wf());
            }
        }
        assert(table_invariant(t1@));
    }

    /// Brings the registered mask of a detached connection state in line with
    /// whether it owes bytes, and says which re-registration that takes.
    fn refresh(c: &mut ClientState<S>, id: u64) -> (r: Option<Event>)
        ensures
            final(c)@ == (ClientView { interests: desired_interests(old(c)@.has_pending()), ..old(c)@ }),
            r == update_for(id, old(c)@.interests, desired_interests(old(c)@.has_pending())),
            final(c).spec_stream() == old(c).spec_stream(),
    {
        let wanted = c.wanted_interests();
        if c.current_interests() == wanted {
            None
        } else {
            c.set_current_interests(wanted);
            Some(Event::new(wanted, PeerRole::Client(id)))
        }
    }

    /// The bytes read from connection `id` since its last complete message.
    pub fn read_buf(&self, id: u64) -> (r: Option<&[u8]>)
        ensures
            match r {
                Some(b) => self@.contains_key(id) && b@ == self@[id].read,
                None => !self@.contains_key(id),
            },
    {
        match self.clients.get(&id) {
            Some(c) => Some(c.read_buf()),
            None => None,
        }
    }

    /// The stream of connection `id`.
    pub fn stream(&self, id: u64) -> (r: Option<&S>)
        ensures
            match r {
                Some(st) => self@.contains_key(id) && *st == self.spec_streams()[id],
                None => !self@.contains_key(id),
            },
    {
        match self.clients.get(&id) {
            Some(c) => Some(c.stream()),
            None => None,
        }
    }

    /// The bytes the next write to connection `id` hands to its stream.
    pub fn unsent_bytes(&self, id: u64) -> (r: Option<&[u8]>)
        requires
            self.wf(),
        ensures
            match r {
                Some(b) => self@.contains_key(id) && b@ == self@[id].unsent(),
                None => !self@.contains_key(id),
            },
    {
        match self.clients.get(&id) {
            Some(c) => {
                proof {
                    assert(self@[id] == c@);
                }
                Some(c.unsent_bytes())
            },
            None => None,
        }
    }

    /// Takes in what one read from connection `id` reported.
    pub fn on_read(&mut self, id: u64, outcome: ReadOutcome) -> (r: Option<ReadStatus>)
        requires
            old(self).wf(),
        ensures
            final(self).wf(),
            final(self).spec_ids() == old(self).spec_ids(),
            final(self).spec_streams() == old(self).spec_streams(),
            match r {
                Some(st) => {
                    &&& old(self)@.contains_key(id)
                    &&& st == crate::client_state::read_status_of(outcome)
                    &&& final(self)@ == old(self)@.insert(
                        id,
                        ClientView {
                            read: old(self)@[id].read + crate::client_state::read_bytes_of(outcome),
                            ..old(self)@[id]
                        },
                    )
                },
                None => !old(self)@.contains_key(id) && final(self)@ == old(self)@,
            },
    {
        match self.clients.remove(&id) {
            Some(mut c) => {
                proof {
                    assert(old(self)@[id] == c@);
                }
                let st = c.on_read(outcome);
                self.clients.insert(id, c);
                proof {
                    assert(self.clients@ =~= old(self).clients@.insert(id, c));
                    Self::lemma_entry_replaced(old(self), self, id);
                }
                Some(st)
            },
            None => {
                proof {
                    assert(self.clients@ =~= old(self).clients@);
                }
                None
            },
        }
    }

    /// Forgets the bytes read from connection `id`, once they formed a
    /// complete message.
    pub fn clear_read_buf(&mut self, id: u64)
        requires
            old(self).wf(),
        ensures
            final(self).wf(),
            final(self).spec_ids() == old(self).spec_ids(),
            final(self).spec_streams() == old(self).spec_streams(),
            old(self)@.contains_key(id) ==> final(self)@ == old(self)@.insert(
                id,
                ClientView { read: Seq::empty(), ..old(self)@[id] },
            ),
            !old(self)@.contains_key(id) ==> final(self)@ == old(self)@,
    {
        match self.clients.remove(&id) {
            Some(mut c) => {
                proof {
                    assert(old(self)@[id] == c@);
                }
                c.clear_read_buf();
                self.clients.insert(id, c);
                proof {
                    assert(self.clients@ =~= old(self).clients@.insert(id, c));
                    Self::lemma_entry_replaced(old(self), self, id);
                }
            },
            None => {
                proof {
                    assert(self.clients@ =~= old(self).clients@);
                }
            },
        }
    }

    /// Begins a flush of connection `id`. When the flush is over at once the
    /// connection's mask is brought in line, and the re-registration that
    /// takes is handed back with the step.
    pub fn start_flush(&mut self, id: u64) -> (r: Option<(FlushStep, Option<Event>)>)
        requires
            old(self).wf(),
        ensures
            final(self).wf(),
            final(self).spec_ids() == old(self).spec_ids(),
            final(self).spec_streams() == old(self).spec_streams(),
            match r {
                Some((step, update)) => {
                    let p = old(self)@[id].promoted();
                    let wanted = desired_interests(p.has_pending());
                    &&& old(self)@.contains_key(id)
                    &&& step == p.step()
                    &&& update == update_for(id, old(self)@[id].interests, wanted)
                    &&& final(self)@ == old(self)@.insert(id, ClientView { interests: wanted, ..p })
                },
                None => !old(self)@.contains_key(id) && final(self)@ == old(self)@,
            },
    {
        match self.clients.remove(&id) {
            Some(mut c) => {
                proof {
                    assert(old(self)@[id] == c@);
                    crate::client_state::lemma_promoted_keeps_pending(c@);
                }
                let step = c.start_flush();
                let update = Self::refresh(&mut c, id);
                self.clients.insert(id, c);
                proof {
                    assert(self.clients@ =~= old(self).clients@.insert(id, c));
                    Self::lemma_entry_replaced(old(self), self, id);
                }
                Some((step, update))
            },
            None => {
                proof {
                    assert(self.clients@ =~= old(self).clients@);
                }
                None
            },
        }
    }

    /// Takes in what one write to connection `id` reported. When the flush
    /// is over the connection's mask is brought in line, and the
    /// re-registration that takes is handed back with the step.
    pub fn on_write_result(&mut self, id: u64, outcome: WriteOutcome) -> (r: Option<
        (FlushStep, Option<Event>),
    >)
        requires
            old(self).wf(),
        ensures
            final(self).wf(),
            final(self).spec_ids() == old(self).spec_ids(),
            final(self).spec_streams() == old(self).spec_streams(),
            match r {
                Some((step, update)) => {
                    let v = old(self)@[id].after_write(outcome).0;
                    let s = old(self)@[id].after_write(outcome).1;
                    let wanted = desired_interests(v.has_pending());
                    &&& old(self)@.contains_key(id)
                    &&& step == s
                    &&& update == update_for(id, old(self)@[id].interests, wanted)
                    &&& final(self)@ == old(self)@.insert(id, ClientView { interests: wanted, ..v })
                },
                None => !old(self)@.contains_key(id) && final(self)@ == old(self)@,
            },
    {
        match self.clients.remove(&id) {
            Some(mut c) => {
                proof {
                    assert(old(self)@[id] == c@);
                    if let WriteOutcome::Written(n) = outcome {
                        if 0 < n <= c@.unsent().len() {
                            crate::client_state::lemma_advanced_takes_prefix(c@, n as nat);
                        }
                    }
                }
                let step = c.on_write_result(outcome);
                let update = Self::refresh(&mut c, id);
                self.clients.insert(id, c);
                proof {
                    assert(self.clients@ =~= old(self).clients@.insert(id, c));
                    Self::lemma_entry_replaced(old(self), self, id);
                }
                Some((step, update))
            },
            None => {
                proof {
                    assert(self.clients@ =~= old(self).clients@);
                }
                None
            },
        }
    }
    /// Queues `data` on live connection `id` and registers it for write
    /// readiness, handing back the re-registration that takes.
    fn queue_to(&mut self, id: u64, data: Vec<u8>) -> (r: Option<Event>)
        requires
            old(self).wf(),
            old(self)@.contains_key(id),
        ensures
            final(self).wf(),
            final(self).spec_ids() == old(self).spec_ids(),
            final(self).spec_streams() == old(self).spec_streams(),
            final(self)@ == old(self)@.insert(id, queued_view(old(self)@[id], data@)),
            r == update_for(id, old(self)@[id].interests, READ_WRITE_INTERESTS),
    {
        match self.clients.remove(&id) {
            Some(mut c) => {
                proof {
                    assert(old(self)@[id] == c@);
                }
                c.queue_write(data);
                let update = Self::refresh(&mut c, id);
                self.clients.insert(id, c);
                proof {
                    assert(self.clients@ =~= old(self).clients@.insert(id, c));
                    Self::lemma_entry_replaced(old(self), self, id);
                }
                update
            },
            None => None,
        }
    }

    /// Carries out what a handler asked for after a complete message from
    /// `origin`: each recipient gets the payload at the tail of its queue and
    /// is registered for write readiness. The re-registrations that takes
    /// are handed back, one per recipient that was not yet registered so.
    pub fn apply_action(&mut self, origin: u64, action: HandlerAction) -> (r: Vec<Event>)
        requires
            old(self).wf(),
        ensures
            final(self).wf(),
            final(self).spec_ids() == old(self).spec_ids(),
            final(self).spec_streams() == old(self).spec_streams(),
            final(self)@ == delivered(old(self)@, origin, action),
            forall|i: int| 0 <= i < r@.len() ==> (#[trigger] r@[i]).events == READ_WRITE_INTERESTS,
            r@.map_values(|e: Event| e.data).no_duplicates(),
            r@.map_values(|e: Event| e.data).to_set() == needing_update(old(self)@, origin, action),
    {
        let ghost old_map = self@;
        let ghost live = self@.dom();
        let ids = self.ids();
        let mut updates: Vec<Event> = Vec::new();
        proof {
            self.lemma_wf();
        }
        let data: &Vec<u8> = match &action {
            HandlerAction::Broadcast(d) => d,
            HandlerAction::Reply(d) => d,
            HandlerAction::SendTo { target_client_id, data } => data,
            HandlerAction::SendToAll(d) => d,
            HandlerAction::NoAction => {
                proof {
                    assert(delivered(old_map, origin, action) =~= old_map);
                    assert(needing_update(old_map, origin, action) =~= Set::<u64>::empty());
                    assert(updates@.map_values(|e: Event| e.data) =~= Seq::<u64>::empty());
                }
                return updates;
            },
        };
        let mut i: usize = 0;
        while i < ids.len()
            invariant
                self.wf(),
                self.spec_ids() == old(self).spec_ids(),
                self.spec_streams() == old(self).spec_streams(),
                old_map == old(self)@,
                live == old_map.dom(),
                ids@ == old(self).spec_ids(),
                ids@.no_duplicates(),
                ids@.to_set() == live,
                data@ == action_payload(action),
                0 <= i <= ids@.len(),
                self@.dom() == live,
                forall|k: u64| #[trigger] self@.contains_key(k) ==> self@[k] == if ids@.subrange(0, i as int).contains(k)
                    && is_recipient(action, origin, live, k) {
                    queued_view(old_map[k], data@)
                } else {
                    old_map[k]
                },
                forall|j: int| 0 <= j < updates@.len() ==> (#[trigger] updates@[j]).events == READ_WRITE_INTERESTS,
                updates@.map_values(|e: Event| e.data).no_duplicates(),
                updates@.map_values(|e: Event| e.data).to_set() == needing_update(old_map, origin, action).filter(
                    |k: u64| ids@.subrange(0, i as int).contains(k),
                ),
            decreases ids@.len() - i,
        {
            let k = ids[i];
            let ghost before = self@;
            let ghost before_updates = updates@;
            proof {
                assert(ids@.to_set().contains(k));
                assert(!ids@.subrange(0, i as int).contains(k)) by {
                    if ids@.subrange(0, i as int).contains(k) {
                        let sub = ids@.subrange(0, i as int);
                        let j = choose|j: int| 0 <= j < sub.len() && sub[j] == k;
                        assert(ids@[j] == ids@[i as int]);
                    }
                }
                assert(before[k] == old_map[k]);
            }
            let ghost mut grew = false;
            if self.is_recipient_of(origin, &action, k) {
                let copy = vstd::slice::slice_to_vec(data.as_slice());
                let update = self.queue_to(k, copy);
                match update {
                    Some(e) => {
                        updates.push(e);
                        proof {
                            grew = true;
                        }
                    },
                    None => {},
                }
            }
            proof {
                assert(grew == needing_update(old_map, origin, action).contains(k));
                assert(grew == (updates@.len() > before_updates.len()));
            }
            i = i + 1;
            proof {
                let done = ids@.subrange(0, i as int);
                let prev = ids@.subrange(0, i - 1);
                assert forall|x: u64| done.contains(x) <==> (prev.contains(x) || x == k) by {
                    if done.contains(x) {
                        let j = choose|j: int| 0 <= j < done.len() && done[j] == x;
                        if j < i - 1 {
                            assert(prev[j] == x);
                        }
                    }
                    if prev.contains(x) {
                        let j = choose|j: int| 0 <= j < prev.len() && prev[j] == x;
                        assert(done[j] == x);
                    }
                    if x == k {
                        assert(done[i - 1] == x);
                    }
                }
                assert forall|x: u64| #[trigger] self@.contains_key(x) implies self@[x] == if done.contains(x)
                    && is_recipient(action, origin, live, x) {
                    queued_view(old_map[x], data@)
                } else {
                    old_map[x]
                } by {
                    if x != k {
                        assert(before.contains_key(x));
                    }
                }
                let ds = updates@.map_values(|e: Event| e.data);
                let bs = before_updates.map_values(|e: Event| e.data);
                if updates@.len() > before_updates.len() {
                    assert(ds =~= bs.push(k));
                    assert(!bs.contains(k)) by {
                        if bs.contains(k) {
                            let j = choose|j: int| 0 <= j < bs.len() && bs[j] == k;
                            assert(bs.to_set().contains(k));
                        }
                    }
                } else {
                    assert(ds =~= bs);
                }
                let target = needing_update(old_map, origin, action);
                assert forall|y: u64| ds.to_set().contains(y) <==> target.filter(
                    |z: u64| done.contains(z),
                ).contains(y) by {
                    assert(bs.to_set().contains(y) <==> target.filter(|z: u64| prev.contains(z)).contains(
                        y,
                    ));
                    if updates@.len() > before_updates.len() {
                        assert(ds.contains(y) <==> (bs.contains(y) || y == k)) by {
                            if y == k {
                                assert(ds[ds.len() - 1] == k);
                            }
                            if bs.contains(y) {
                                let j = choose|j: int| 0 <= j < bs.len() && bs[j] == y;
                                assert(ds[j] == y);
                            }
                            if ds.contains(y) && y != k {
                                let j = choose|j: int| 0 <= j < ds.len() && ds[j] == y;
                                assert(bs[j] == y);
                            }
                        }
                    }
                }
                assert(ds.to_set() =~= target.filter(|z: u64| done.contains(z)));
            }
        }
        proof {
            assert(ids@.subrange(0, i as int) =~= ids@);
            assert(self@ =~= delivered(old_map, origin, action));
            assert(needing_update(old_map, origin, action).filter(|y: u64| ids@.contains(y))
                =~= needing_update(old_map, origin, action));
        }
        updates
    }

    /// Whether live connection `id` receives an action from `origin`.
    fn is_recipient_of(&self, origin: u64, action: &HandlerAction, id: u64) -> (r: bool)
        ensures
            r == is_recipient(*action, origin, self@.dom(), id),
    {
        self.contains(id) && match action {
            HandlerAction::Broadcast(_) => id != origin,
            HandlerAction::Reply(_) => id == origin,
            HandlerAction::SendTo { target_client_id, data } => id == *target_client_id as u64,
            HandlerAction::SendToAll(_) => true,
            HandlerAction::NoAction => false,
        }
    }
}

} // verus!
