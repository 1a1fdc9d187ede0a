use epoll_worker::{
    checked_ready_count, is_valid_descriptor, ClientState, ConnectionTable, Event, EventPlan,
    FlushStep, HandlerAction, Operation, PeerRole, ReadOutcome, ReadStatus, WriteOutcome,
    WriteStatus, EPOLLERR, EPOLLET, EPOLLHUP, EPOLLIN, EPOLLONESHOT, EPOLLOUT, EPOLLPRI,
    EPOLLRDHUP, READ_INTERESTS, READ_WRITE_INTERESTS,
};

/// Drains connection `id` with writes that each accept at most `chunk`
/// bytes, and returns what was written and the updates that were asked for.
fn drain(
    table: &mut ConnectionTable<u32>,
    id: u64,
    chunk: usize,
) -> (Vec<u8>, WriteStatus, Vec<Event>) {
    let mut out = Vec::new();
    let mut updates = Vec::new();
    let (mut step, update) = table.start_flush(id).unwrap();
    updates.extend(update);
    loop {
        match step {
            FlushStep::Send => {
                let bytes = table.unsent_bytes(id).unwrap();
                let n = bytes.len().min(chunk);
                out.extend_from_slice(&bytes[..n]);
                let (next, update) = table.on_write_result(id, WriteOutcome::Written(n)).unwrap();
                updates.extend(update);
                step = next;
            }
            FlushStep::Finished(status) => return (out, status, updates),
        }
    }
}

fn table_with(ids: &[u64]) -> ConnectionTable<u32> {
    let mut table = ConnectionTable::new();
    for (i, id) in ids.iter().enumerate() {
        assert!(table.insert(*id, i as u32).is_ok());
    }
    table
}

fn deliver(table: &mut ConnectionTable<u32>, id: u64, bytes: &[u8]) {
    assert_eq!(
        table.on_read(id, ReadOutcome::Data(bytes.to_vec())),
        Some(ReadStatus::Continue)
    );
    assert_eq!(table.on_read(id, ReadOutcome::WouldBlock), Some(ReadStatus::Drained));
}

#[test]
fn kernel_bit_values() {
    assert_eq!(EPOLLIN, 0x1);
    assert_eq!(EPOLLPRI, 0x2);
    assert_eq!(EPOLLOUT, 0x4);
    assert_eq!(EPOLLERR, 0x8);
    assert_eq!(EPOLLHUP, 0x10);
    assert_eq!(EPOLLRDHUP, 0x2000);
    assert_eq!(EPOLLONESHOT, 1 << 30);
    assert_eq!(EPOLLET, 1 << 31);
    assert_eq!(READ_INTERESTS, 0x8000_0001);
    assert_eq!(READ_WRITE_INTERESTS, 0x8000_0005);
}

#[test]
fn peer_role_token_round_trip() {
    assert_eq!(PeerRole::from(0u64), PeerRole::Server);
    assert_eq!(PeerRole::from(42u64), PeerRole::Client(42));
    assert_eq!(u64::from(PeerRole::Server), 0);
    assert_eq!(u64::from(PeerRole::Client(9)), 9);
    for id in [1u64, 7, u64::MAX] {
        assert_eq!(PeerRole::from(u64::from(PeerRole::Client(id))), PeerRole::Client(id));
    }
}

#[test]
fn operation_codes() {
    assert_eq!(i32::from(Operation::Add), 1);
    assert_eq!(i32::from(Operation::Del), 2);
    assert_eq!(i32::from(Operation::Mod), 3);
}

#[test]
fn event_accessors() {
    let e = Event::new(EPOLLIN | EPOLLET, PeerRole::Client(17));
    assert_eq!(e.event_type(), EPOLLIN | EPOLLET);
    assert_eq!(e.data(), 17);
    assert_eq!(e.role(), PeerRole::Client(17));
    let s = Event::new(EPOLLIN, PeerRole::Server);
    assert_eq!(s.data(), 0);
    assert_eq!(s.role(), PeerRole::Server);
}

#[test]
fn descriptor_and_count_checks() {
    assert!(is_valid_descriptor(0));
    assert!(is_valid_descriptor(12));
    assert!(!is_valid_descriptor(-1));
    assert_eq!(checked_ready_count(0, 1024), Some(0));
    assert_eq!(checked_ready_count(3, 1024), Some(3));
    assert_eq!(checked_ready_count(1024, 1024), Some(1024));
    assert_eq!(checked_ready_count(1025, 1024), None);
    assert_eq!(checked_ready_count(-1, 1024), None);
}

#[test]
fn client_state_flushes_in_queue_order() {
    let mut c = ClientState::new(3u32);
    assert!(!c.has_pending_writes());
    c.queue_write(b"abc".to_vec());
    c.queue_write(b"de".to_vec());
    assert!(c.has_pending_writes());
    assert_eq!(c.start_flush(), FlushStep::Send);
    assert_eq!(c.unsent_bytes(), b"abc");
    assert_eq!(c.on_write_result(WriteOutcome::Written(2)), FlushStep::Send);
    assert_eq!(c.unsent_bytes(), b"c");
    assert_eq!(c.on_write_result(WriteOutcome::Written(1)), FlushStep::Send);
    assert_eq!(c.unsent_bytes(), b"de");
    assert_eq!(
        c.on_write_result(WriteOutcome::Written(2)),
        FlushStep::Finished(WriteStatus::Drained)
    );
    assert!(!c.has_pending_writes());
    assert_eq!(c.unsent_bytes(), b"");
    assert_eq!(*c.stream(), 3);
}

#[test]
fn client_state_write_errors() {
    let mut c = ClientState::new(());
    c.queue_write(b"xyz".to_vec());
    assert_eq!(c.start_flush(), FlushStep::Send);
    assert_eq!(
        c.on_write_result(WriteOutcome::Written(0)),
        FlushStep::Finished(WriteStatus::Error)
    );
    assert_eq!(
        c.on_write_result(WriteOutcome::Written(4)),
        FlushStep::Finished(WriteStatus::Error)
    );
    assert_eq!(
        c.on_write_result(WriteOutcome::Failed),
        FlushStep::Finished(WriteStatus::Error)
    );
    assert_eq!(c.unsent_bytes(), b"xyz");
    assert!(c.has_pending_writes());
}

#[test]
fn client_state_flush_of_nothing_is_drained() {
    let mut c = ClientState::new(());
    assert_eq!(c.start_flush(), FlushStep::Finished(WriteStatus::Drained));
    c.queue_write(Vec::new());
    assert!(c.has_pending_writes());
    assert_eq!(c.start_flush(), FlushStep::Finished(WriteStatus::Drained));
    assert!(!c.has_pending_writes());
}

#[test]
fn flush_is_idempotent_on_would_block() {
    let mut c = ClientState::new(());
    c.queue_write(b"hello".to_vec());
    for _ in 0..3 {
        assert_eq!(c.start_flush(), FlushStep::Send);
        assert_eq!(c.unsent_bytes(), b"hello");
        assert_eq!(
            c.on_write_result(WriteOutcome::WouldBlock),
            FlushStep::Finished(WriteStatus::WouldBlock)
        );
        assert!(c.has_pending_writes());
    }
}

#[test]
fn client_state_read_outcomes() {
    let mut c = ClientState::new(());
    assert_eq!(c.on_read(ReadOutcome::Data(b"he".to_vec())), ReadStatus::Continue);
    assert_eq!(c.on_read(ReadOutcome::Data(b"llo\n".to_vec())), ReadStatus::Continue);
    assert_eq!(c.read_buf(), b"hello\n");
    assert_eq!(c.on_read(ReadOutcome::WouldBlock), ReadStatus::Drained);
    assert_eq!(c.on_read(ReadOutcome::Data(Vec::new())), ReadStatus::PeerClosed);
    assert_eq!(c.on_read(ReadOutcome::Failed), ReadStatus::Fatal);
    assert_eq!(c.read_buf(), b"hello\n");
    c.clear_read_buf();
    assert_eq!(c.read_buf(), b"");
}

#[test]
fn client_state_interests() {
    let mut c = ClientState::new(());
    assert_eq!(c.current_interests(), 0);
    assert_eq!(c.wanted_interests(), READ_INTERESTS);
    c.queue_write(b"a".to_vec());
    assert_eq!(c.wanted_interests(), READ_WRITE_INTERESTS);
    c.set_current_interests(READ_WRITE_INTERESTS);
    assert_eq!(c.current_interests(), READ_WRITE_INTERESTS);
    assert_eq!(c.into_stream(), ());
}

#[test]
fn accept_registers_and_tears_down_once() {
    let mut table: ConnectionTable<u32> = ConnectionTable::new();
    let listener = Event::new(EPOLLIN, PeerRole::Server);
    assert_eq!(table.plan(&listener), EventPlan::Accept);
    assert!(table.can_insert(5));
    assert_eq!(
        ConnectionTable::<u32>::registration(5),
        Event { events: READ_INTERESTS, data: 5 }
    );
    assert!(table.insert(5, 50).is_ok());
    assert_eq!(table.len(), 1);
    assert!(table.contains(5));
    assert_eq!(table.get(5).unwrap().current_interests(), READ_INTERESTS);
    assert_eq!(table.stream(5), Some(&50));
    assert_eq!(table.insert(5, 51), Err(51));
    assert_eq!(table.insert(0, 52), Err(52));
    let removed = table.remove(5).unwrap();
    assert_eq!(removed.into_stream(), 50);
    assert!(table.remove(5).is_none());
    assert_eq!(table.len(), 0);
    assert!(table.ids().is_empty());
}

#[test]
fn plans_for_client_events() {
    let table = table_with(&[4, 8]);
    assert_eq!(
        table.plan(&Event::new(EPOLLIN, PeerRole::Client(4))),
        EventPlan::Serve { id: 4, read: true, write: false, close: false }
    );
    assert_eq!(
        table.plan(&Event::new(EPOLLIN | EPOLLOUT, PeerRole::Client(8))),
        EventPlan::Serve { id: 8, read: true, write: true, close: false }
    );
    assert_eq!(
        table.plan(&Event::new(EPOLLIN | EPOLLRDHUP, PeerRole::Client(8))),
        EventPlan::Serve { id: 8, read: true, write: false, close: true }
    );
    assert_eq!(
        table.plan(&Event::new(EPOLLERR | EPOLLHUP, PeerRole::Client(4))),
        EventPlan::Serve { id: 4, read: false, write: false, close: true }
    );
    assert_eq!(table.plan(&Event::new(EPOLLIN, PeerRole::Client(9))), EventPlan::Ignore);
    assert_eq!(table.ids(), vec![4, 8]);
}

#[test]
fn echo_reply_comes_back_exactly() {
    let mut table = table_with(&[5]);
    deliver(&mut table, 5, b"ping\n");
    let message = table.read_buf(5).unwrap().to_vec();
    assert_eq!(message, b"ping\n");
    table.clear_read_buf(5);
    assert_eq!(table.read_buf(5), Some(&b""[..]));
    let updates = table.apply_action(5, HandlerAction::Reply(message));
    assert_eq!(updates, vec![Event { events: READ_WRITE_INTERESTS, data: 5 }]);
    let (out, status, updates) = drain(&mut table, 5, 4096);
    assert_eq!(out, b"ping\n");
    assert_eq!(status, WriteStatus::Drained);
    assert_eq!(updates, vec![Event { events: READ_INTERESTS, data: 5 }]);
    assert!(!table.get(5).unwrap().has_pending_writes());
}

#[test]
fn broadcast_to_two_peers() {
    let mut table = table_with(&[5, 6]);
    deliver(&mut table, 5, b"hello from A\n");
    let message = table.read_buf(5).unwrap().to_vec();
    table.clear_read_buf(5);
    let updates = table.apply_action(5, HandlerAction::Broadcast(message));
    assert_eq!(updates, vec![Event { events: READ_WRITE_INTERESTS, data: 6 }]);
    let (out, _, _) = drain(&mut table, 6, 4096);
    assert!(String::from_utf8_lossy(&out).contains("hello from A"));
    let (own, status, own_updates) = drain(&mut table, 5, 4096);
    assert!(own.is_empty());
    assert_eq!(status, WriteStatus::Drained);
    assert!(own_updates.is_empty());
}

#[test]
fn broadcast_to_many() {
    let ids = [11u64, 12, 13, 14, 15, 16];
    let mut table = table_with(&ids);
    let updates = table.apply_action(11, HandlerAction::Broadcast(b"hi\n".to_vec()));
    let targets: Vec<u64> = updates.iter().map(|e| e.data).collect();
    assert_eq!(targets, vec![12, 13, 14, 15, 16]);
    for id in &ids[1..] {
        let (out, _, _) = drain(&mut table, *id, 4096);
        assert!(String::from_utf8_lossy(&out).contains("hi"));
    }
    assert!(!table.get(11).unwrap().has_pending_writes());
}

#[test]
fn send_to_all_includes_sender() {
    let mut table = table_with(&[3, 4]);
    let updates = table.apply_action(3, HandlerAction::SendToAll(b"all".to_vec()));
    assert_eq!(updates.len(), 2);
    for id in [3u64, 4] {
        let (out, _, _) = drain(&mut table, id, 2);
        assert_eq!(out, b"all");
    }
}

#[test]
fn send_to_present_and_absent_targets() {
    let mut table = table_with(&[3, 4]);
    let updates = table.apply_action(
        3,
        HandlerAction::SendTo { target_client_id: 4, data: b"direct".to_vec() },
    );
    assert_eq!(updates, vec![Event { events: READ_WRITE_INTERESTS, data: 4 }]);
    let none = table.apply_action(
        3,
        HandlerAction::SendTo { target_client_id: 99, data: b"lost".to_vec() },
    );
    assert!(none.is_empty());
    assert!(!table.get(3).unwrap().has_pending_writes());
    let (out, _, _) = drain(&mut table, 4, 4096);
    assert_eq!(out, b"direct");
    assert!(table.apply_action(3, HandlerAction::NoAction).is_empty());
}

#[test]
fn replies_keep_their_order() {
    let mut table = table_with(&[7]);
    assert_eq!(table.apply_action(7, HandlerAction::Reply(b"one ".to_vec())).len(), 1);
    assert!(table.apply_action(7, HandlerAction::Reply(b"two ".to_vec())).is_empty());
    assert!(table.apply_action(7, HandlerAction::Reply(b"three".to_vec())).is_empty());
    let (out, status, _) = drain(&mut table, 7, 3);
    assert_eq!(out, b"one two three");
    assert_eq!(status, WriteStatus::Drained);
}

#[test]
fn partial_write_backpressure() {
    let payload: Vec<u8> = (0..(1usize << 20)).map(|i| (i % 251) as u8).collect();
    let mut table = table_with(&[9]);
    let updates = table.apply_action(9, HandlerAction::Reply(payload.clone()));
    assert_eq!(updates, vec![Event { events: READ_WRITE_INTERESTS, data: 9 }]);
    let mut out = Vec::new();
    let mut would_blocks = 0;
    let mut last_update = None;
    loop {
        let (mut step, update) = table.start_flush(9).unwrap();
        last_update = update.or(last_update);
        // The peer's window takes one chunk per readiness notification.
        if step == FlushStep::Send {
            let bytes = table.unsent_bytes(9).unwrap();
            let n = bytes.len().min(65536);
            out.extend_from_slice(&bytes[..n]);
            let (next, update) = table.on_write_result(9, WriteOutcome::Written(n)).unwrap();
            last_update = update.or(last_update);
            step = next;
        }
        if step == FlushStep::Send {
            let (next, update) = table.on_write_result(9, WriteOutcome::WouldBlock).unwrap();
            assert_eq!(next, FlushStep::Finished(WriteStatus::WouldBlock));
            assert_eq!(update, None);
            assert_eq!(table.get(9).unwrap().current_interests(), READ_WRITE_INTERESTS);
            would_blocks += 1;
            continue;
        }
        assert_eq!(step, FlushStep::Finished(WriteStatus::Drained));
        break;
    }
    assert!(would_blocks >= 1);
    assert_eq!(out, payload);
    assert_eq!(last_update, Some(Event { events: READ_INTERESTS, data: 9 }));
    assert_eq!(table.get(9).unwrap().current_interests(), READ_INTERESTS);
}

#[test]
fn incomplete_framing_waits_for_newline() {
    let mut table = table_with(&[2]);
    let complete = |b: &[u8]| b.last() == Some(&b'\n');
    let mut messages = Vec::new();
    for part in [&b"he"[..], &b"llo\n"[..]] {
        deliver(&mut table, 2, part);
        let buf = table.read_buf(2).unwrap();
        if complete(buf) {
            messages.push(buf.to_vec());
            table.clear_read_buf(2);
        }
    }
    assert_eq!(messages, vec![b"hello\n".to_vec()]);
    assert_eq!(table.read_buf(2), Some(&b""[..]));
}

#[test]
fn peer_close_and_read_failure() {
    let mut table = table_with(&[2]);
    assert_eq!(table.on_read(2, ReadOutcome::Data(Vec::new())), Some(ReadStatus::PeerClosed));
    assert_eq!(table.on_read(2, ReadOutcome::Failed), Some(ReadStatus::Fatal));
    assert_eq!(table.on_read(3, ReadOutcome::WouldBlock), None);
    assert_eq!(table.start_flush(3), None);
    assert_eq!(table.on_write_result(3, WriteOutcome::WouldBlock), None);
    assert_eq!(table.unsent_bytes(3), None);
}

#[test]
fn statuses_that_end_a_connection() {
    assert!(ReadStatus::PeerClosed.ends_connection());
    assert!(ReadStatus::Fatal.ends_connection());
    assert!(!ReadStatus::Drained.ends_connection());
    assert!(!ReadStatus::Continue.ends_connection());
    assert!(WriteStatus::Error.ends_connection());
    assert!(!WriteStatus::WouldBlock.ends_connection());
    assert!(!WriteStatus::Drained.ends_connection());
}
