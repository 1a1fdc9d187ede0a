use vstd::prelude::*;

verus! {

/// What a handler asks the server to send after a complete message.
#[derive(Debug, PartialEq, Eq)]
pub enum HandlerAction {
    /// Send to every connection except the one the message came from.
    Broadcast(Vec<u8>),
    /// Send back to the connection the message came from.
    Reply(Vec<u8>),
    /// Send to one connection, if it is still connected.
    SendTo { target_client_id: u32, data: Vec<u8> },
    /// Send to every connection, the sender included.
    SendToAll(Vec<u8>),
    /// Send nothing.
    NoAction,
}

/// The bytes an action sends.
pub open spec fn action_payload(action: HandlerAction) -> Seq<u8> {
    match action {
        HandlerAction::Broadcast(d) => d@,
        HandlerAction::Reply(d) => d@,
        HandlerAction::SendTo { target_client_id, data } => data@,
        HandlerAction::SendToAll(d) => d@,
        HandlerAction::NoAction => Seq::empty(),
    }
}

/// Whether connection `id` is among those an action from `origin` sends to,
/// out of the connections in `live`.
pub open spec fn is_recipient(action: HandlerAction, origin: u64, live: Set<u64>, id: u64) -> bool {
    live.contains(id) && match action {
        HandlerAction::Broadcast(_) => id != origin,
        HandlerAction::Reply(_) => id == origin,
        HandlerAction::SendTo { target_client_id, data } => id == target_client_id as u64,
        HandlerAction::SendToAll(_) => true,
        HandlerAction::NoAction => false,
    }
}

} // verus!
