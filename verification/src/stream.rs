//! The subscription stream: what one live connection does with each answer of
//! the hub, until it is cancelled or the hub has closed its registration.

use vstd::prelude::*;
use crate::hub::{Delivery, Hub, SubscriberHandle};
use crate::pixel::CommitEvent;

verus! {

/// What the connection's loop does next.
#[derive(Clone, Copy, Debug, PartialEq, Eq, Structural)]
pub enum StreamAction {
    /// Send this event outward, then ask again.
    Forward(CommitEvent),
    /// Events were dropped; ask again at once, the stream goes on.
    Resume,
    /// Nothing is pending; ask again after the next publication.
    Wait,
    /// End the stream.
    Stop,
}

/// The action that answers a delivery: an event is forwarded, a lag is
/// passed over in silence, and only a closed registration ends the stream.
pub open spec fn action_for(delivery: Delivery) -> StreamAction {
    match delivery {
        Delivery::Event(event) => StreamAction::Forward(event),
        Delivery::Lagged(_) => StreamAction::Resume,
        Delivery::Idle => StreamAction::Wait,
        Delivery::Closed => StreamAction::Stop,
    }
}

/// A stream ends only when its registration is closed: no lag, however long,
/// and no idle mailbox stops it.
pub proof fn lemma_only_closed_stops(delivery: Delivery)
    ensures
        action_for(delivery) == StreamAction::Stop <==> delivery == Delivery::Closed,
{
}

/// One turn of a connection's loop. A cancelled connection gives up its
/// registration and stops; a live one takes its next delivery from the hub
/// and acts on it.
pub fn next_action(hub: &mut Hub, handle: &SubscriberHandle, cancelled: bool) -> (action:
    StreamAction)
    ensures
        final(hub)@.wf(),
        cancelled ==> action == StreamAction::Stop && final(hub)@ == old(hub)@.unsubscribe(
            handle.id(),
        ),
        !cancelled ==> final(hub)@ == old(hub)@.receive(handle.id()).0 && action == action_for(
            old(hub)@.receive(handle.id()).1,
        ),
{
    if cancelled {
        hub.unsubscribe(handle);
        return StreamAction::Stop;
    }
    match hub.next_event(handle) {
        Delivery::Event(event) => StreamAction::Forward(event),
        Delivery::Lagged(_) => StreamAction::Resume,
        Delivery::Idle => StreamAction::Wait,
        Delivery::Closed => StreamAction::Stop,
    }
}

} // verus!
