//! The write coordinator: one pixel update is validated, committed to the
//! durable store, mirrored into the canvas and published, in that order, and
//! nothing is mirrored or published that the store did not accept.
//!
//! A submission runs in two halves around the store's answer: `prepare`
//! validates and builds the command to send, `complete` takes the answer.

use vstd::prelude::*;
use crate::canvas::{cell_bytes, lemma_patched_cell, patched, CanvasCache};
use crate::hub::{Delivery, Hub, HubView};
use crate::ordering::{
    as_deliveries, lemma_apply_wf, lemma_received_after_lag, lemma_received_in_order, HubOp,
};
use crate::pixel::{color_bytes, CommitEvent, Pixel, CANVAS_BYTES};
use crate::store::{
    command_args, set_pixel_args, transition, ConnectionState, RedisServer, StoreError,
    StoreEvent, SupervisorAction,
};

verus! {

/// Why a write was rejected.
#[derive(Clone, Copy, Debug, PartialEq, Eq, Structural)]
pub enum WriteError {
    /// A coordinate lies off the canvas.
    OutOfBounds,
    /// The durable store could not be reached or refused the command.
    StoreUnavailable,
}

/// The HTTP status that reports the outcome of a write: success, a client
/// error for a pixel off the canvas, and the overload status, which invites a
/// retry, for a store that cannot be reached.
pub open spec fn status_code(outcome: Result<(), WriteError>) -> u16 {
    match outcome {
        Ok(_) => 200,
        Err(WriteError::OutOfBounds) => 400,
        Err(WriteError::StoreUnavailable) => 429,
    }
}

/// Returns the HTTP status that reports the outcome of a write.
pub fn http_status(outcome: Result<(), WriteError>) -> (code: u16)
    ensures
        code == status_code(outcome),
{
    match outcome {
        Ok(_) => 200,
        Err(WriteError::OutOfBounds) => 400,
        Err(WriteError::StoreUnavailable) => 429,
    }
}

/// The first half of a write, before anything is sent: the pixel is validated,
/// then the store adapter is asked for the command that commits it. An
/// out-of-bounds pixel is rejected whatever the state of the connection.
pub fn prepare(server: &RedisServer, pixel: Pixel) -> (r: Result<redis::Cmd, WriteError>)
    ensures
        !pixel.in_bounds() ==> r == Err::<redis::Cmd, WriteError>(WriteError::OutOfBounds),
        pixel.in_bounds() && server@ != ConnectionState::Connected ==> r == Err::<
            redis::Cmd,
            WriteError,
        >(WriteError::StoreUnavailable),
        pixel.in_bounds() && server@ == ConnectionState::Connected ==> r is Ok && command_args(
            r->Ok_0,
        ) == set_pixel_args(pixel),
{
    if !pixel.is_in_bounds() {
        return Err(WriteError::OutOfBounds);
    }
    match server.commit_pixel(pixel) {
        Ok(cmd) => Ok(cmd),
        Err(_) => Err(WriteError::StoreUnavailable),
    }
}

/// The second half of a write, once the store has answered the command of
/// `prepare` with `reply`.
///
/// An accepted pixel is written into the canvas and then published to every
/// subscriber; the write succeeds whether or not anybody is subscribed. A
/// refused command leaves canvas and hub untouched, and the adapter takes the
/// connection as lost; the second component says what the supervisor of the
/// connection is to do. An out-of-bounds pixel changes nothing.
pub fn complete(
    server: &mut RedisServer,
    canvas: &mut CanvasCache,
    hub: &mut Hub,
    pixel: Pixel,
    reply: Result<(), StoreError>,
) -> (r: (Result<(), WriteError>, SupervisorAction))
    ensures
        !pixel.in_bounds() ==> {
            &&& r == (Err::<(), WriteError>(WriteError::OutOfBounds), SupervisorAction::Idle)
            &&& final(server)@ == old(server)@
            &&& final(canvas)@ == old(canvas)@
            &&& final(hub)@ == old(hub)@
        },
        pixel.in_bounds() && reply is Err ==> {
            &&& r.0 == Err::<(), WriteError>(WriteError::StoreUnavailable)
            &&& (final(server)@, r.1) == transition(old(server)@, StoreEvent::ConnectionLost)
            &&& final(canvas)@ == old(canvas)@
            &&& final(hub)@ == old(hub)@
        },
        pixel.in_bounds() && reply is Ok ==> {
            &&& r == (Ok::<(), WriteError>(()), SupervisorAction::Idle)
            &&& final(server)@ == old(server)@
            &&& final(canvas)@ == patched(old(canvas)@, pixel.position(), pixel.color)
            &&& final(hub)@ == old(hub)@.publish(CommitEvent::of(pixel))
        },
{
    if !pixel.is_in_bounds() {
        return (Err(WriteError::OutOfBounds), SupervisorAction::Idle);
    }
    match reply {
        Err(_) => {
            let action = server.step(StoreEvent::ConnectionLost);
            (Err(WriteError::StoreUnavailable), action)
        },
        Ok(_) => {
            canvas.patch(pixel.cell(), pixel.color);
            hub.publish(CommitEvent::from_pixel(pixel));
            (Ok(()), SupervisorAction::Idle)
        },
    }
}

/// An accepted write is visible. The snapshot holds the channel bytes of the
/// color in the pixel's cell. Every registered subscriber has the matching
/// event as the newest of its mailbox and is handed it after what was pending
/// before it and at most one report of a lag; one that had missed nothing and
/// had room is handed what was pending and then the event, nothing else.
pub proof fn lemma_accepted_write_is_observed(
    canvas: Seq<u8>,
    hub: HubView,
    pixel: Pixel,
    id: u64,
)
    requires
        canvas.len() == CANVAS_BYTES,
        pixel.in_bounds(),
        hub.wf(),
        hub.registered(id),
    ensures
        cell_bytes(patched(canvas, pixel.position(), pixel.color), pixel.position())
            == color_bytes(pixel.color),
        ({
            let event = CommitEvent::of(pixel);
            let after = hub.publish(event);
            let mailbox = after.mailboxes[id];
            let report: nat = if mailbox.missed > 0 {
                1
            } else {
                0
            };
            &&& after.registered(id)
            &&& mailbox.pending.len() > 0
            &&& mailbox.pending.last() == event
            &&& after.deliveries(id, report + mailbox.pending.len()).last() == Delivery::Event(
                event,
            )
        }),
        hub.mailboxes[id].missed == 0 && hub.mailboxes[id].pending.len() < hub.capacity
            ==> hub.publish(CommitEvent::of(pixel)).deliveries(
            id,
            hub.mailboxes[id].pending.len() + 1,
        ) == as_deliveries(hub.mailboxes[id].pending.push(CommitEvent::of(pixel))),
{
    lemma_patched_cell(canvas, pixel.position(), pixel.color, pixel.position());
    let event = CommitEvent::of(pixel);
    let after = hub.publish(event);
    let mailbox = after.mailboxes[id];
    let pending = mailbox.pending;
    assert(pending.take(pending.len() as int) =~= pending);
    lemma_apply_wf(hub, HubOp::Publish(event));
    if mailbox.missed > 0 {
        lemma_received_after_lag(after, id, pending.len());
    } else {
        lemma_received_in_order(after, id, pending.len());
    }
}

} // verus!
