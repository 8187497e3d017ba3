//! What subscribers observe: publication order is kept, a lagging subscriber
//! loses only its oldest events, and a lag never ends a stream.

use vstd::prelude::*;
use crate::hub::{Delivery, HubView, MailboxView};
use crate::pixel::CommitEvent;

verus! {

/// The newest `capacity` elements of `events`, or all of them if they are
/// fewer.
pub open spec fn newest(events: Seq<CommitEvent>, capacity: nat) -> Seq<CommitEvent> {
    if events.len() <= capacity {
        events
    } else {
        events.skip(events.len() - capacity)
    }
}

/// How many of `events` a mailbox of `capacity` cannot keep.
pub open spec fn overflow(events: Seq<CommitEvent>, capacity: nat) -> nat {
    if events.len() <= capacity {
        0
    } else {
        (events.len() - capacity) as nat
    }
}

/// The deliveries that hand out `events` one by one.
pub open spec fn as_deliveries(events: Seq<CommitEvent>) -> Seq<Delivery> {
    Seq::new(events.len(), |i: int| Delivery::Event(events[i]))
}

proof fn lemma_enqueue_all(mailbox: MailboxView, capacity: nat, events: Seq<CommitEvent>)
    requires
        capacity > 0,
        mailbox.pending.len() <= capacity,
        mailbox.missed <= u64::MAX,
    ensures
        mailbox.enqueue_all(capacity, events).pending == newest(
            mailbox.pending + events,
            capacity,
        ),
        mailbox.enqueue_all(capacity, events).missed == if mailbox.missed + overflow(
            mailbox.pending + events,
            capacity,
        ) <= u64::MAX {
            mailbox.missed + overflow(mailbox.pending + events, capacity)
        } else {
            u64::MAX as nat
        },
    decreases events.len(),
{
    let all = mailbox.pending + events;
    if events.len() == 0 {
        assert(all =~= mailbox.pending);
    } else {
        let earlier = events.drop_last();
        let before = mailbox.pending + earlier;
        lemma_enqueue_all(mailbox, capacity, earlier);
        let previous = mailbox.enqueue_all(capacity, earlier);
        assert(all =~= before.push(events.last()));
        if previous.pending.len() < capacity {
            assert(newest(all, capacity) =~= previous.pending.push(events.last()));
        } else {
            assert(newest(all, capacity) =~= previous.pending.drop_first().push(events.last()));
        }
    }
}

proof fn lemma_publish_all(hub: HubView, events: Seq<CommitEvent>)
    ensures
        hub.publish_all(events).capacity == hub.capacity,
        hub.publish_all(events).issued == hub.issued,
        hub.publish_all(events).mailboxes.dom() == hub.mailboxes.dom(),
        forall|id: u64|
            hub.registered(id) ==> #[trigger] hub.publish_all(events).mailboxes[id]
                == hub.mailboxes[id].enqueue_all(hub.capacity, events),
    decreases events.len(),
{
    if events.len() > 0 {
        lemma_publish_all(hub, events.drop_last());
        let previous = hub.publish_all(events.drop_last());
        assert(previous.publish(events.last()).mailboxes.dom() =~= previous.mailboxes.dom());
    }
}

proof fn lemma_drain(mailbox: MailboxView, n: nat)
    requires
        mailbox.missed == 0,
        n <= mailbox.pending.len(),
    ensures
        mailbox.drain(n) == as_deliveries(mailbox.pending.take(n as int)),
    decreases n,
{
    if n == 0 {
        assert(mailbox.drain(n) =~= as_deliveries(mailbox.pending.take(n as int)));
    } else {
        let rest = mailbox.receive().0;
        lemma_drain(rest, (n - 1) as nat);
        assert(rest.pending.take(n - 1) =~= mailbox.pending.take(n as int).drop_first());
        assert(mailbox.drain(n) =~= as_deliveries(mailbox.pending.take(n as int)));
    }
}

proof fn lemma_deliveries(hub: HubView, id: u64, n: nat)
    requires
        hub.registered(id),
    ensures
        hub.deliveries(id, n) == hub.mailboxes[id].drain(n),
    decreases n,
{
    if n > 0 {
        let next = hub.receive(id).0;
        assert(next.mailboxes[id] == hub.mailboxes[id].receive().0);
        lemma_deliveries(next, id, (n - 1) as nat);
    }
}

/// Publishing to a hub without subscribers leaves the hub as it is: there is
/// nobody to deliver to, and nothing that could fail.
pub proof fn lemma_publish_without_subscribers(hub: HubView, event: CommitEvent)
    requires
        hub.mailboxes.dom() == Set::<u64>::empty(),
    ensures
        hub.publish(event) == hub,
{
    assert(hub.publish(event).mailboxes =~= hub.mailboxes);
}

/// Publishing never removes, adds or closes a subscriber, and each mailbox
/// then holds the newest events of what it held followed by what was
/// published, in publication order: nothing is re-ordered or repeated, and
/// only the oldest events are lost. The lost events are counted.
pub proof fn lemma_publish_keeps_newest(hub: HubView, events: Seq<CommitEvent>, id: u64)
    requires
        hub.wf(),
        hub.registered(id),
    ensures
        hub.publish_all(events).wf(),
        hub.publish_all(events).mailboxes.dom() == hub.mailboxes.dom(),
        hub.publish_all(events).mailboxes[id].pending == newest(
            hub.mailboxes[id].pending + events,
            hub.capacity,
        ),
        hub.mailboxes[id].missed + overflow(hub.mailboxes[id].pending + events, hub.capacity)
            <= u64::MAX ==> hub.publish_all(events).mailboxes[id].missed
            == hub.mailboxes[id].missed + overflow(
            hub.mailboxes[id].pending + events,
            hub.capacity,
        ),
{
    lemma_publish_all(hub, events);
    lemma_enqueue_all(hub.mailboxes[id], hub.capacity, events);
    let after = hub.publish_all(events);
    assert forall|other: u64| #[trigger] after.mailboxes.dom().contains(other) implies {
        &&& other < after.issued
        &&& after.mailboxes[other].pending.len() <= after.capacity
        &&& after.mailboxes[other].missed <= u64::MAX
    } by {
        assert(hub.mailboxes.dom().contains(other));
        lemma_enqueue_all(hub.mailboxes[other], hub.capacity, events);
    }
}

/// A subscriber that has missed nothing is handed its pending events oldest
/// first, one per request.
pub proof fn lemma_received_in_order(hub: HubView, id: u64, n: nat)
    requires
        hub.registered(id),
        hub.mailboxes[id].missed == 0,
        n <= hub.mailboxes[id].pending.len(),
    ensures
        hub.deliveries(id, n) == as_deliveries(hub.mailboxes[id].pending.take(n as int)),
{
    lemma_deliveries(hub, id, n);
    lemma_drain(hub.mailboxes[id], n);
}

/// A subscriber that has missed events is told so once, with their number,
/// and is then handed its pending events oldest first: a lag leaves a gap and
/// the stream goes on.
pub proof fn lemma_received_after_lag(hub: HubView, id: u64, n: nat)
    requires
        hub.wf(),
        hub.registered(id),
        hub.mailboxes[id].missed > 0,
        n <= hub.mailboxes[id].pending.len(),
    ensures
        hub.deliveries(id, n + 1) == seq![Delivery::Lagged(hub.mailboxes[id].missed as u64)]
            + as_deliveries(hub.mailboxes[id].pending.take(n as int)),
{
    lemma_deliveries(hub, id, n + 1);
    lemma_drain(hub.mailboxes[id].receive().0, n);
}

/// Two subscribers with empty mailboxes that both have room for `events` are
/// handed exactly these events, in the order of publication: they observe
/// the same order.
pub proof fn lemma_same_order(hub: HubView, events: Seq<CommitEvent>, a: u64, b: u64)
    requires
        hub.wf(),
        hub.registered(a),
        hub.registered(b),
        hub.mailboxes[a] == MailboxView::empty(),
        hub.mailboxes[b] == MailboxView::empty(),
        events.len() <= hub.capacity,
    ensures
        hub.publish_all(events).deliveries(a, events.len()) == as_deliveries(events),
        hub.publish_all(events).deliveries(b, events.len()) == as_deliveries(events),
{
    let after = hub.publish_all(events);
    lemma_publish_keeps_newest(hub, events, a);
    lemma_publish_keeps_newest(hub, events, b);
    assert(Seq::<CommitEvent>::empty() + events =~= events);
    assert(events.take(events.len() as int) =~= events);
    lemma_received_in_order(after, a, events.len());
    lemma_received_in_order(after, b, events.len());
}

/// One operation on a hub.
#[derive(Clone, Copy, Debug, PartialEq, Eq, Structural)]
pub enum HubOp {
    /// An event is published.
    Publish(CommitEvent),
    /// A subscriber is registered.
    Subscribe,
    /// The subscriber with this id is removed.
    Unsubscribe(u64),
    /// The subscriber with this id asks for its next delivery.
    Receive(u64),
}

/// The hub after `op`.
pub open spec fn apply(hub: HubView, op: HubOp) -> HubView {
    match op {
        HubOp::Publish(event) => hub.publish(event),
        HubOp::Subscribe => if hub.issued < u64::MAX {
            hub.subscribe()
        } else {
            hub
        },
        HubOp::Unsubscribe(id) => hub.unsubscribe(id),
        HubOp::Receive(id) => hub.receive(id).0,
    }
}

/// The hub after `ops`, applied first to last.
pub open spec fn run(hub: HubView, ops: Seq<HubOp>) -> HubView
    decreases ops.len(),
{
    if ops.len() == 0 {
        hub
    } else {
        apply(run(hub, ops.drop_last()), ops.last())
    }
}

/// The events that `ops` publish, in order.
pub open spec fn published(ops: Seq<HubOp>) -> Seq<CommitEvent>
    decreases ops.len(),
{
    if ops.len() == 0 {
        Seq::empty()
    } else {
        match ops.last() {
            HubOp::Publish(event) => published(ops.drop_last()).push(event),
            _ => published(ops.drop_last()),
        }
    }
}

/// The events that the subscriber `id` is handed while `ops` are applied to
/// `hub`, in order.
pub open spec fn handed_out(hub: HubView, ops: Seq<HubOp>, id: u64) -> Seq<CommitEvent>
    decreases ops.len(),
{
    if ops.len() == 0 {
        Seq::empty()
    } else {
        let earlier = handed_out(hub, ops.drop_last(), id);
        if ops.last() == HubOp::Receive(id) {
            match run(hub, ops.drop_last()).receive(id).1 {
                Delivery::Event(event) => earlier.push(event),
                _ => earlier,
            }
        } else {
            earlier
        }
    }
}

/// Whether the subscriber `id` stays registered and loses no event while
/// `ops` are applied to `hub`.
pub open spec fn keeps_up(hub: HubView, ops: Seq<HubOp>, id: u64) -> bool
    decreases ops.len(),
{
    &&& run(hub, ops).registered(id)
    &&& run(hub, ops).mailboxes[id].missed == 0
    &&& ops.len() > 0 ==> keeps_up(hub, ops.drop_last(), id)
}

/// Whether `part` can be had from `whole` by leaving elements out, without
/// re-ordering or repeating any.
pub open spec fn is_subsequence(part: Seq<CommitEvent>, whole: Seq<CommitEvent>) -> bool
    decreases whole.len(),
{
    if part.len() == 0 {
        true
    } else if whole.len() == 0 {
        false
    } else {
        ||| part.last() == whole.last() && is_subsequence(part.drop_last(), whole.drop_last())
        ||| is_subsequence(part, whole.drop_last())
    }
}

proof fn lemma_subsequence_extend(
    part: Seq<CommitEvent>,
    whole: Seq<CommitEvent>,
    event: CommitEvent,
)
    requires
        is_subsequence(part, whole),
    ensures
        is_subsequence(part, whole.push(event)),
        is_subsequence(part.push(event), whole.push(event)),
{
    assert(whole.push(event).drop_last() =~= whole);
    assert(part.push(event).drop_last() =~= part);
}

proof fn lemma_subsequence_of_prefix(part: Seq<CommitEvent>, whole: Seq<CommitEvent>, k: int)
    requires
        0 <= k <= whole.len(),
        is_subsequence(part, whole.take(k)),
    ensures
        is_subsequence(part, whole),
    decreases whole.len() - k,
{
    if k == whole.len() {
        assert(whole.take(k) =~= whole);
    } else {
        lemma_subsequence_extend(part, whole.take(k), whole[k]);
        assert(whole.take(k).push(whole[k]) =~= whole.take(k + 1));
        lemma_subsequence_of_prefix(part, whole, k + 1);
    }
}

/// Every operation keeps the bounds of the hub and its capacity, and never
/// takes back an id that was issued.
pub proof fn lemma_apply_wf(hub: HubView, op: HubOp)
    requires
        hub.wf(),
    ensures
        apply(hub, op).wf(),
        apply(hub, op).capacity == hub.capacity,
        apply(hub, op).issued >= hub.issued,
{
    let after = apply(hub, op);
    assert forall|id: u64| #[trigger] after.mailboxes.dom().contains(id) implies {
        &&& id < after.issued
        &&& after.mailboxes[id].pending.len() <= after.capacity
        &&& after.mailboxes[id].missed <= u64::MAX
    } by {
        match op {
            HubOp::Publish(event) => {
                assert(hub.mailboxes.dom().contains(id));
            },
            HubOp::Subscribe => {
                if hub.issued < u64::MAX && id != hub.issued as u64 {
                    assert(hub.mailboxes.dom().contains(id));
                }
            },
            HubOp::Unsubscribe(gone) => {
                assert(hub.mailboxes.dom().contains(id));
            },
            HubOp::Receive(asker) => {
                assert(hub.mailboxes.dom().contains(id));
            },
        }
    }
}

/// What holds of a subscriber after every sequence of operations: its
/// pending events are the tail of all that it could have been handed, and
/// what it was handed is a subsequence of the rest.
spec fn traced(hub: HubView, ops: Seq<HubOp>, id: u64) -> bool {
    let now = run(hub, ops);
    let source = hub.mailboxes[id].pending + published(ops);
    let got = handed_out(hub, ops, id);
    &&& now.wf()
    &&& now.capacity == hub.capacity
    &&& id < now.issued
    &&& now.registered(id) ==> {
        let pending = now.mailboxes[id].pending;
        &&& pending.len() <= source.len()
        &&& source.skip(source.len() - pending.len()) == pending
        &&& is_subsequence(got, source.take(source.len() - pending.len()))
    }
    &&& !now.registered(id) ==> is_subsequence(got, source)
}

proof fn lemma_traced(hub: HubView, ops: Seq<HubOp>, id: u64)
    requires
        hub.wf(),
        hub.registered(id),
    ensures
        traced(hub, ops, id),
    decreases ops.len(),
{
    let start = hub.mailboxes[id].pending;
    if ops.len() == 0 {
        let source = start + published(ops);
        assert(source =~= start);
        assert(source.skip(0) =~= start);
        assert(source.take(0) =~= Seq::<CommitEvent>::empty());
    } else {
        let earlier = ops.drop_last();
        lemma_traced(hub, earlier, id);
        let before = run(hub, earlier);
        let now = run(hub, ops);
        let old_source = start + published(earlier);
        let source = start + published(ops);
        let old_got = handed_out(hub, earlier, id);
        let got = handed_out(hub, ops, id);
        lemma_apply_wf(before, ops.last());
        match ops.last() {
            HubOp::Publish(event) => {
                assert(source =~= old_source.push(event));
                if before.registered(id) {
                    let pending = before.mailboxes[id].pending;
                    let cut = old_source.len() - pending.len();
                    if pending.len() < before.capacity {
                        assert(source.skip(cut) =~= pending.push(event));
                        assert(source.take(cut) =~= old_source.take(cut));
                    } else {
                        assert(source.skip(cut + 1) =~= pending.drop_first().push(event));
                        assert(source.take(cut + 1) =~= old_source.take(cut).push(pending[0]));
                        lemma_subsequence_extend(old_got, old_source.take(cut), pending[0]);
                    }
                } else {
                    lemma_subsequence_extend(old_got, old_source, event);
                }
            },
            HubOp::Subscribe => {},
            HubOp::Unsubscribe(gone) => {
                if gone == id && before.registered(id) {
                    let pending = before.mailboxes[id].pending;
                    lemma_subsequence_of_prefix(
                        old_got,
                        old_source,
                        old_source.len() - pending.len(),
                    );
                }
            },
            HubOp::Receive(asker) => {
                if asker == id && before.registered(id) {
                    let pending = before.mailboxes[id].pending;
                    let cut = old_source.len() - pending.len();
                    if before.mailboxes[id].missed == 0 && pending.len() > 0 {
                        assert(source.skip(cut + 1) =~= pending.drop_first());
                        assert(source.take(cut + 1) =~= old_source.take(cut).push(pending[0]));
                        lemma_subsequence_extend(old_got, old_source.take(cut), pending[0]);
                    }
                }
            },
        }
    }
}

/// Whatever is published, and whoever subscribes, unsubscribes or receives
/// in between: the events that a subscriber is handed are a subsequence of
/// what it held at the start followed by what was published since. No event
/// is handed out twice or out of order.
pub proof fn lemma_handed_out_is_subsequence(hub: HubView, ops: Seq<HubOp>, id: u64)
    requires
        hub.wf(),
        hub.registered(id),
    ensures
        run(hub, ops).wf(),
        is_subsequence(handed_out(hub, ops, id), hub.mailboxes[id].pending + published(ops)),
{
    lemma_traced(hub, ops, id);
    let now = run(hub, ops);
    let source = hub.mailboxes[id].pending + published(ops);
    if now.registered(id) {
        let pending = now.mailboxes[id].pending;
        lemma_subsequence_of_prefix(
            handed_out(hub, ops, id),
            source,
            source.len() - pending.len(),
        );
    }
}

proof fn lemma_keeps_up_from_start(hub: HubView, ops: Seq<HubOp>, id: u64)
    requires
        keeps_up(hub, ops, id),
    ensures
        hub.registered(id),
        hub.mailboxes[id].missed == 0,
    decreases ops.len(),
{
    if ops.len() > 0 {
        lemma_keeps_up_from_start(hub, ops.drop_last(), id);
    }
}

proof fn lemma_subsequence_members(part: Seq<CommitEvent>, whole: Seq<CommitEvent>)
    requires
        is_subsequence(part, whole),
    ensures
        forall|i: int| 0 <= i < part.len() ==> whole.contains(#[trigger] part[i]),
    decreases whole.len(),
{
    if part.len() > 0 {
        let shorter = whole.drop_last();
        if part.last() == whole.last() && is_subsequence(part.drop_last(), shorter) {
            lemma_subsequence_members(part.drop_last(), shorter);
            assert forall|i: int| 0 <= i < part.len() implies whole.contains(
                #[trigger] part[i],
            ) by {
                if i < part.len() - 1 {
                    assert(part[i] == part.drop_last()[i]);
                    let j = choose|j: int| 0 <= j < shorter.len() && shorter[j] == part[i];
                    assert(whole[j] == part[i]);
                } else {
                    assert(whole[whole.len() - 1] == part[i]);
                }
            }
        } else {
            lemma_subsequence_members(part, shorter);
            assert forall|i: int| 0 <= i < part.len() implies whole.contains(
                #[trigger] part[i],
            ) by {
                let j = choose|j: int| 0 <= j < shorter.len() && shorter[j] == part[i];
                assert(whole[j] == part[i]);
            }
        }
    }
}

proof fn lemma_subsequence_no_duplicates(part: Seq<CommitEvent>, whole: Seq<CommitEvent>)
    requires
        is_subsequence(part, whole),
        whole.no_duplicates(),
    ensures
        part.no_duplicates(),
    decreases whole.len(),
{
    if part.len() > 0 {
        let shorter = whole.drop_last();
        if part.last() == whole.last() && is_subsequence(part.drop_last(), shorter) {
            let front = part.drop_last();
            lemma_subsequence_no_duplicates(front, shorter);
            lemma_subsequence_members(front, shorter);
            assert forall|i: int, j: int| 0 <= i < j < part.len() implies part[i] != part[j] by {
                if j < part.len() - 1 {
                    assert(front[i] != front[j]);
                } else {
                    assert(shorter.contains(front[i]));
                    let k = choose|k: int| 0 <= k < shorter.len() && shorter[k] == front[i];
                    assert(whole[k] != whole[whole.len() - 1]);
                }
            }
        } else {
            lemma_subsequence_no_duplicates(part, shorter);
        }
    }
}

/// Where no event is published twice, none is handed out twice.
pub proof fn lemma_no_event_twice(hub: HubView, ops: Seq<HubOp>, id: u64)
    requires
        hub.wf(),
        hub.registered(id),
        (hub.mailboxes[id].pending + published(ops)).no_duplicates(),
    ensures
        handed_out(hub, ops, id).no_duplicates(),
{
    lemma_handed_out_is_subsequence(hub, ops, id);
    lemma_subsequence_no_duplicates(
        handed_out(hub, ops, id),
        hub.mailboxes[id].pending + published(ops),
    );
}

/// A subscriber that keeps up misses nothing: what it was handed, followed by
/// what is still pending for it, is exactly what it held at the start
/// followed by what was published since.
pub proof fn lemma_keeping_up_misses_nothing(hub: HubView, ops: Seq<HubOp>, id: u64)
    requires
        hub.wf(),
        keeps_up(hub, ops, id),
    ensures
        handed_out(hub, ops, id) + run(hub, ops).mailboxes[id].pending
            == hub.mailboxes[id].pending + published(ops),
    decreases ops.len(),
{
    lemma_keeps_up_from_start(hub, ops, id);
    let start = hub.mailboxes[id].pending;
    if ops.len() == 0 {
        assert(handed_out(hub, ops, id) + start =~= start + published(ops));
    } else {
        let earlier = ops.drop_last();
        lemma_keeping_up_misses_nothing(hub, earlier, id);
        lemma_traced(hub, earlier, id);
        let before = run(hub, earlier);
        let pending = before.mailboxes[id].pending;
        let old_got = handed_out(hub, earlier, id);
        match ops.last() {
            HubOp::Publish(event) => {
                assert((old_got + pending).push(event) =~= old_got + pending.push(event));
                assert((start + published(earlier)).push(event) =~= start + published(ops));
            },
            HubOp::Subscribe => {},
            HubOp::Unsubscribe(gone) => {},
            HubOp::Receive(asker) => {
                if asker == id && pending.len() > 0 {
                    assert(old_got.push(pending[0]) + pending.drop_first() =~= old_got
                        + pending);
                }
            },
        }
    }
}

/// Two subscribers that start with empty mailboxes and keep up observe the
/// events in the same order: of what the two were handed, one is the
/// beginning of the other, and both are the beginning of what was published.
pub proof fn lemma_observers_agree(hub: HubView, ops: Seq<HubOp>, a: u64, b: u64)
    requires
        hub.wf(),
        hub.mailboxes[a].pending.len() == 0,
        hub.mailboxes[b].pending.len() == 0,
        keeps_up(hub, ops, a),
        keeps_up(hub, ops, b),
    ensures
        handed_out(hub, ops, a).is_prefix_of(published(ops)),
        handed_out(hub, ops, b).is_prefix_of(published(ops)),
        handed_out(hub, ops, a).is_prefix_of(handed_out(hub, ops, b)) || handed_out(
            hub,
            ops,
            b,
        ).is_prefix_of(handed_out(hub, ops, a)),
{
    lemma_keeping_up_misses_nothing(hub, ops, a);
    lemma_keeping_up_misses_nothing(hub, ops, b);
    let all = published(ops);
    let got_a = handed_out(hub, ops, a);
    let got_b = handed_out(hub, ops, b);
    let left_a = run(hub, ops).mailboxes[a].pending;
    let left_b = run(hub, ops).mailboxes[b].pending;
    assert(hub.mailboxes[a].pending + all =~= all);
    assert(hub.mailboxes[b].pending + all =~= all);
    assert((got_a + left_a).len() == all.len());
    assert((got_b + left_b).len() == all.len());
    assert(got_a =~= all.subrange(0, got_a.len() as int)) by {
        assert forall|i: int| 0 <= i < got_a.len() implies got_a[i] == all[i] by {
            assert((got_a + left_a)[i] == got_a[i]);
        }
    }
    assert(got_b =~= all.subrange(0, got_b.len() as int)) by {
        assert forall|i: int| 0 <= i < got_b.len() implies got_b[i] == all[i] by {
            assert((got_b + left_b)[i] == got_b[i]);
        }
    }
    if got_a.len() <= got_b.len() {
        assert(got_a =~= got_b.subrange(0, got_a.len() as int));
    } else {
        assert(got_b =~= got_a.subrange(0, got_b.len() as int));
    }
}

} // verus!
