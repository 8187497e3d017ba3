//! The broadcast hub: every subscriber owns a bounded mailbox; publishing never
//! waits, and a full mailbox gives up its oldest event to make room.

use std::collections::VecDeque;
use vstd::prelude::*;
use crate::pixel::CommitEvent;

verus! {

/// Mailbox capacity of a hub made with `Hub::new`.
pub const DEFAULT_CAPACITY: usize = 1024;

/// What one call of `Hub::next_event` hands to a subscriber.
#[derive(Clone, Copy, Debug, PartialEq, Eq, Structural)]
pub enum Delivery {
    /// The oldest pending event.
    Event(CommitEvent),
    /// This many events were dropped since the last report; the events that
    /// are still pending follow.
    Lagged(u64),
    /// Nothing is pending.
    Idle,
    /// The subscriber is not registered.
    Closed,
}

/// The mailbox of one subscriber, as contracts see it.
pub struct MailboxView {
    /// Events not yet handed out, oldest first.
    pub pending: Seq<CommitEvent>,
    /// Events dropped since the last lag report.
    pub missed: nat,
}

impl MailboxView {
    /// A mailbox that holds nothing and has missed nothing.
    pub open spec fn empty() -> MailboxView {
        MailboxView { pending: Seq::empty(), missed: 0 }
    }

    /// The mailbox after `event` has been delivered to it: while there is
    /// room the event is appended; a full mailbox first drops its oldest event
    /// and counts the loss, up to the largest count it can hold.
    pub open spec fn enqueue(self, capacity: nat, event: CommitEvent) -> MailboxView {
        if self.pending.len() < capacity {
            MailboxView { pending: self.pending.push(event), missed: self.missed }
        } else {
            MailboxView {
                pending: self.pending.drop_first().push(event),
                missed: if self.missed < u64::MAX {
                    self.missed + 1
                } else {
                    self.missed
                },
            }
        }
    }

    /// The mailbox after `events` have been delivered to it one after the
    /// other.
    pub open spec fn enqueue_all(self, capacity: nat, events: Seq<CommitEvent>) -> MailboxView
        decreases events.len(),
    {
        if events.len() == 0 {
            self
        } else {
            self.enqueue_all(capacity, events.drop_last()).enqueue(capacity, events.last())
        }
    }

    /// What the owner is handed by `n` requests in a row.
    pub open spec fn drain(self, n: nat) -> Seq<Delivery>
        decreases n,
    {
        if n == 0 {
            Seq::empty()
        } else {
            seq![self.receive().1] + self.receive().0.drain((n - 1) as nat)
        }
    }

    /// The mailbox after its owner has asked for the next event, and what the
    /// owner is handed: a pending lag report first, else the oldest event.
    pub open spec fn receive(self) -> (MailboxView, Delivery) {
        if self.missed > 0 {
            (MailboxView { missed: 0, ..self }, Delivery::Lagged(self.missed as u64))
        } else if self.pending.len() == 0 {
            (self, Delivery::Idle)
        } else {
            (
                MailboxView { pending: self.pending.drop_first(), ..self },
                Delivery::Event(self.pending[0]),
            )
        }
    }
}

/// The hub as contracts see it.
pub struct HubView {
    /// How many pending events one mailbox holds at most.
    pub capacity: nat,
    /// How many subscribers have ever been registered.
    pub issued: nat,
    /// The mailbox of each registered subscriber, by subscriber id.
    pub mailboxes: Map<u64, MailboxView>,
}

impl HubView {
    /// The bounds that every hub keeps.
    pub open spec fn wf(self) -> bool {
        &&& 0 < self.capacity <= usize::MAX
        &&& self.issued <= u64::MAX
        &&& forall|id: u64| #[trigger]
            self.mailboxes.dom().contains(id) ==> {
                &&& id < self.issued
                &&& self.mailboxes[id].pending.len() <= self.capacity
                &&& self.mailboxes[id].missed <= u64::MAX
            }
    }

    /// Whether `id` names a registered subscriber.
    pub open spec fn registered(self, id: u64) -> bool {
        self.mailboxes.dom().contains(id)
    }

    /// The hub after `event` has been published: it is delivered to every
    /// registered mailbox, and the set of subscribers stays.
    pub open spec fn publish(self, event: CommitEvent) -> HubView {
        HubView {
            mailboxes: Map::new(
                |id: u64| self.mailboxes.dom().contains(id),
                |id: u64| self.mailboxes[id].enqueue(self.capacity, event),
            ),
            ..self
        }
    }

    /// The hub after `events` have been published one after the other.
    pub open spec fn publish_all(self, events: Seq<CommitEvent>) -> HubView
        decreases events.len(),
    {
        if events.len() == 0 {
            self
        } else {
            self.publish_all(events.drop_last()).publish(events.last())
        }
    }

    /// What the subscriber `id` is handed by `n` requests in a row.
    pub open spec fn deliveries(self, id: u64, n: nat) -> Seq<Delivery>
        decreases n,
    {
        if n == 0 {
            Seq::empty()
        } else {
            seq![self.receive(id).1] + self.receive(id).0.deliveries(id, (n - 1) as nat)
        }
    }

    /// The hub after one more subscriber has been registered under the next
    /// unused id, with an empty mailbox.
    pub open spec fn subscribe(self) -> HubView {
        HubView {
            issued: self.issued + 1,
            mailboxes: self.mailboxes.insert(self.issued as u64, MailboxView::empty()),
            ..self
        }
    }

    /// The hub after the subscriber `id` has been removed.
    pub open spec fn unsubscribe(self, id: u64) -> HubView {
        HubView { mailboxes: self.mailboxes.remove(id), ..self }
    }

    /// The hub after the subscriber `id` has asked for its next event, and what
    /// it is handed.
    pub open spec fn receive(self, id: u64) -> (HubView, Delivery) {
        if self.registered(id) {
            let (mailbox, delivery) = self.mailboxes[id].receive();
            (HubView { mailboxes: self.mailboxes.insert(id, mailbox), ..self }, delivery)
        } else {
            (self, Delivery::Closed)
        }
    }
}

/// Names one registration with a hub.
#[derive(Debug)]
pub struct SubscriberHandle {
    id: u64,
}

impl SubscriberHandle {
    /// The id under which the hub keeps this subscriber's mailbox.
    pub closed spec fn id(&self) -> u64 {
        self.id
    }
}

struct Mailbox {
    id: u64,
    queue: VecDeque<CommitEvent>,
    missed: u64,
}

impl Mailbox {
    spec fn view(&self) -> MailboxView {
        MailboxView { pending: self.queue@, missed: self.missed as nat }
    }
}

spec fn has_id(boxes: Seq<Mailbox>, id: u64) -> bool {
    exists|i: int| 0 <= i < boxes.len() && #[trigger] boxes[i].id == id
}

spec fn index_of(boxes: Seq<Mailbox>, id: u64) -> int {
    choose|i: int| 0 <= i < boxes.len() && #[trigger] boxes[i].id == id
}

spec fn distinct_ids(boxes: Seq<Mailbox>) -> bool {
    forall|i: int, j: int|
        0 <= i < j < boxes.len() ==> #[trigger] boxes[i].id != #[trigger] boxes[j].id
}

spec fn roster(boxes: Seq<Mailbox>) -> Map<u64, MailboxView> {
    Map::new(|id: u64| has_id(boxes, id), |id: u64| boxes[index_of(boxes, id)].view())
}

proof fn lemma_roster_entry(boxes: Seq<Mailbox>, i: int)
    requires
        distinct_ids(boxes),
        0 <= i < boxes.len(),
    ensures
        has_id(boxes, boxes[i].id),
        index_of(boxes, boxes[i].id) == i,
        roster(boxes).dom().contains(boxes[i].id),
        roster(boxes)[boxes[i].id] == boxes[i].view(),
{
    let id = boxes[i].id;
    assert(has_id(boxes, id));
    let j = index_of(boxes, id);
    assert(boxes[j].id == id);
    if j < i {
        assert(boxes[j].id != boxes[i].id);
    } else if i < j {
        assert(boxes[i].id != boxes[j].id);
    }
}

/// The broadcast hub.
pub struct Hub {
    capacity: usize,
    issued: u64,
    boxes: Vec<Mailbox>,
}

impl View for Hub {
    type V = HubView;

    closed spec fn view(&self) -> HubView {
        HubView {
            capacity: self.capacity as nat,
            issued: self.issued as nat,
            mailboxes: roster(self.boxes@),
        }
    }
}

impl Hub {
    #[verifier::type_invariant]
    spec fn inv(self) -> bool {
        &&& self.capacity > 0
        &&& distinct_ids(self.boxes@)
        &&& forall|i: int|
            0 <= i < self.boxes@.len() ==> {
                &&& (#[trigger] self.boxes@[i]).id < self.issued
                &&& self.boxes@[i].queue@.len() <= self.capacity
            }
    }

    /// Makes a hub without subscribers whose mailboxes hold `capacity` events.
    pub fn with_capacity(capacity: usize) -> (hub: Hub)
        requires
            capacity > 0,
        ensures
            hub@.wf(),
            hub@.capacity == capacity,
            hub@.issued == 0,
            hub@.mailboxes == Map::<u64, MailboxView>::empty(),
    {
        let hub = Hub { capacity, issued: 0, boxes: Vec::new() };
        assert(hub@.mailboxes =~= Map::<u64, MailboxView>::empty());
        hub
    }

    /// Makes a hub without subscribers whose mailboxes hold
    /// `DEFAULT_CAPACITY` events.
    pub fn new() -> (hub: Hub)
        ensures
            hub@.wf(),
            hub@.capacity == DEFAULT_CAPACITY,
            hub@.issued == 0,
            hub@.mailboxes == Map::<u64, MailboxView>::empty(),
    {
        Hub::with_capacity(DEFAULT_CAPACITY)
    }

    /// Returns how many pending events one mailbox holds at most.
    pub fn capacity(&self) -> (capacity: usize)
        ensures
            capacity == self@.capacity,
            self@.wf(),
    {
        proof {
            use_type_invariant(self);
            lemma_roster_wf(self.boxes@, self.capacity as nat, self.issued as nat);
        }
        self.capacity
    }

    /// Delivers `event` to every registered subscriber. A full mailbox drops
    /// its oldest event to take the new one; the set of subscribers stays.
    pub fn publish(&mut self, event: CommitEvent)
        ensures
            final(self)@ == old(self)@.publish(event),
            final(self)@.wf(),
    {
        proof {
            use_type_invariant(&*self);
        }
        let capacity = self.capacity;
        let mut boxes: Vec<Mailbox> = Vec::new();
        std::mem::swap(&mut self.boxes, &mut boxes);
        let ghost before = boxes@;
        let mut i: usize = 0;
        while i < boxes.len()
            invariant
                0 <= i <= boxes.len(),
                boxes.len() == before.len(),
                capacity > 0,
                forall|j: int|
                    0 <= j < before.len() ==> (#[trigger] before[j]).queue@.len() <= capacity,
                forall|j: int|
                    0 <= j < boxes.len() ==> (#[trigger] boxes[j]).id == before[j].id,
                forall|j: int|
                    0 <= j < i ==> (#[trigger] boxes[j]).view() == before[j].view().enqueue(
                        capacity as nat,
                        event,
                    ),
                forall|j: int| i <= j < boxes.len() ==> #[trigger] boxes[j] == before[j],
            decreases boxes.len() - i,
        {
            let mailbox = &mut boxes[i];
            if mailbox.queue.len() >= capacity {
                mailbox.queue.pop_front();
                mailbox.missed = mailbox.missed.saturating_add(1);
            }
            mailbox.queue.push_back(event);
            i += 1;
        }
        self.boxes = boxes;
        proof {
            lemma_roster_publish(before, self.boxes@, capacity as nat, event);
            lemma_roster_wf(self.boxes@, self.capacity as nat, self.issued as nat);
        }
    }

    /// Registers a new subscriber with an empty mailbox: it is handed the
    /// events published from now on, none from before. The hub issues each id
    /// once; when it has none left it registers nobody and returns `None`.
    pub fn subscribe(&mut self) -> (handle: Option<SubscriberHandle>)
        ensures
            final(self)@.wf(),
            old(self)@.issued < u64::MAX ==> handle is Some && handle->Some_0.id() == old(
                self,
            )@.issued && final(self)@ == old(self)@.subscribe(),
            old(self)@.issued >= u64::MAX ==> handle is None && final(self)@ == old(self)@,
    {
        proof {
            use_type_invariant(&*self);
        }
        if self.issued == u64::MAX {
            proof {
                lemma_roster_wf(self.boxes@, self.capacity as nat, self.issued as nat);
            }
            return None;
        }
        let id = self.issued;
        let mut boxes: Vec<Mailbox> = Vec::new();
        std::mem::swap(&mut self.boxes, &mut boxes);
        let ghost before = boxes@;
        boxes.push(Mailbox { id, queue: VecDeque::new(), missed: 0 });
        proof {
            assert(boxes@.drop_last() =~= before);
            lemma_roster_push(before, boxes@);
        }
        self.issued = id + 1;
        self.boxes = boxes;
        proof {
            lemma_roster_wf(self.boxes@, self.capacity as nat, self.issued as nat);
        }
        Some(SubscriberHandle { id })
    }

    /// Removes the subscriber that `handle` names, with whatever its mailbox
    /// still held; the other subscribers keep theirs. Returns whether the
    /// subscriber was registered.
    pub fn unsubscribe(&mut self, handle: &SubscriberHandle) -> (was_registered: bool)
        ensures
            final(self)@.wf(),
            final(self)@ == old(self)@.unsubscribe(handle.id()),
            was_registered == old(self)@.registered(handle.id()),
    {
        proof {
            use_type_invariant(&*self);
        }
        let found = find(&self.boxes, handle.id);
        let ghost before = self.boxes@;
        let was_registered = match found {
            Some(i) => {
                let mut boxes: Vec<Mailbox> = Vec::new();
                std::mem::swap(&mut self.boxes, &mut boxes);
                boxes.remove(i);
                proof {
                    lemma_roster_remove(before, i as int);
                }
                self.boxes = boxes;
                true
            },
            None => {
                assert(roster(before).remove(handle.id) =~= roster(before));
                false
            },
        };
        proof {
            lemma_roster_wf(self.boxes@, self.capacity as nat, self.issued as nat);
        }
        was_registered
    }

    /// Hands the subscriber that `handle` names its next delivery: a report of
    /// the events it missed if any were dropped since the last report, else
    /// its oldest pending event, else `Idle`; `Closed` if it is not registered.
    pub fn next_event(&mut self, handle: &SubscriberHandle) -> (delivery: Delivery)
        ensures
            final(self)@.wf(),
            (final(self)@, delivery) == old(self)@.receive(handle.id()),
    {
        proof {
            use_type_invariant(&*self);
        }
        let found = find(&self.boxes, handle.id);
        let ghost before = self.boxes@;
        let delivery = match found {
            Some(i) => {
                let mut boxes: Vec<Mailbox> = Vec::new();
                std::mem::swap(&mut self.boxes, &mut boxes);
                let mailbox = &mut boxes[i];
                let delivery = if mailbox.missed > 0 {
                    let missed = mailbox.missed;
                    mailbox.missed = 0;
                    Delivery::Lagged(missed)
                } else {
                    match mailbox.queue.pop_front() {
                        Some(event) => Delivery::Event(event),
                        None => Delivery::Idle,
                    }
                };
                proof {
                    assert(boxes@[i as int].view() == before[i as int].view().receive().0);
                    assert(boxes@ =~= before.update(i as int, boxes@[i as int]));
                    lemma_roster_update(before, i as int, boxes@[i as int]);
                }
                self.boxes = boxes;
                delivery
            },
            None => Delivery::Closed,
        };
        proof {
            lemma_roster_wf(self.boxes@, self.capacity as nat, self.issued as nat);
        }
        delivery
    }
}

fn find(boxes: &Vec<Mailbox>, id: u64) -> (found: Option<usize>)
    ensures
        match found {
            Some(i) => i < boxes.len() && boxes[i as int].id == id,
            None => !has_id(boxes@, id),
        },
{
    let mut i: usize = 0;
    while i < boxes.len()
        invariant
            i <= boxes.len(),
            forall|j: int| 0 <= j < i ==> (#[trigger] boxes[j]).id != id,
        decreases boxes.len() - i,
    {
        if boxes[i].id == id {
            return Some(i);
        }
        i += 1;
    }
    None
}

proof fn lemma_roster_wf(boxes: Seq<Mailbox>, capacity: nat, issued: nat)
    requires
        0 < capacity <= usize::MAX,
        issued <= u64::MAX,
        forall|i: int|
            0 <= i < boxes.len() ==> {
                &&& (#[trigger] boxes[i]).id < issued
                &&& boxes[i].queue@.len() <= capacity
            },
    ensures
        (HubView { capacity, issued, mailboxes: roster(boxes) }).wf(),
{
    assert forall|id: u64| #[trigger] roster(boxes).dom().contains(id) implies {
        &&& id < issued
        &&& roster(boxes)[id].pending.len() <= capacity
        &&& roster(boxes)[id].missed <= u64::MAX
    } by {
        let i = index_of(boxes, id);
        assert(boxes[i].id == id);
    }
}

proof fn lemma_roster_push(before: Seq<Mailbox>, after: Seq<Mailbox>)
    requires
        distinct_ids(before),
        after.len() == before.len() + 1,
        after.drop_last() == before,
        !has_id(before, after.last().id),
    ensures
        distinct_ids(after),
        roster(after) == roster(before).insert(after.last().id, after.last().view()),
{
    let fresh = after.last();
    assert forall|i: int, j: int| 0 <= i < j < after.len() implies #[trigger] after[i].id
        != #[trigger] after[j].id by {
        assert(after[i] == before[i]);
        if j < before.len() {
            assert(after[j] == before[j]);
        }
    }
    let target = roster(before).insert(fresh.id, fresh.view());
    assert forall|id: u64| roster(after).dom().contains(id) <==> target.dom().contains(id) by {
        if has_id(after, id) {
            let j = index_of(after, id);
            if j < before.len() {
                assert(before[j] == after[j]);
            }
        }
        if has_id(before, id) {
            let j = index_of(before, id);
            assert(after[j] == before[j]);
        }
        if id == fresh.id {
            assert(after[after.len() - 1].id == id);
        }
    }
    assert forall|id: u64| roster(after).dom().contains(id) implies roster(after)[id]
        == target[id] by {
        let j = index_of(after, id);
        lemma_roster_entry(after, j);
        if j < before.len() {
            assert(before[j] == after[j]);
            lemma_roster_entry(before, j);
        }
    }
    assert(roster(after) =~= target);
}

proof fn lemma_roster_remove(before: Seq<Mailbox>, i: int)
    requires
        distinct_ids(before),
        0 <= i < before.len(),
    ensures
        distinct_ids(before.remove(i)),
        roster(before.remove(i)) == roster(before).remove(before[i].id),
{
    let after = before.remove(i);
    let target = roster(before).remove(before[i].id);
    assert forall|a: int, b: int| 0 <= a < b < after.len() implies #[trigger] after[a].id
        != #[trigger] after[b].id by {
        let a0 = if a < i { a } else { a + 1 };
        let b0 = if b < i { b } else { b + 1 };
        assert(after[a] == before[a0]);
        assert(after[b] == before[b0]);
    }
    assert forall|id: u64| roster(after).dom().contains(id) <==> target.dom().contains(id) by {
        if has_id(after, id) {
            let j = index_of(after, id);
            let j0 = if j < i { j } else { j + 1 };
            assert(before[j0] == after[j]);
            if j0 < i {
                assert(before[j0].id != before[i].id);
            } else {
                assert(before[i].id != before[j0].id);
            }
        }
        if has_id(before, id) && id != before[i].id {
            let j = index_of(before, id);
            let j1 = if j < i { j } else { j - 1 };
            assert(after[j1] == before[j]);
        }
    }
    assert forall|id: u64| roster(after).dom().contains(id) implies roster(after)[id]
        == target[id] by {
        let j = index_of(after, id);
        let j0 = if j < i { j } else { j + 1 };
        assert(before[j0] == after[j]);
        lemma_roster_entry(after, j);
        lemma_roster_entry(before, j0);
    }
    assert(roster(after) =~= target);
}

proof fn lemma_roster_update(before: Seq<Mailbox>, i: int, mailbox: Mailbox)
    requires
        distinct_ids(before),
        0 <= i < before.len(),
        mailbox.id == before[i].id,
    ensures
        distinct_ids(before.update(i, mailbox)),
        roster(before.update(i, mailbox)) == roster(before).insert(mailbox.id, mailbox.view()),
{
    let after = before.update(i, mailbox);
    let target = roster(before).insert(mailbox.id, mailbox.view());
    assert forall|a: int, b: int| 0 <= a < b < after.len() implies #[trigger] after[a].id
        != #[trigger] after[b].id by {
        assert(after[a].id == before[a].id);
        assert(after[b].id == before[b].id);
    }
    assert forall|id: u64| roster(after).dom().contains(id) <==> target.dom().contains(id) by {
        if has_id(after, id) {
            let j = index_of(after, id);
            assert(before[j].id == id);
        }
        if has_id(before, id) {
            let j = index_of(before, id);
            assert(after[j].id == id);
        }
        if id == mailbox.id {
            assert(after[i].id == id);
        }
    }
    assert forall|id: u64| roster(after).dom().contains(id) implies roster(after)[id]
        == target[id] by {
        let j = index_of(after, id);
        lemma_roster_entry(after, j);
        assert(before[j].id == id);
        lemma_roster_entry(before, j);
    }
    assert(roster(after) =~= target);
}

proof fn lemma_roster_publish(
    before: Seq<Mailbox>,
    after: Seq<Mailbox>,
    capacity: nat,
    event: CommitEvent,
)
    requires
        distinct_ids(before),
        after.len() == before.len(),
        forall|j: int| 0 <= j < after.len() ==> (#[trigger] after[j]).id == before[j].id,
        forall|j: int|
            0 <= j < after.len() ==> (#[trigger] after[j]).view() == before[j].view().enqueue(
                capacity,
                event,
            ),
    ensures
        distinct_ids(after),
        roster(after) == Map::new(
            |id: u64| roster(before).dom().contains(id),
            |id: u64| roster(before)[id].enqueue(capacity, event),
        ),
{
    let target = Map::new(
        |id: u64| roster(before).dom().contains(id),
        |id: u64| roster(before)[id].enqueue(capacity, event),
    );
    assert forall|id: u64| roster(after).dom().contains(id) <==> target.dom().contains(id) by {
        if has_id(after, id) {
            let j = index_of(after, id);
            assert(before[j].id == id);
        }
        if has_id(before, id) {
            let j = index_of(before, id);
            assert(after[j].id == id);
        }
    }
    assert forall|id: u64| roster(after).dom().contains(id) implies roster(after)[id]
        == target[id] by {
        let j = index_of(after, id);
        assert(after[j].id == id);
        lemma_roster_entry(after, j);
        lemma_roster_entry(before, j);
    }
    assert(roster(after) =~= target);
}

} // verus!
