use newplaces::hub::{Delivery, Hub, SubscriberHandle, DEFAULT_CAPACITY};
use newplaces::pixel::CommitEvent;

fn event(n: u32) -> CommitEvent {
    CommitEvent { x: n % 2000, y: n / 2000, color: n }
}

fn join(hub: &mut Hub) -> SubscriberHandle {
    match hub.subscribe() {
        Some(handle) => handle,
        None => panic!("a fresh hub has ids left"),
    }
}

fn drain_events(hub: &mut Hub, handle: &SubscriberHandle) -> Vec<CommitEvent> {
    let mut out = Vec::new();
    loop {
        match hub.next_event(handle) {
            Delivery::Event(e) => out.push(e),
            Delivery::Lagged(_) => {}
            Delivery::Idle | Delivery::Closed => return out,
        }
    }
}

#[test]
fn default_capacity_is_1024() {
    assert_eq!(DEFAULT_CAPACITY, 1024);
    assert_eq!(Hub::new().capacity(), 1024);
    assert_eq!(Hub::with_capacity(3).capacity(), 3);
}

#[test]
fn publish_without_subscribers_is_fine() {
    let mut hub = Hub::new();
    hub.publish(event(1));
    hub.publish(event(2));
    // A later subscriber sees nothing of it: no history is replayed.
    let late = join(&mut hub);
    assert_eq!(hub.next_event(&late), Delivery::Idle);
}

#[test]
fn subscriber_receives_in_publication_order() {
    let mut hub = Hub::new();
    let a = join(&mut hub);
    for n in 0..10 {
        hub.publish(event(n));
    }
    for n in 0..10 {
        assert_eq!(hub.next_event(&a), Delivery::Event(event(n)));
    }
    assert_eq!(hub.next_event(&a), Delivery::Idle);
}

#[test]
fn two_subscribers_observe_the_same_order() {
    let mut hub = Hub::with_capacity(64);
    let a = join(&mut hub);
    let b = join(&mut hub);
    let sent: Vec<CommitEvent> = (100..150).map(event).collect();
    for e in &sent {
        hub.publish(*e);
    }
    assert_eq!(drain_events(&mut hub, &a), sent);
    assert_eq!(drain_events(&mut hub, &b), sent);
}

#[test]
fn interleaved_receivers_agree() {
    let mut hub = Hub::with_capacity(4);
    let a = join(&mut hub);
    let b = join(&mut hub);
    let mut got_a = Vec::new();
    let mut got_b = Vec::new();
    for n in 0..20 {
        hub.publish(event(n));
        got_a.extend(drain_events(&mut hub, &a));
        if n % 3 == 2 {
            got_b.extend(drain_events(&mut hub, &b));
        }
    }
    got_b.extend(drain_events(&mut hub, &b));
    let sent: Vec<CommitEvent> = (0..20).map(event).collect();
    assert_eq!(got_a, sent);
    assert_eq!(got_b, sent);
}

#[test]
fn full_mailbox_drops_oldest() {
    let mut hub = Hub::with_capacity(2);
    let a = join(&mut hub);
    hub.publish(event(1));
    hub.publish(event(2));
    hub.publish(event(3));
    assert_eq!(hub.next_event(&a), Delivery::Lagged(1));
    assert_eq!(hub.next_event(&a), Delivery::Event(event(2)));
    assert_eq!(hub.next_event(&a), Delivery::Event(event(3)));
    assert_eq!(hub.next_event(&a), Delivery::Idle);
}

#[test]
fn lagging_subscriber_keeps_receiving() {
    let mut hub = Hub::with_capacity(3);
    let slow = join(&mut hub);
    for n in 0..10 {
        hub.publish(event(n));
    }
    assert_eq!(hub.next_event(&slow), Delivery::Lagged(7));
    assert_eq!(hub.next_event(&slow), Delivery::Event(event(7)));
    hub.publish(event(10));
    assert_eq!(hub.next_event(&slow), Delivery::Event(event(8)));
    assert_eq!(hub.next_event(&slow), Delivery::Event(event(9)));
    assert_eq!(hub.next_event(&slow), Delivery::Event(event(10)));
    assert_eq!(hub.next_event(&slow), Delivery::Idle);
    hub.publish(event(11));
    assert_eq!(hub.next_event(&slow), Delivery::Event(event(11)));
}

#[test]
fn lagging_subscriber_sees_no_duplicates() {
    let mut hub = Hub::with_capacity(5);
    let slow = join(&mut hub);
    let mut got = Vec::new();
    for round in 0..6u32 {
        for n in 0..8u32 {
            hub.publish(event(round * 8 + n));
        }
        got.extend(drain_events(&mut hub, &slow));
    }
    // Strictly increasing: nothing twice, nothing out of order.
    for pair in got.windows(2) {
        assert!(pair[0].color < pair[1].color);
    }
    // Each round keeps the newest five of its eight events.
    assert_eq!(got.len(), 30);
    assert_eq!(got[0], event(3));
    assert_eq!(got[29], event(47));
}

#[test]
fn slow_subscriber_does_not_affect_fast_one() {
    let mut hub = Hub::with_capacity(2);
    let slow = join(&mut hub);
    let fast = join(&mut hub);
    let mut got = Vec::new();
    for n in 0..9 {
        hub.publish(event(n));
        got.extend(drain_events(&mut hub, &fast));
    }
    assert_eq!(got, (0..9).map(event).collect::<Vec<_>>());
    assert_eq!(hub.next_event(&slow), Delivery::Lagged(7));
    assert_eq!(drain_events(&mut hub, &slow), vec![event(7), event(8)]);
}

#[test]
fn mailbox_at_capacity_has_not_lagged() {
    let mut hub = Hub::with_capacity(3);
    let a = join(&mut hub);
    hub.publish(event(1));
    hub.publish(event(2));
    hub.publish(event(3));
    assert_eq!(hub.next_event(&a), Delivery::Event(event(1)));
    assert_eq!(hub.next_event(&a), Delivery::Event(event(2)));
    assert_eq!(hub.next_event(&a), Delivery::Event(event(3)));
}

#[test]
fn capacity_one_keeps_the_newest() {
    let mut hub = Hub::with_capacity(1);
    let a = join(&mut hub);
    hub.publish(event(1));
    hub.publish(event(2));
    hub.publish(event(3));
    assert_eq!(hub.next_event(&a), Delivery::Lagged(2));
    assert_eq!(hub.next_event(&a), Delivery::Event(event(3)));
    assert_eq!(hub.next_event(&a), Delivery::Idle);
}

#[test]
fn unsubscribe_closes_only_that_subscriber() {
    let mut hub = Hub::new();
    let a = join(&mut hub);
    let b = join(&mut hub);
    hub.publish(event(1));
    assert!(hub.unsubscribe(&a));
    hub.publish(event(2));
    assert_eq!(hub.next_event(&a), Delivery::Closed);
    assert_eq!(hub.next_event(&b), Delivery::Event(event(1)));
    assert_eq!(hub.next_event(&b), Delivery::Event(event(2)));
    // A second removal finds nobody.
    assert!(!hub.unsubscribe(&a));
    assert_eq!(hub.next_event(&a), Delivery::Closed);
}

#[test]
fn ids_are_not_issued_twice() {
    let mut hub = Hub::new();
    let a = join(&mut hub);
    assert!(hub.unsubscribe(&a));
    let b = join(&mut hub);
    hub.publish(event(5));
    assert_eq!(hub.next_event(&a), Delivery::Closed);
    assert_eq!(hub.next_event(&b), Delivery::Event(event(5)));
}

#[test]
fn subscription_starts_after_registration() {
    let mut hub = Hub::new();
    let early = join(&mut hub);
    hub.publish(event(1));
    let late = join(&mut hub);
    hub.publish(event(2));
    assert_eq!(drain_events(&mut hub, &early), vec![event(1), event(2)]);
    assert_eq!(drain_events(&mut hub, &late), vec![event(2)]);
}

#[test]
fn default_hub_overflows_after_1024() {
    let mut hub = Hub::new();
    let a = join(&mut hub);
    for n in 0..1024 {
        hub.publish(event(n));
    }
    assert_eq!(hub.next_event(&a), Delivery::Event(event(0)));
    for n in 1024..1030 {
        hub.publish(event(n));
    }
    // 1023 were pending; six more make five too many.
    assert_eq!(hub.next_event(&a), Delivery::Lagged(5));
    assert_eq!(hub.next_event(&a), Delivery::Event(event(6)));
}
