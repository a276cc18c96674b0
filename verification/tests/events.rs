use std::sync::mpsc;

use ivy_core::events::{keep_flagged, Courier, EventDispatcher, Subscriber};
use ivy_core::{EventSender, Events};

#[test]
fn event_broadcast() {
    let mut events = Events::new();

    let (tx1, rx1) = mpsc::channel::<&'static str>();
    events.subscribe(tx1);

    let (tx2, rx2) = mpsc::channel::<&'static str>();
    events.subscribe(tx2);

    events.send("Hello");

    if let Ok(e) = rx1.try_recv() {
        assert_eq!(e, "Hello")
    }

    if let Ok(e) = rx2.try_recv() {
        assert_eq!(e, "Hello")
    }
}

#[test]
fn events_reach_every_subscriber_of_the_type() {
    let mut events = Events::new();
    let (tx1, rx1) = mpsc::channel::<u32>();
    let (tx2, rx2) = flume::unbounded::<u32>();
    let (other_tx, other_rx) = mpsc::channel::<&'static str>();
    events.subscribe(tx1);
    events.subscribe(tx2);
    events.subscribe(other_tx);

    events.send(7u32);

    assert_eq!(rx1.try_recv(), Ok(7));
    assert_eq!(rx2.try_recv(), Ok(7));
    assert!(other_rx.try_recv().is_err());
}

#[test]
fn dropped_receivers_are_removed_on_send() {
    let mut dispatcher: EventDispatcher<u8> = EventDispatcher::new();
    let (tx1, rx1) = mpsc::channel::<u8>();
    let (tx2, rx2) = mpsc::channel::<u8>();
    dispatcher.subscribe(tx1);
    dispatcher.subscribe(tx2);
    drop(rx1);

    dispatcher.send(1);
    assert_eq!(rx2.try_recv(), Ok(1));

    dispatcher.send(2);
    assert_eq!(rx2.try_recv(), Ok(2));
}

#[test]
fn a_sole_subscriber_without_receiver_is_cleaned_up() {
    let mut dispatcher: EventDispatcher<u8> = EventDispatcher::new();
    let (tx, rx) = mpsc::channel::<u8>();
    dispatcher.subscribe(tx);
    drop(rx);
    dispatcher.send(1);

    let (tx2, rx2) = mpsc::channel::<u8>();
    dispatcher.subscribe(tx2);
    dispatcher.send(3);
    assert_eq!(rx2.try_recv(), Ok(3));
}

#[test]
fn keep_flagged_keeps_the_flagged_items_in_order() {
    let kept = keep_flagged(vec![10u8, 20, 30, 40], &vec![true, false, false, true]);
    assert_eq!(kept, vec![10, 40]);
    let none = keep_flagged(vec![1u8, 2], &vec![false, false]);
    assert!(none.is_empty());
}

#[test]
fn subscriber_reports_liveness() {
    let (tx, rx) = mpsc::channel::<u8>();
    let subscriber = Subscriber::new(tx);
    assert!(subscriber.send(1));
    assert_eq!(rx.try_recv(), Ok(1));
    drop(rx);
    assert!(!subscriber.send(2));
}

#[test]
fn crossbeam_sender_is_an_event_sender() {
    let (tx, rx) = crossbeam_channel::unbounded::<u8>();
    assert!(EventSender::send(&tx, 5));
    assert_eq!(rx.try_recv(), Ok(5));
}

/// Records each handover and passes it on to the subscriber's sender.
struct Handovers {
    log: Vec<(usize, u8, bool)>,
}

impl Courier<u8> for Handovers {
    fn hand(&mut self, subscriber: &Subscriber<u8>, index: usize, event: u8) -> bool {
        let alive = subscriber.send(event);
        self.log.push((index, event, alive));
        alive
    }
}

#[test]
fn each_subscriber_is_handed_one_clone_in_order() {
    let mut dispatcher: EventDispatcher<u8> = EventDispatcher::new();
    let (tx1, rx1) = mpsc::channel::<u8>();
    let (tx2, rx2) = mpsc::channel::<u8>();
    let (tx3, rx3) = mpsc::channel::<u8>();
    dispatcher.subscribe(tx1);
    dispatcher.subscribe(tx2);
    dispatcher.subscribe(tx3);
    drop(rx2);

    let mut handovers = Handovers { log: Vec::new() };
    dispatcher.send_with(9, &mut handovers);
    assert_eq!(handovers.log, vec![(0, 9, true), (1, 9, false), (2, 9, true)]);
    assert_eq!(rx1.try_recv(), Ok(9));
    assert_eq!(rx3.try_recv(), Ok(9));

    let mut handovers = Handovers { log: Vec::new() };
    dispatcher.send_with(4, &mut handovers);
    assert_eq!(handovers.log, vec![(0, 4, true), (1, 4, true)]);
}
