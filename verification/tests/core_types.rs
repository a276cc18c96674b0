use std::sync::{Arc, Mutex};
use std::time::{Duration, Instant};

use flax::EntityBuilder;
use ivy_core::events::dispatcher::{
    new_event_dispatcher, AnyEventDispatcher, ConcreteSender, Courier as FilteredCourier,
    EventDispatcher as FilteredDispatcher, EventFilter, EventSender as FilteredSender, Subscriber as FilteredSubscriber,
};
use ivy_core::events::new_event_dispatcher as new_broadcast_dispatcher;
use ivy_core::template::{Bundle, BundleDesc, ErasedBundleDesc, Template, TemplateDesc};
use ivy_core::app::{init_layers, InitStep, Starter};
use ivy_core::{TickEvent, Time};

struct Even;

impl EventFilter<u32> for Even {
    fn accepts(&self, event: &u32) -> bool {
        event % 2 == 0
    }
}

struct All;

impl EventFilter<u32> for All {
    fn accepts(&self, _: &u32) -> bool {
        true
    }
}

#[test]
fn filters_decide_what_each_subscriber_receives() {
    let mut dispatcher: FilteredDispatcher<u32> = FilteredDispatcher::new();
    let (even_tx, even_rx) = flume::unbounded::<u32>();
    let (all_tx, all_rx) = flume::unbounded::<u32>();
    dispatcher.subscribe(even_tx, Even);
    dispatcher.subscribe(all_tx, All);

    dispatcher.send(1);
    dispatcher.send(2);

    assert_eq!(even_rx.try_iter().collect::<Vec<_>>(), vec![2]);
    assert_eq!(all_rx.try_iter().collect::<Vec<_>>(), vec![1, 2]);
}

#[test]
fn a_blocked_dispatcher_sends_nothing() {
    let mut dispatcher: FilteredDispatcher<u32> = FilteredDispatcher::default();
    let (tx, rx) = flume::unbounded::<u32>();
    dispatcher.subscribe(tx, All);
    dispatcher.blocked = true;
    dispatcher.send(4);
    assert!(rx.try_recv().is_err());
    dispatcher.blocked = false;
    dispatcher.send(5);
    assert_eq!(rx.try_recv(), Ok(5));
}

#[test]
fn cleanup_drops_disconnected_subscribers() {
    let mut dispatcher: FilteredDispatcher<u32> = FilteredDispatcher::new();
    let (gone_tx, gone_rx) = flume::unbounded::<u32>();
    let (kept_tx, kept_rx) = flume::unbounded::<u32>();
    let probe = gone_tx.clone();
    dispatcher.subscribe(gone_tx, All);
    dispatcher.subscribe(ConcreteSender::new(kept_tx), All);
    drop(gone_rx);
    assert!(FilteredSender::is_disconnected(&probe));

    dispatcher.cleanup();
    dispatcher.send(8);
    assert_eq!(kept_rx.try_recv(), Ok(8));

    let mut erased = new_event_dispatcher::<u32>();
    erased.cleanup();
}

#[test]
fn a_new_broadcast_dispatcher_reaches_its_subscribers() {
    let mut dispatcher = new_broadcast_dispatcher::<u8>();
    let (tx, rx) = std::sync::mpsc::channel::<u8>();
    dispatcher.subscribe(tx);
    dispatcher.send(3);
    assert_eq!(rx.try_recv(), Ok(3));
}

struct Recording {
    name: &'static str,
    log: Arc<Mutex<Vec<&'static str>>>,
}

impl Bundle for Recording {
    fn mount(&self, _entity: &mut EntityBuilder) {
        self.log.lock().unwrap().push(self.name);
    }
}

#[test]
fn a_template_mounts_its_bundles_in_order() {
    let log = Arc::new(Mutex::new(Vec::new()));
    let template = Template::new()
        .with_bundle(Recording { name: "transform", log: log.clone() })
        .with_bundle(Recording { name: "mesh", log: log.clone() });
    let _entity = template.build();
    assert_eq!(*log.lock().unwrap(), vec!["transform", "mesh"]);

    let empty = Template::default();
    let _ = empty.build();
    assert_eq!(log.lock().unwrap().len(), 2);
}

struct Tagged(&'static str);

impl BundleDesc for Tagged {
    fn tag_name(&self) -> &'static str {
        self.0
    }
}

#[test]
fn bundle_descriptions_keep_their_tag() {
    let erased = ErasedBundleDesc::new(Box::new(Tagged("Light")));
    assert_eq!(erased.tag_name(), "Light");
    let _desc = TemplateDesc::new().with_bundle(Tagged("Camera")).with_bundle(Tagged("Light"));
    let _empty = TemplateDesc::default();
}

#[test]
fn time_keeps_its_start_and_elapsed() {
    let start = Instant::now();
    let time = Time::new(start, Duration::from_millis(250));
    assert_eq!(time.start_time(), start);
    assert_eq!(time.elapsed(), Duration::from_millis(250));
}

#[test]
fn tick_events_clone_their_duration() {
    let tick = TickEvent(Duration::from_secs(2));
    assert_eq!(tick.clone().0, Duration::from_secs(2));
}

/// Records the positions and events handed over, without sending them.
struct Positions {
    log: Vec<(usize, u32)>,
}

impl FilteredCourier<u32> for Positions {
    fn hand(&mut self, _: &FilteredSubscriber<u32>, index: usize, event: u32) {
        self.log.push((index, event));
    }
}

#[test]
fn only_accepting_subscribers_are_handed_the_event() {
    let mut dispatcher: FilteredDispatcher<u32> = FilteredDispatcher::new();
    let (a, _ra) = flume::unbounded::<u32>();
    let (b, _rb) = flume::unbounded::<u32>();
    let (c, _rc) = flume::unbounded::<u32>();
    dispatcher.subscribe(a, Even);
    dispatcher.subscribe(b, All);
    dispatcher.subscribe(c, Even);

    let mut positions = Positions { log: Vec::new() };
    dispatcher.send_with(3, &mut positions);
    assert_eq!(positions.log, vec![(1, 3)]);

    let mut positions = Positions { log: Vec::new() };
    dispatcher.send_with(6, &mut positions);
    assert_eq!(positions.log, vec![(0, 6), (1, 6), (2, 6)]);

    dispatcher.blocked = true;
    let mut positions = Positions { log: Vec::new() };
    dispatcher.send_with(8, &mut positions);
    assert!(positions.log.is_empty());
}

struct Steps {
    taken: Vec<(InitStep, bool)>,
    fails_at: Option<InitStep>,
}

impl Starter for Steps {
    type Error = InitStep;

    fn register(&mut self, index: usize) -> Result<(), InitStep> {
        self.take(InitStep::Register(index))
    }

    fn post_init(&mut self) -> Result<(), InitStep> {
        self.take(InitStep::PostInit)
    }
}

impl Steps {
    fn take(&mut self, step: InitStep) -> Result<(), InitStep> {
        let ok = self.fails_at != Some(step);
        self.taken.push((step, ok));
        if ok {
            Ok(())
        } else {
            Err(step)
        }
    }
}

#[test]
fn layers_are_registered_in_order_before_post_init() {
    let mut steps = Steps { taken: Vec::new(), fails_at: None };
    assert_eq!(init_layers(&mut steps, 2), Ok(()));
    assert_eq!(
        steps.taken,
        vec![(InitStep::Register(0), true), (InitStep::Register(1), true), (InitStep::PostInit, true)]
    );
}

#[test]
fn starting_stops_at_the_first_failure() {
    let mut steps = Steps { taken: Vec::new(), fails_at: Some(InitStep::Register(1)) };
    assert_eq!(init_layers(&mut steps, 3), Err(InitStep::Register(1)));
    assert_eq!(steps.taken, vec![(InitStep::Register(0), true), (InitStep::Register(1), false)]);
}
