use std::any::TypeId;

use ivy_core::layer::events::{Event, EventDispatcher, EventRegistry, ListenerCallbacks};
use ivy_core::{PostInitEvent, TickEvent};

/// Records the listeners it is asked to run; the listener `handles` handles
/// the event and `fails` fails.
struct Recorder {
    calls: Vec<(usize, usize)>,
    handles: Option<(usize, usize)>,
    fails: Option<(usize, usize)>,
}

impl Recorder {
    fn new() -> Self {
        Recorder { calls: Vec::new(), handles: None, fails: None }
    }
}

impl ListenerCallbacks for Recorder {
    type Error = String;

    fn call(&mut self, layer: usize, callback: usize) -> Result<bool, String> {
        self.calls.push((layer, callback));
        if self.fails == Some((layer, callback)) {
            return Err(format!("layer {layer} failed"));
        }
        Ok(self.handles == Some((layer, callback)))
    }
}

/// An event type that nothing listens to.
struct Unheard;

impl Event for Unheard {}

#[test]
fn listeners_are_called_in_layer_order() {
    let mut dispatcher = EventDispatcher::new();
    dispatcher.register(2, 10);
    dispatcher.register(0, 11);
    dispatcher.register(1, 12);
    dispatcher.register(0, 13);

    let mut recorder = Recorder::new();
    assert_eq!(dispatcher.dispatch(&mut recorder), Ok(false));
    assert_eq!(recorder.calls, vec![(0, 11), (0, 13), (1, 12), (2, 10)]);
}

#[test]
fn a_handled_event_stops_its_dispatch() {
    let mut dispatcher = EventDispatcher::default();
    dispatcher.register(0, 1);
    dispatcher.register(1, 2);
    dispatcher.register(2, 3);

    let mut recorder = Recorder::new();
    recorder.handles = Some((1, 2));
    assert_eq!(dispatcher.dispatch(&mut recorder), Ok(true));
    assert_eq!(recorder.calls, vec![(0, 1), (1, 2)]);
}

#[test]
fn a_failing_listener_stops_its_dispatch() {
    let mut dispatcher = EventDispatcher::new();
    dispatcher.register(0, 1);
    dispatcher.register(1, 2);

    let mut recorder = Recorder::new();
    recorder.fails = Some((0, 1));
    assert_eq!(dispatcher.dispatch(&mut recorder), Err("layer 0 failed".to_string()));
    assert_eq!(recorder.calls, vec![(0, 1)]);
}

#[test]
fn no_listener_means_not_handled() {
    let dispatcher = EventDispatcher::new();
    let mut recorder = Recorder::new();
    assert_eq!(dispatcher.dispatch(&mut recorder), Ok(false));
    assert!(recorder.calls.is_empty());
}

#[test]
fn registry_routes_events_by_type() {
    let mut registry = EventRegistry::new();
    registry.register::<TickEvent>(1, 5);
    registry.register::<PostInitEvent>(0, 6);

    let mut recorder = Recorder::new();
    registry.emit::<TickEvent, _>(&mut recorder).unwrap();
    assert_eq!(recorder.calls, vec![(1, 5)]);

    let mut recorder = Recorder::new();
    registry.emit::<PostInitEvent, _>(&mut recorder).unwrap();
    assert_eq!(recorder.calls, vec![(0, 6)]);

    assert!(registry.get::<TickEvent>().is_some());
    assert!(registry.get::<Unheard>().is_none());
}

#[test]
fn global_listeners_receive_every_type() {
    let mut registry = EventRegistry::default();
    registry.register::<TickEvent>(2, 1);
    registry.register_global(0, 2);
    // A type registered after the global listener starts with it.
    registry.register::<PostInitEvent>(3, 3);

    let mut recorder = Recorder::new();
    registry.emit::<TickEvent, _>(&mut recorder).unwrap();
    assert_eq!(recorder.calls, vec![(0, 2), (2, 1)]);

    let mut recorder = Recorder::new();
    registry.emit::<PostInitEvent, _>(&mut recorder).unwrap();
    assert_eq!(recorder.calls, vec![(0, 2), (3, 3)]);

    // A type without a dispatcher goes to the global listeners alone.
    let mut recorder = Recorder::new();
    assert_eq!(registry.emit_for(TypeId::of::<u64>(), &mut recorder), Ok(false));
    assert_eq!(recorder.calls, vec![(0, 2)]);
}

#[test]
fn registering_for_a_type_id_creates_its_dispatcher() {
    let mut registry = EventRegistry::new();
    let ty = TypeId::of::<String>();
    assert!(registry.get_for(ty).is_none());
    registry.register_for(ty, 4, 9);
    assert!(registry.get_for(ty).is_some());

    let mut recorder = Recorder::new();
    recorder.handles = Some((4, 9));
    assert_eq!(registry.emit_for(ty, &mut recorder), Ok(true));
    assert_eq!(recorder.calls, vec![(4, 9)]);
}

#[test]
fn emit_reports_listener_errors() {
    let mut registry = EventRegistry::new();
    registry.register::<TickEvent>(0, 0);
    let mut recorder = Recorder::new();
    recorder.fails = Some((0, 0));
    assert_eq!(registry.emit::<TickEvent, _>(&mut recorder), Err("layer 0 failed".to_string()));
}

#[test]
fn get_or_insert_starts_from_the_global_listeners() {
    let mut registry = EventRegistry::new();
    registry.register_global(1, 5);
    registry.register::<TickEvent>(0, 7);

    let mut recorder = Recorder::new();
    let created = registry.get_or_insert::<PostInitEvent>();
    assert_eq!(created.dispatch(&mut recorder), Ok(false));
    assert_eq!(recorder.calls, vec![(1, 5)]);

    let mut recorder = Recorder::new();
    let existing = registry.get_or_insert::<TickEvent>();
    assert_eq!(existing.dispatch(&mut recorder), Ok(false));
    assert_eq!(recorder.calls, vec![(0, 7), (1, 5)]);

    let mut recorder = Recorder::new();
    let again = registry.get_or_insert_for(TypeId::of::<TickEvent>());
    assert_eq!(again.dispatch(&mut recorder), Ok(false));
    assert_eq!(recorder.calls, vec![(0, 7), (1, 5)]);
}
