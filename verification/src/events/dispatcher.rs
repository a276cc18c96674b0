//! Event dispatching with per-subscriber filters and explicit cleanup of
//! disconnected subscribers.
use vstd::prelude::*;

use super::{flume_send, keep_alive, keep_flagged, Event};

verus! {

/// A dispatcher whose concrete event type has been erased.
pub trait AnyEventDispatcher: Send + Sync {
    /// Removes the subscribers whose receiving end has been dropped.
    fn cleanup(&mut self);
}

/// A sender whose concrete event type has been erased.
pub trait AnyEventSender: Send + Sync {}

/// Decides which events a subscriber receives.
pub trait EventFilter<T>: Send + Sync {
    /// Whether this filter answers `accepted` for `event`. A filter that
    /// states nothing of its answers keeps the default.
    open spec fn gives(&self, event: T, accepted: bool) -> bool {
        true
    }

    /// Returns true if the subscriber wants to receive `event`.
    fn accepts(&self, event: &T) -> (accepted: bool)
        ensures
            self.gives(*event, accepted),
    ;
}

/// Describes a type which can send events. Implemented for mpsc::channel and crossbeam channel.
pub trait EventSender<T>: Send + Sync {
    /// Holds of each event this sender has been handed, as far as the
    /// sender states it; the default states nothing.
    open spec fn delivered(&self, event: T) -> bool {
        true
    }

    /// Whether this sender may report `disconnected` when asked; the
    /// default states nothing.
    open spec fn reports(&self, disconnected: bool) -> bool {
        true
    }

    /// Send an event
    fn send(&self, event: T)
        ensures
            self.delivered(event),
    ;

    /// Returns true if the sender has been disconnected
    fn is_disconnected(&self) -> (disconnected: bool)
        ensures
            self.reports(disconnected),
    ;
}

/// What hands the events of a filtering dispatcher to its subscribers, one
/// call per handover.
pub trait Courier<T: Event> {
    /// Whether the courier keeps, in [`handed`](Courier::handed), a record
    /// of each handover. One that keeps none states nothing of it.
    open spec fn keeps_log() -> bool {
        false
    }

    /// Whether each handover goes to the subscriber's own sender. One that
    /// does not say so states nothing of it.
    open spec fn forwards() -> bool {
        false
    }

    /// The handovers so far, in order: the subscriber's position and the
    /// event.
    open spec fn handed(&self) -> Seq<(usize, T)> {
        Seq::empty()
    }

    /// Hands `event` to `subscriber`, at position `index` of its dispatcher.
    fn hand(&mut self, subscriber: &Subscriber<T>, index: usize, event: T)
        ensures
            Self::keeps_log() ==> final(self).handed() == old(self).handed().push((index, event)),
            Self::forwards() ==> subscriber.delivered(event),
    ;
}

/// The positions of the handovers of `log`, in order.
pub open spec fn positions<T>(log: Seq<(usize, T)>) -> Seq<usize> {
    log.map_values(|e: (usize, T)| e.0)
}

/// The positions whose flag is set, in order.
pub open spec fn selected(flags: Seq<bool>) -> Seq<usize>
    decreases flags.len(),
{
    if flags.len() == 0 {
        Seq::empty()
    } else {
        let rest = selected(flags.drop_last());
        if flags.last() {
            rest.push((flags.len() - 1) as usize)
        } else {
            rest
        }
    }
}

/// `log` holds exactly one handover per accepting subscriber, in order,
/// each with a clone of `event`.
pub open spec fn handed_where<T: Event>(log: Seq<(usize, T)>, event: T, accepted: Seq<bool>) -> bool {
    &&& positions(log) == selected(accepted)
    &&& forall|k: int| 0 <= k < log.len() ==> #[trigger] cloned(event, log[k].1)
}

/// Each handover of `log` went to the sender of the subscriber at the
/// position it records, with the event it carried.
pub open spec fn delivered_each<T: Event>(subs: Seq<Subscriber<T>>, log: Seq<(usize, T)>) -> bool {
    forall|k: int| #![trigger log[k]] 0 <= k < log.len() ==> subs[log[k].0 as int].delivered(log[k].1)
}

/// Each subscriber of `subs` had its filter asked about `event` and gave
/// the answer `accepted` holds at its position.
pub open spec fn filters_gave<T: Event>(subs: Seq<Subscriber<T>>, event: T, accepted: Seq<bool>) -> bool {
    &&& accepted.len() == subs.len()
    &&& forall|i: int| 0 <= i < subs.len() ==> #[trigger] subs[i].filter_gives(event, accepted[i])
}

/// The courier of [`EventDispatcher::send`]: it hands each event to the
/// subscriber's own sender, and records the handovers.
struct Forwarder<T> {
    log: Ghost<Seq<(usize, T)>>,
}

impl<T: Event> Courier<T> for Forwarder<T> {
    open spec fn keeps_log() -> bool {
        true
    }

    open spec fn forwards() -> bool {
        true
    }

    closed spec fn handed(&self) -> Seq<(usize, T)> {
        self.log@
    }

    fn hand(&mut self, subscriber: &Subscriber<T>, index: usize, event: T) {
        let ghost e = event;
        subscriber.send(event);
        self.log = Ghost(self.log@.push((index, e)));
    }
}

/// Each subscriber of `subs` had its filter asked about `event` and gave
/// the answer `accepted` holds at its position; those that accepted were
/// handed a clone of it.
pub open spec fn screened<T: Event>(subs: Seq<Subscriber<T>>, event: T, accepted: Seq<bool>) -> bool {
    &&& accepted.len() == subs.len()
    &&& forall|i: int| 0 <= i < subs.len() ==> #[trigger] screened_one(subs[i], event, accepted[i])
}

/// `sub`'s filter answered `accepted` for `event`, and on acceptance its
/// sender was handed a clone.
pub open spec fn screened_one<T: Event>(sub: Subscriber<T>, event: T, accepted: bool) -> bool {
    &&& sub.filter_gives(event, accepted)
    &&& accepted ==> exists|c: T| cloned(event, c) && #[trigger] sub.delivered(c)
}

/// Each subscriber of `subs` was asked whether it is connected and
/// answered as `connected` holds at its position.
pub open spec fn polled<T: Event>(subs: Seq<Subscriber<T>>, connected: Seq<bool>) -> bool {
    &&& connected.len() == subs.len()
    &&& forall|i: int| 0 <= i < subs.len() ==> #[trigger] polled_one(subs[i], connected[i])
}

/// `sub`'s sender reported a disconnection exactly when `connected` is false.
pub open spec fn polled_one<T: Event>(sub: Subscriber<T>, connected: bool) -> bool {
    sub.reports(!connected)
}

/// Handles event dispatching for a single type of event
#[verifier::reject_recursive_types(T)]
pub struct EventDispatcher<T: Event> {
    subscribers: Vec<Subscriber<T>>,
    pub blocked: bool,
}

impl<T: Event> View for EventDispatcher<T> {
    type V = Seq<Subscriber<T>>;

    closed spec fn view(&self) -> Seq<Subscriber<T>> {
        self.subscribers@
    }
}

impl<T: Event> EventDispatcher<T> {
    /// Whether the dispatcher currently drops every event sent to it.
    pub closed spec fn is_blocked(&self) -> bool {
        self.blocked
    }

    pub fn new() -> (d: Self)
        ensures
            d@ == Seq::<Subscriber<T>>::empty(),
            !d.is_blocked(),
    {
        EventDispatcher { subscribers: Vec::new(), blocked: false }
    }

    /// Sends an event to the subscribers whose filter accepts it, a clone
    /// to each, through its own sender; a blocked dispatcher sends nothing.
    /// Returns the record of the handovers: one per accepting subscriber, in
    /// order, and none to the others.
    pub fn send(&self, event: T) -> (handed: Ghost<Seq<(usize, T)>>)
        ensures
            self.is_blocked() ==> handed@ == Seq::<(usize, T)>::empty(),
            !self.is_blocked() ==> exists|accepted: Seq<bool>| {
                &&& #[trigger] filters_gave(self@, event, accepted)
                &&& handed_where(handed@, event, accepted)
                &&& delivered_each(self@, handed@)
            },
    {
        let mut courier = Forwarder { log: Ghost(Seq::empty()) };
        self.send_with(event, &mut courier);
        proof {
            assert(courier.log@.skip(0) =~= courier.log@);
        }
        Ghost(courier.log@)
    }

    /// Unless the dispatcher is blocked, asks each subscriber's filter in
    /// turn about `event`, and hands a clone, through `courier`, to each
    /// subscriber whose filter accepts it, and to no other. A blocked
    /// dispatcher hands nothing. A courier that keeps a log records one entry
    /// per handover: the subscriber's position and the clone.
    pub fn send_with<C: Courier<T>>(&self, event: T, courier: &mut C)
        ensures
            self.is_blocked() ==> (C::keeps_log() ==> final(courier).handed() == old(courier).handed()),
            !self.is_blocked() ==> exists|accepted: Seq<bool>| {
                &&& #[trigger] filters_gave(self@, event, accepted)
                &&& C::keeps_log() ==> {
                    &&& final(courier).handed().len() >= old(courier).handed().len()
                    &&& final(courier).handed().take(old(courier).handed().len() as int) == old(courier).handed()
                    &&& handed_where(final(courier).handed().skip(old(courier).handed().len() as int), event, accepted)
                    &&& C::forwards() ==> delivered_each(
                        self@,
                        final(courier).handed().skip(old(courier).handed().len() as int),
                    )
                }
                &&& C::forwards() ==> screened(self@, event, accepted)
            },
    {
        if self.blocked {
            return;
        }
        let ghost start = courier.handed();
        let ghost mut lg: Seq<(usize, T)> = Seq::empty();
        let n = self.subscribers.len();
        let ghost mut accepted: Seq<bool> = Seq::empty();
        assert(positions(lg) =~= selected(accepted));
        for i in 0..n
            invariant
                n == self.subscribers@.len(),
                accepted.len() == i,
                start == old(courier).handed(),
                C::keeps_log() ==> courier.handed() == start + lg,
                handed_where(lg, event, accepted),
                C::forwards() ==> delivered_each(self@, lg),
                forall|j: int| 0 <= j < i ==> #[trigger] self@[j].filter_gives(event, accepted[j]),
                C::forwards() ==> forall|j: int| 0 <= j < i ==> #[trigger] screened_one(self@[j], event, accepted[j]),
        {
            let subscriber = &self.subscribers[i];
            let wanted = subscriber.filter.accepts(&event);
            let ghost old_lg = lg;
            let ghost old_accepted = accepted;
            if wanted {
                let copy = event.clone();
                courier.hand(subscriber, i, copy);
                proof {
                    lg = lg.push((i, copy));
                    if C::keeps_log() {
                        assert(start + lg =~= (start + old_lg).push((i, copy)));
                    }
                    if C::forwards() {
                        assert(cloned(event, copy) && self@[i as int].delivered(copy));
                    }
                }
            }
            proof {
                accepted = accepted.push(wanted);
                assert(accepted.drop_last() =~= old_accepted);
                assert(positions(lg) =~= selected(accepted));
                assert forall|k: int| 0 <= k < lg.len() implies #[trigger] cloned(event, lg[k].1) by {
                    if k < old_lg.len() {
                        assert(lg[k] == old_lg[k]);
                    }
                }
                if C::forwards() {
                    assert forall|k: int| #![trigger lg[k]] 0 <= k < lg.len() implies self@[lg[k].0 as int].delivered(lg[k].1) by {
                        if k < old_lg.len() {
                            assert(lg[k] == old_lg[k]);
                        }
                    }
                }
                assert forall|j: int| 0 <= j < i + 1 implies #[trigger] self@[j].filter_gives(event, accepted[j]) by {
                    if j == i {
                        assert(accepted[j] == wanted);
                    }
                }
                if C::forwards() {
                    assert(screened_one(self@[i as int], event, wanted));
                    assert forall|j: int| 0 <= j < i + 1 implies #[trigger] screened_one(self@[j], event, accepted[j]) by {
                        if j == i {
                            assert(accepted[j] == wanted);
                        }
                    }
                }
            }
        }
        proof {
            assert(filters_gave(self@, event, accepted));
            if C::keeps_log() {
                assert((start + lg).take(start.len() as int) =~= start);
                assert((start + lg).skip(start.len() as int) =~= lg);
            }
            if C::forwards() {
                assert(screened(self@, event, accepted));
            }
        }
    }

    /// Subscribes to events using sender to send events. The subscriber is automatically cleaned
    /// up when the receiving end is dropped.
    pub fn subscribe<S, F>(&mut self, sender: S, filter: F)
        where S: 'static + EventSender<T>, F: 'static + EventFilter<T>,
        ensures
            final(self)@.len() == old(self)@.len() + 1,
            final(self)@.take(old(self)@.len() as int) == old(self)@,
            final(self)@.last().sends_through(sender),
            final(self)@.last().filters_with(filter),
            final(self).is_blocked() == old(self).is_blocked(),
    {
        self.subscribers.push(Subscriber::new(sender, filter));
    }

    /// Removes the subscribers whose sender reports a disconnection, keeping
    /// the others in their order.
    pub fn retain_connected(&mut self)
        ensures
            final(self).is_blocked() == old(self).is_blocked(),
            exists|connected: Seq<bool>|
                #[trigger] polled(old(self)@, connected) && final(self)@ == keep_alive(old(self)@, connected),
    {
        let ghost pre = self.subscribers@;
        let n = self.subscribers.len();
        let mut connected: Vec<bool> = Vec::new();
        for i in 0..n
            invariant
                n == pre.len(),
                self.subscribers@ == pre,
                connected@.len() == i,
                forall|j: int| 0 <= j < i ==> #[trigger] polled_one(pre[j], connected@[j]),
        {
            let gone = self.subscribers[i].sender.is_disconnected();
            proof {
                assert(pre[i as int].reports(gone));
            }
            connected.push(!gone);
            proof {
                assert forall|j: int| 0 <= j < i + 1 implies #[trigger] polled_one(pre[j], connected@[j]) by {
                    if j == i {
                        assert(pre[i as int].reports(gone));
                    }
                }
            }
        }
        let mut subscribers: Vec<Subscriber<T>> = Vec::new();
        std::mem::swap(&mut subscribers, &mut self.subscribers);
        assert(subscribers@ == pre);
        self.subscribers = keep_flagged(subscribers, &connected);
        assert(old(self)@ == pre);
        assert(polled(old(self)@, connected@) && self@ == keep_alive(old(self)@, connected@));
    }
}

impl<T: Event> Default for EventDispatcher<T> {
    fn default() -> (d: Self)
        ensures
            d@ == Seq::<Subscriber<T>>::empty(),
            !d.is_blocked(),
    {
        Self::new()
    }
}

impl<T: Event> AnyEventDispatcher for EventDispatcher<T> {
    fn cleanup(&mut self)
        ensures
            final(self).is_blocked() == old(self).is_blocked(),
            exists|connected: Seq<bool>|
                #[trigger] polled(old(self)@, connected) && final(self)@ == keep_alive(old(self)@, connected),
    {
        self.retain_connected()
    }
}

/// One listener of a dispatcher, with the filter deciding what it receives.
#[verifier::reject_recursive_types(T)]
pub struct Subscriber<T> {
    sender: Box<dyn EventSender<T>>,
    filter: Box<dyn EventFilter<T>>,
}

impl<T: Event> Subscriber<T> {
    /// Whether this subscriber's filter answers `accepted` for `event`.
    pub closed spec fn filter_gives(&self, event: T, accepted: bool) -> bool {
        self.filter.gives(event, accepted)
    }

    /// Whether this subscriber's sender has been handed `event`, as far as
    /// the sender states it.
    pub closed spec fn delivered(&self, event: T) -> bool {
        self.sender.delivered(event)
    }

    /// Whether this subscriber's sender may report `disconnected`.
    pub closed spec fn reports(&self, disconnected: bool) -> bool {
        self.sender.reports(disconnected)
    }

    /// Whether this subscriber sends through `sender`.
    pub closed spec fn sends_through<S: 'static + EventSender<T>>(&self, sender: S) -> bool {
        self.sender == {
            let b: Box<dyn EventSender<T>> = Box::new(sender);
            b
        }
    }

    /// Whether this subscriber is screened by `filter`.
    pub closed spec fn filters_with<F: 'static + EventFilter<T>>(&self, filter: F) -> bool {
        self.filter == {
            let b: Box<dyn EventFilter<T>> = Box::new(filter);
            b
        }
    }

    pub fn new<S, F>(sender: S, filter: F) -> (r: Self)
        where S: 'static + EventSender<T>, F: 'static + EventFilter<T>,
        ensures
            r.sends_through(sender),
            r.filters_with(filter),
    {
        let s: Box<dyn EventSender<T>> = Box::new(sender);
        let f: Box<dyn EventFilter<T>> = Box::new(filter);
        Subscriber { sender: s, filter: f }
    }

    /// Hands `event` to the sender.
    pub fn send(&self, event: T)
        ensures
            self.delivered(event),
    {
        self.sender.send(event)
    }
}

/// A new, empty dispatcher for events of type `T`, with its type erased.
pub fn new_event_dispatcher<T: Event>() -> Box<dyn AnyEventDispatcher> {
    let dispatcher: EventDispatcher<T> = EventDispatcher::new();
    Box::new(dispatcher)
}

/// A sender of events of type `T` that hides the concrete sender behind it.
#[verifier::reject_recursive_types(T)]
pub struct ConcreteSender<T> {
    inner: Box<dyn EventSender<T>>,
}

impl<T> ConcreteSender<T> {
    /// Whether this sender forwards to `sender`.
    pub closed spec fn forwards_to<S: 'static + EventSender<T>>(&self, sender: S) -> bool {
        self.inner == {
            let b: Box<dyn EventSender<T>> = Box::new(sender);
            b
        }
    }

    pub fn new<S: 'static + EventSender<T>>(sender: S) -> (r: Self)
        ensures
            r.forwards_to(sender),
    {
        let b: Box<dyn EventSender<T>> = Box::new(sender);
        ConcreteSender { inner: b }
    }
}

impl<T: Event> EventSender<T> for ConcreteSender<T> {
    /// What the inner sender states of the events it was handed.
    closed spec fn delivered(&self, event: T) -> bool {
        self.inner.delivered(event)
    }

    /// What the inner sender may report.
    closed spec fn reports(&self, disconnected: bool) -> bool {
        self.inner.reports(disconnected)
    }

    /// Hands `event` to the inner sender.
    fn send(&self, event: T) {
        self.inner.send(event)
    }

    /// Asks the inner sender, and passes its answer on.
    fn is_disconnected(&self) -> bool {
        self.inner.is_disconnected()
    }
}

impl<T: Event> AnyEventSender for ConcreteSender<T> {}

/// Calls `flume::Sender::is_disconnected`. Whether all receivers are gone
/// depends on the other end of the channel, so nothing is stated.
#[verifier::external_body]
fn flume_is_disconnected<T>(sender: &flume::Sender<T>) -> bool {
    sender.is_disconnected()
}

impl<T: Event + Sync> EventSender<T> for flume::Sender<T> {
    /// An event that finds no receiver is dropped.
    fn send(&self, event: T) {
        let _ = flume_send(self, event);
    }

    fn is_disconnected(&self) -> bool {
        flume_is_disconnected(self)
    }
}

} // verus!
