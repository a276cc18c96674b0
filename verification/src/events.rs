//! Broadcasting of events to subscribed listeners.
use std::any::{Any, TypeId};
use std::collections::HashMap;
use std::sync::mpsc;

use vstd::prelude::*;

pub mod dispatcher;

verus! {

/// Manages event broadcasting for different types of events.
/// Sending an event will send a clone of the event to all subscribed listeners.
///
/// The event listeners can be anything implementing `EventSender`. Implemented by `std::sync::mpsc::Sender`,
/// `flume::Sender`, `crossbeam_channel::Sender`.
pub struct Events {
    dispatchers: DispatcherMap,
    counts: Ghost<Map<TypeId, nat>>,
}

/// The numbers of subscribers go from `before` to `after` as the dispatcher
/// of the event type `ty` goes from `from` subscribers to `to`.
pub open spec fn count_step(before: Map<TypeId, nat>, after: Map<TypeId, nat>, ty: TypeId, from: nat, to: nat) -> bool {
    from == count_of(before, ty) && after == before.insert(ty, to)
}

/// The number of subscribers of the event type `ty`, given the numbers of
/// the types that have a dispatcher.
pub open spec fn count_of(counts: Map<TypeId, nat>, ty: TypeId) -> nat {
    if counts.contains_key(ty) {
        counts[ty]
    } else {
        0
    }
}

impl Events {
    /// The number of subscribers of each event type that has a dispatcher.
    pub closed spec fn subscriber_counts(&self) -> Map<TypeId, nat> {
        self.counts@
    }

    pub fn new() -> (r: Events)
        ensures
            r.subscriber_counts() == Map::<TypeId, nat>::empty(),
    {
        Events { dispatchers: DispatcherMap::new(), counts: Ghost(Map::empty()) }
    }

    /// Sends an event of type `T` to all subscribed listeners.
    /// If no dispatcher exists for event `T`, a new one will be created.
    /// Each subscriber of the type is handed a clone of `event`; those whose
    /// receiver is gone are dropped, and the count of the type falls to the
    /// subscribers that answered alive. No other type's count moves.
    pub fn send<T: Event>(&mut self, event: T)
        ensures
            exists|ty: TypeId, subs: Seq<Subscriber<T>>, alive: Seq<bool>| {
                &&& #[trigger] count_step(
                    old(self).subscriber_counts(),
                    final(self).subscriber_counts(),
                    ty,
                    subs.len(),
                    keep_alive(subs, alive).len(),
                )
                &&& answered(subs, event, alive)
            },
    {
        let dispatcher = dispatcher_of::<T>(self);
        let ghost pre = dispatcher@;
        dispatcher.send(event);
        proof {
            let alive = choose|alive: Seq<bool>|
                #[trigger] answered(pre, event, alive) && dispatcher@ == keep_alive(pre, alive);
            assert(answered(pre, event, alive));
        }
    }

    /// Subscribes `sender` to the events of type `T`: the subscribers of
    /// that type gain one.
    pub fn subscribe<S, T: Event>(&mut self, sender: S)
        where S: 'static + EventSender<T>,
        ensures
            exists|ty: TypeId, from: nat, to: nat| {
                &&& #[trigger] count_step(old(self).subscriber_counts(), final(self).subscriber_counts(), ty, from, to)
                &&& to == from + 1
            },
    {
        let dispatcher = dispatcher_of::<T>(self);
        dispatcher.subscribe(sender)
    }
}

impl Default for Events {
    fn default() -> (r: Self)
        ensures
            r.subscriber_counts() == Map::<TypeId, nat>::empty(),
    {
        Self::new()
    }
}

/// Calls `HashMap::entry(..).or_insert_with(..)` on the identity of `T` in
/// the dispatchers of `events`, creating an empty dispatcher through
/// [`new_event_dispatcher`] when none is stored yet, and `downcast_mut` on
/// what is stored under that identity, which only ever holds an
/// `EventDispatcher<T>`. The dispatcher handed out holds as many
/// subscribers as `events` counts for that type (none for a type without a
/// dispatcher), and the count follows what is done through it. Which
/// identity `T` has is not stated: `TypeId::of` has no value that can be
/// named here.
#[verifier::external_body]
fn dispatcher_of<T: Event>(events: &mut Events) -> (d: &mut EventDispatcher<T>)
    ensures
        exists|ty: TypeId| #[trigger] count_step(
            old(events).subscriber_counts(),
            final(events).subscriber_counts(),
            ty,
            (*d)@.len(),
            final(d)@.len(),
        ),
{
    events.dispatchers.inner
        .entry(TypeId::of::<T>())
        .or_insert_with(|| new_event_dispatcher::<T>())
        .downcast_mut::<EventDispatcher<T>>()
        .expect("Failed to downcast")
}

/// Blanket type for events.
pub trait Event: 'static + Clone + Send {}

impl<T: 'static + Clone + Send> Event for T {}

/// The dispatchers of an [`Events`], one per event type, keyed by the type's
/// identity. Each value is the type-erased `EventDispatcher` of that type.
#[verifier::external_body]
pub struct DispatcherMap {
    inner: HashMap<TypeId, Box<dyn Any + Send>>,
}

impl DispatcherMap {
    /// Calls `HashMap::new`: an empty map of dispatchers. Nothing is stated
    /// about the map, whose contents Verus does not see.
    #[verifier::external_body]
    fn new() -> DispatcherMap {
        DispatcherMap { inner: HashMap::new() }
    }
}

/// A new, empty dispatcher for events of type `T`, boxed for storage in an
/// [`Events`].
pub fn new_event_dispatcher<T: Event>() -> (d: Box<EventDispatcher<T>>)
    ensures
        d@ == Seq::<Subscriber<T>>::empty(),
{
    let dispatcher: EventDispatcher<T> = EventDispatcher::new();
    Box::new(dispatcher)
}

/// Keeps the items of `s` whose flag in `alive` is set, in the order they had.
pub open spec fn keep_alive<A>(s: Seq<A>, alive: Seq<bool>) -> Seq<A>
    decreases s.len(),
{
    if s.len() == 0 {
        Seq::empty()
    } else {
        let rest = keep_alive(s.drop_last(), alive.take(s.len() - 1));
        if alive[s.len() - 1] {
            rest.push(s.last())
        } else {
            rest
        }
    }
}

/// Each subscriber of `subs` was handed a clone of `event` and gave the
/// answer that `alive` holds at its position.
pub open spec fn answered<T: Clone>(subs: Seq<Subscriber<T>>, event: T, alive: Seq<bool>) -> bool {
    &&& alive.len() == subs.len()
    &&& forall|i: int| 0 <= i < subs.len() ==> #[trigger] handed(subs[i], event, alive[i])
}

/// `sub` was handed a clone of `event` and answered `alive`.
pub open spec fn handed<T: Clone>(sub: Subscriber<T>, event: T, alive: bool) -> bool {
    exists|c: T| cloned(event, c) && #[trigger] sub.answers(c, alive)
}

/// What hands the events of a dispatcher to its subscribers, one call per
/// subscriber and event.
pub trait Courier<T> {
    /// Whether the courier keeps, in [`handed`](Courier::handed), a record
    /// of each handover. One that keeps none states nothing of it.
    open spec fn keeps_log() -> bool {
        false
    }

    /// Whether each handover goes to the subscriber's own sender, whose
    /// answer is passed on. One that does not say so states nothing of it.
    open spec fn forwards() -> bool {
        false
    }

    /// The handovers so far, in order: the subscriber's position, the event
    /// and the answer.
    open spec fn handed(&self) -> Seq<(usize, T, bool)> {
        Seq::empty()
    }

    /// Hands `event` to `subscriber`, at position `index` of its
    /// dispatcher. Returns whether its receiver is still alive.
    fn hand(&mut self, subscriber: &Subscriber<T>, index: usize, event: T) -> (alive: bool)
        ensures
            Self::keeps_log() ==> final(self).handed() == old(self).handed().push((index, event, alive)),
            Self::forwards() ==> subscriber.answers(event, alive),
    ;
}

/// Each handover of `log` got its answer from the sender of the
/// subscriber at its position in `subs`, for the event it carried.
pub open spec fn answered_each<T>(subs: Seq<Subscriber<T>>, log: Seq<(usize, T, bool)>) -> bool {
    forall|i: int| #![trigger log[i]] 0 <= i < log.len() ==> subs[i].answers(log[i].1, log[i].2)
}

/// `log` holds one handover per subscriber, in order: the `i`-th went to
/// position `i`, carried a clone of `event` and got the answer `alive[i]`.
pub open spec fn handed_in_order<T: Clone>(log: Seq<(usize, T, bool)>, event: T, alive: Seq<bool>) -> bool {
    &&& log.len() == alive.len()
    &&& forall|i: int| #![trigger log[i]] 0 <= i < log.len() ==> log[i].0 == i && cloned(event, log[i].1) && log[i].2 == alive[i]
}

/// The courier of [`EventDispatcher::send`]: it hands each event to the
/// subscriber's own sender, and records the handovers.
struct Forwarder<T> {
    log: Ghost<Seq<(usize, T, bool)>>,
}

impl<T> Courier<T> for Forwarder<T> {
    open spec fn keeps_log() -> bool {
        true
    }

    open spec fn forwards() -> bool {
        true
    }

    closed spec fn handed(&self) -> Seq<(usize, T, bool)> {
        self.log@
    }

    fn hand(&mut self, subscriber: &Subscriber<T>, index: usize, event: T) -> (alive: bool) {
        let ghost e = event;
        let alive = subscriber.send(event);
        self.log = Ghost(self.log@.push((index, e, alive)));
        alive
    }
}

/// Keeps the items whose flag is set, in their order: the flags answer the
/// items one for one.
pub fn keep_flagged<A>(items: Vec<A>, flags: &Vec<bool>) -> (r: Vec<A>)
    requires
        items@.len() == flags@.len(),
    ensures
        r@ == keep_alive(items@, flags@),
{
    let ghost all = items@;
    let len = items.len();
    let mut kept: Vec<A> = Vec::new();
    let mut i: usize = 0;
    for item in it: items
        invariant
            all == it.seq(),
            i == it.index(),
            i <= all.len(),
            all.len() == len,
            all.len() == flags@.len(),
            kept@ == keep_alive(all.take(i as int), flags@.take(i as int)),
    {
        proof {
            assert(it.index() < it.seq().len());
            assert(all.take(i + 1).drop_last() == all.take(i as int));
            assert(flags@.take(i + 1).take(i as int) == flags@.take(i as int));
            assert(all.take(i + 1).last() == item);
        }
        if flags[i] {
            kept.push(item);
        }
        i = i + 1;
    }
    assert(all.take(all.len() as int) == all);
    assert(flags@.take(flags@.len() as int) == flags@);
    kept
}

/// Describes a type which can send events. Implemented for mpsc::channel and crossbeam channel.
pub trait EventSender<T>: Send {
    /// Whether `alive` is an answer this sender gives when handed `event`.
    /// A sender that promises nothing of its answers keeps the default.
    open spec fn answers(&self, event: T, alive: bool) -> bool {
        true
    }

    /// Send an event. Returns true if receiver is still alive.
    fn send(&self, event: T) -> (alive: bool)
        ensures
            self.answers(event, alive),
    ;
}

/// One listener of a dispatcher.
#[verifier::reject_recursive_types(T)]
pub struct Subscriber<T> {
    sender: Box<dyn EventSender<T>>,
}

impl<T> Subscriber<T> {
    /// Whether `alive` is an answer the sender of this subscriber gives when
    /// handed `event`.
    pub closed spec fn answers(&self, event: T, alive: bool) -> bool {
        self.sender.answers(event, alive)
    }

    /// Whether this subscriber sends through `sender`.
    pub closed spec fn sends_through<S: 'static + EventSender<T>>(&self, sender: S) -> bool {
        self.sender == {
            let b: Box<dyn EventSender<T>> = Box::new(sender);
            b
        }
    }

    pub fn new<S>(sender: S) -> (r: Self)
        where S: 'static + EventSender<T>,
        ensures
            r.sends_through(sender),
    {
        let b: Box<dyn EventSender<T>> = Box::new(sender);
        Subscriber { sender: b }
    }

    /// Hands `event` to the sender and passes its answer on: true if the
    /// receiver is still alive.
    pub fn send(&self, event: T) -> (alive: bool)
        ensures
            self.answers(event, alive),
    {
        self.sender.send(event)
    }
}

/// Handles event dispatching for a single type of event
#[verifier::reject_recursive_types(T)]
pub struct EventDispatcher<T> {
    subscribers: Vec<Subscriber<T>>,
}

impl<T> View for EventDispatcher<T> {
    type V = Seq<Subscriber<T>>;

    closed spec fn view(&self) -> Seq<Subscriber<T>> {
        self.subscribers@
    }
}

impl<T: Clone> EventDispatcher<T> {
    pub fn new() -> (d: Self)
        ensures
            d@ == Seq::<Subscriber<T>>::empty(),
    {
        EventDispatcher { subscribers: Vec::new() }
    }

    /// Sends an event to all subscribed subscriber. Event is cloned for each registered subscriber. Requires mutable access to cleanup no longer active subscribers.
    /// Each subscriber is handed a clone in turn, through its own sender;
    /// those that answer that their receiver is gone are removed, the others
    /// keep their order. Returns the record of the handovers: one per
    /// subscriber, in order, with the clone it carried and the answer.
    pub fn send(&mut self, event: T) -> (handed: Ghost<Seq<(usize, T, bool)>>)
        ensures
            exists|alive: Seq<bool>| {
                &&& #[trigger] answered(old(self)@, event, alive)
                &&& final(self)@ == keep_alive(old(self)@, alive)
                &&& handed_in_order(handed@, event, alive)
                &&& answered_each(old(self)@, handed@)
            },
    {
        let mut courier = Forwarder { log: Ghost(Seq::empty()) };
        self.send_with(event, &mut courier);
        proof {
            assert(courier.log@.skip(0) =~= courier.log@);
        }
        Ghost(courier.log@)
    }

    /// Hands each subscriber, in order, exactly one clone of `event` through
    /// `courier`, and keeps the subscribers whose handover answered alive,
    /// in their order. A courier that keeps a log records one entry per
    /// subscriber: its position, the clone and the answer.
    pub fn send_with<C: Courier<T>>(&mut self, event: T, courier: &mut C)
        ensures
            exists|alive: Seq<bool>| {
                &&& alive.len() == old(self)@.len()
                &&& final(self)@ == #[trigger] keep_alive(old(self)@, alive)
                &&& C::keeps_log() ==> {
                    &&& final(courier).handed().len() >= old(courier).handed().len()
                    &&& final(courier).handed().take(old(courier).handed().len() as int) == old(courier).handed()
                    &&& handed_in_order(final(courier).handed().skip(old(courier).handed().len() as int), event, alive)
                    &&& C::forwards() ==> answered_each(
                        old(self)@,
                        final(courier).handed().skip(old(courier).handed().len() as int),
                    )
                }
                &&& C::forwards() ==> answered(old(self)@, event, alive)
            },
    {
        let ghost pre = self.subscribers@;
        let ghost start = courier.handed();
        let ghost mut lg: Seq<(usize, T, bool)> = Seq::empty();
        let mut alive: Vec<bool> = Vec::new();
        let n = self.subscribers.len();
        for i in 0..n
            invariant
                n == pre.len(),
                self.subscribers@ == pre,
                alive@.len() == i,
                start == old(courier).handed(),
                C::keeps_log() ==> courier.handed() == start + lg,
                handed_in_order(lg, event, alive@),
                C::forwards() ==> answered_each(pre, lg),
                C::forwards() ==> forall|j: int| 0 <= j < i ==> #[trigger] handed(pre[j], event, alive@[j]),
        {
            let copy = event.clone();
            let answer = courier.hand(&self.subscribers[i], i, copy);
            let ghost old_lg = lg;
            proof {
                lg = lg.push((i, copy, answer));
                if C::keeps_log() {
                    assert(start + lg =~= (start + old_lg).push((i, copy, answer)));
                }
                if C::forwards() {
                    assert(cloned(event, copy) && pre[i as int].answers(copy, answer));
                }
            }
            alive.push(answer);
            proof {
                assert forall|j: int| #![trigger lg[j]] 0 <= j < lg.len() implies lg[j].0 == j && cloned(event, lg[j].1)
                    && lg[j].2 == alive@[j] by {
                    if j < i {
                        assert(lg[j] == old_lg[j]);
                    }
                }
                if C::forwards() {
                    assert forall|j: int| #![trigger lg[j]] 0 <= j < lg.len() implies pre[j].answers(lg[j].1, lg[j].2) by {
                        if j < i {
                            assert(lg[j] == old_lg[j]);
                        }
                    }
                    assert forall|j: int| 0 <= j < i + 1 implies #[trigger] handed(pre[j], event, alive@[j]) by {
                        if j == i {
                            assert(pre[i as int].answers(copy, answer));
                        }
                    }
                }
            }
        }
        let mut subscribers: Vec<Subscriber<T>> = Vec::new();
        std::mem::swap(&mut subscribers, &mut self.subscribers);
        assert(subscribers@ == pre);
        self.subscribers = keep_flagged(subscribers, &alive);
        proof {
            assert(old(self)@ == pre);
            if C::keeps_log() {
                assert((start + lg).take(start.len() as int) =~= start);
                assert((start + lg).skip(start.len() as int) =~= lg);
            }
            if C::forwards() {
                assert(answered(pre, event, alive@));
            }
            assert(self@ == keep_alive(old(self)@, alive@));
        }
    }

    /// Subscribes to events using sender to send events. The subscriber is automatically cleaned
    /// up when the receiving end is dropped.
    pub fn subscribe<S>(&mut self, sender: S)
        where S: 'static + EventSender<T>,
        ensures
            final(self)@.len() == old(self)@.len() + 1,
            final(self)@.take(old(self)@.len() as int) == old(self)@,
            final(self)@.last().sends_through(sender),
    {
        self.subscribers.push(Subscriber::new(sender));
    }
}

#[verifier::external_type_specification]
#[verifier::external_body]
#[verifier::reject_recursive_types(T)]
pub struct ExMpscSender<T>(mpsc::Sender<T>);

#[verifier::external_type_specification]
#[verifier::external_body]
#[verifier::reject_recursive_types(T)]
pub struct ExFlumeSender<T>(flume::Sender<T>);

#[verifier::external_type_specification]
#[verifier::external_body]
#[verifier::reject_recursive_types(T)]
pub struct ExCrossbeamSender<T>(crossbeam_channel::Sender<T>);

/// Calls `std::sync::mpsc::Sender::send`. The result says whether the
/// receiver is still alive, which depends on the other end of the channel,
/// so nothing is stated of it.
#[verifier::external_body]
fn mpsc_send<T: Send>(sender: &mpsc::Sender<T>, event: T) -> bool {
    sender.send(event).is_ok()
}

/// Calls `flume::Sender::send`. The result says whether a receiver is still
/// alive, which depends on the other end of the channel, so nothing is
/// stated of it.
#[verifier::external_body]
pub(crate) fn flume_send<T: Send>(sender: &flume::Sender<T>, event: T) -> bool {
    sender.send(event).is_ok()
}

/// Calls `crossbeam_channel::Sender::send`. The result says whether a
/// receiver is still alive, which depends on the other end of the channel,
/// so nothing is stated of it.
#[verifier::external_body]
fn crossbeam_send<T: Send>(sender: &crossbeam_channel::Sender<T>, event: T) -> bool {
    sender.send(event).is_ok()
}

impl<T: Send> EventSender<T> for mpsc::Sender<T> {
    fn send(&self, event: T) -> bool {
        mpsc_send(self, event)
    }
}

impl<T: Send> EventSender<T> for flume::Sender<T> {
    fn send(&self, event: T) -> bool {
        flume_send(self, event)
    }
}

impl<T: Send> EventSender<T> for crossbeam_channel::Sender<T> {
    fn send(&self, event: T) -> bool {
        crossbeam_send(self, event)
    }
}

} // verus!
