//! Routing of events to the callbacks that layers register for them.
use std::any::TypeId;

use vstd::prelude::*;

verus! {

/// A registered listener: the index of its layer and of its callback.
pub type Listener = (usize, usize);

/// Listeners are ordered by layer.
pub open spec fn sorted_by_layer(s: Seq<Listener>) -> bool {
    forall|i: int, j: int| 0 <= i < j < s.len() ==> #[trigger] s[i].0 <= #[trigger] s[j].0
}

/// `t` is `s` with `e` placed after every listener of a layer up to `e`'s
/// and before every listener of a later layer: where a stable sort by layer
/// puts a listener appended to a sorted list.
pub open spec fn inserted_by_layer(s: Seq<Listener>, e: Listener, t: Seq<Listener>) -> bool {
    exists|pos: int| {
        &&& 0 <= pos <= s.len()
        &&& t == s.insert(pos, e)
        &&& forall|j: int| 0 <= j < pos ==> #[trigger] s[j].0 <= e.0
        &&& forall|j: int| pos <= j < s.len() ==> #[trigger] s[j].0 > e.0
    }
}

/// Every listener of `required` is among `listeners`.
pub open spec fn includes_all(listeners: Seq<Listener>, required: Seq<Listener>) -> bool {
    forall|k: int| 0 <= k < required.len() ==> listeners.contains(#[trigger] required[k])
}

/// Inserting a listener keeps every listener that was there.
proof fn lemma_inserted_keeps(s: Seq<Listener>, e: Listener, t: Seq<Listener>)
    requires
        inserted_by_layer(s, e, t),
    ensures
        t.contains(e),
        forall|x: Listener| s.contains(x) ==> #[trigger] t.contains(x),
        forall|x: Listener| #[trigger] t.contains(x) ==> s.contains(x) || x == e,
{
    let pos = choose|pos: int| {
        &&& 0 <= pos <= s.len()
        &&& t == s.insert(pos, e)
        &&& forall|j: int| 0 <= j < pos ==> #[trigger] s[j].0 <= e.0
        &&& forall|j: int| pos <= j < s.len() ==> #[trigger] s[j].0 > e.0
    };
    assert(t[pos] == e);
    assert forall|x: Listener| s.contains(x) implies #[trigger] t.contains(x) by {
        let j = choose|j: int| 0 <= j < s.len() && s[j] == x;
        if j < pos {
            assert(t[j] == x);
        } else {
            assert(t[j + 1] == x);
        }
    }
    assert forall|x: Listener| #[trigger] t.contains(x) implies s.contains(x) || x == e by {
        let j = choose|j: int| 0 <= j < t.len() && t[j] == x;
        if j < pos {
            assert(s[j] == x);
        } else if j > pos {
            assert(s[j - 1] == x);
        }
    }
}

/// A list that includes everything required still does once a listener is
/// inserted into it.
proof fn lemma_inserted_includes(s: Seq<Listener>, e: Listener, t: Seq<Listener>, required: Seq<Listener>)
    requires
        inserted_by_layer(s, e, t),
        includes_all(s, required),
    ensures
        includes_all(t, required),
{
    lemma_inserted_keeps(s, e, t);
    assert forall|k: int| 0 <= k < required.len() implies t.contains(#[trigger] required[k]) by {
        assert(s.contains(required[k]));
    }
}

/// What running a callback came to: `Some` of whether it handled the event,
/// or `None` when it failed.
pub open spec fn outcome<E>(r: Result<bool, E>) -> Option<bool> {
    match r {
        Ok(handled) => Some(handled),
        Err(_) => None,
    }
}

/// Invokes the callbacks of listeners. Implemented by whatever holds the
/// layers and the callbacks registered for them.
pub trait ListenerCallbacks {
    type Error;

    /// Whether the implementation keeps a [`log`](ListenerCallbacks::log)
    /// of the callbacks it runs. Those that do not say nothing of it.
    open spec fn keeps_log() -> bool {
        false
    }

    /// The listeners whose callbacks were run so far, in order, each with
    /// what running it came to.
    open spec fn log(&self) -> Seq<(Listener, Option<bool>)> {
        Seq::empty()
    }

    /// Runs callback `callback` on layer `layer`. Returns whether the event
    /// was handled, which stops its dispatch.
    fn call(&mut self, layer: usize, callback: usize) -> (r: Result<bool, Self::Error>)
        ensures
            Self::keeps_log() ==> final(self).log() == old(self).log().push(((layer, callback), outcome(r))),
    ;
}

/// Dispatching an event to `listeners` ran the callbacks recorded in `log`
/// and returned `r`: the listeners' callbacks in order, up to the first one
/// that handled the event (the dispatch returns `Ok(true)`) or failed (the
/// dispatch returns its error), or all of them when none did (`Ok(false)`).
pub open spec fn dispatched<E>(listeners: Seq<Listener>, log: Seq<(Listener, Option<bool>)>, r: Result<bool, E>) -> bool {
    &&& log.len() <= listeners.len()
    &&& forall|j: int| 0 <= j < log.len() ==> #[trigger] log[j].0 == listeners[j]
    &&& forall|j: int| 0 <= j < log.len() - 1 ==> #[trigger] log[j].1 == Some(false)
    &&& match r {
        Ok(true) => log.len() > 0 && log.last().1 == Some(true),
        Ok(false) => log.len() == listeners.len() && (log.len() == 0 || log.last().1 == Some(false)),
        Err(_) => log.len() > 0 && log.last().1 is None,
    }
}

/// Sending an event to `listeners` ran the callbacks recorded in `log` and
/// returned `r`, as [`dispatched`] says, with whether the event was handled
/// left out of the result.
pub open spec fn emitted<E>(listeners: Seq<Listener>, log: Seq<(Listener, Option<bool>)>, r: Result<(), E>) -> bool {
    &&& log.len() <= listeners.len()
    &&& forall|j: int| 0 <= j < log.len() ==> #[trigger] log[j].0 == listeners[j]
    &&& forall|j: int| 0 <= j < log.len() - 1 ==> #[trigger] log[j].1 == Some(false)
    &&& match r {
        Ok(_) => (log.len() > 0 && log.last().1 == Some(true)) || (log.len() == listeners.len() && (log.len() == 0
            || log.last().1 == Some(false))),
        Err(_) => log.len() > 0 && log.last().1 is None,
    }
}

/// `after` extends the record `before`.
pub open spec fn extends(before: Seq<(Listener, Option<bool>)>, after: Seq<(Listener, Option<bool>)>) -> bool {
    before.len() <= after.len() && after.take(before.len() as int) == before
}

/// The listeners of one type of event, in the order in which they receive it.
pub struct EventDispatcher {
    listeners: Vec<Listener>,
}

impl View for EventDispatcher {
    type V = Seq<Listener>;

    closed spec fn view(&self) -> Seq<Listener> {
        self.listeners@
    }
}

impl EventDispatcher {
    /// The listeners are ordered by layer.
    #[verifier::type_invariant]
    spec fn ordered(&self) -> bool {
        sorted_by_layer(self.listeners@)
    }

    pub fn new() -> (d: Self)
        ensures
            d@ == Seq::<Listener>::empty(),
    {
        EventDispatcher { listeners: Vec::new() }
    }

    /// Calls the listeners in order until one of them handles the event,
    /// stopping at the first error. Returns whether the event was handled.
    pub fn dispatch<C: ListenerCallbacks>(&self, callbacks: &mut C) -> (r: Result<bool, C::Error>)
        ensures
            C::keeps_log() ==> extends(old(callbacks).log(), final(callbacks).log()),
            C::keeps_log() ==> dispatched(self@, final(callbacks).log().skip(old(callbacks).log().len() as int), r),
            r matches Ok(true) ==> self@.len() > 0,
            r is Err ==> self@.len() > 0,
            self@.len() == 0 ==> r matches Ok(false),
    {
        let ghost start = callbacks.log();
        assert(start.take(start.len() as int) =~= start);
        let n = self.listeners.len();
        for i in 0..n
            invariant
                n == self@.len(),
                n == self.listeners@.len(),
                start == old(callbacks).log(),
                C::keeps_log() ==> extends(start, callbacks.log()),
                C::keeps_log() ==> callbacks.log().len() == start.len() + i,
                C::keeps_log() ==> forall|j: int| 0 <= j < i ==> #[trigger] callbacks.log().skip(start.len() as int)[j]
                    == (self@[j], Some(false)),
        {
            let ghost before = callbacks.log();
            let (layer_index, func) = self.listeners[i];
            let r = callbacks.call(layer_index, func);
            proof {
                if C::keeps_log() {
                    let after = callbacks.log();
                    let ran = after.skip(start.len() as int);
                    assert(after.take(start.len() as int) =~= start) by {
                        assert(after.take(start.len() as int) =~= before.take(start.len() as int));
                    }
                    assert forall|j: int| 0 <= j < i implies #[trigger] ran[j] == (self@[j], Some(false)) by {
                        assert(ran[j] == before.skip(start.len() as int)[j]);
                    }
                    assert(ran[i as int] == (self@[i as int], outcome(r)));
                    assert(ran.len() == i + 1);
                }
            }
            match r {
                Ok(handled) => {
                    if handled {
                        return Ok(true);
                    }
                },
                Err(e) => {
                    return Err(e);
                },
            }
        }
        Ok(false)
    }

    /// Registers callback `callback` of layer `layer_index`. Listeners stay
    /// ordered by layer, those of one layer in the order of registration.
    pub fn register(&mut self, layer_index: usize, callback: usize)
        ensures
            sorted_by_layer(final(self)@),
            inserted_by_layer(old(self)@, (layer_index, callback), final(self)@),
    {
        proof {
            use_type_invariant(&*self);
        }
        let mut listeners: Vec<Listener> = Vec::new();
        std::mem::swap(&mut listeners, &mut self.listeners);
        let ghost s = listeners@;
        let n = listeners.len();
        let mut pos: usize = 0;
        while pos < n && listeners[pos].0 <= layer_index
            invariant
                n == listeners@.len(),
                s == listeners@,
                pos <= n,
                forall|j: int| 0 <= j < pos ==> #[trigger] s[j].0 <= layer_index,
            decreases n - pos,
        {
            pos = pos + 1;
        }
        assert(forall|j: int| pos <= j < s.len() ==> #[trigger] s[j].0 > layer_index) by {
            assert forall|j: int| pos <= j < s.len() implies #[trigger] s[j].0 > layer_index by {
                assert(s[pos as int].0 > layer_index);
                assert(s[pos as int].0 <= s[j].0);
            }
        }
        listeners.insert(pos, (layer_index, callback));
        let ghost t = listeners@;
        assert(t == s.insert(pos as int, (layer_index, callback)));
        assert forall|i: int, j: int| 0 <= i < j < t.len() implies #[trigger] t[i].0 <= #[trigger] t[j].0 by {
            if j < pos {
                assert(t[i] == s[i] && t[j] == s[j]);
            } else if j == pos {
                assert(t[i] == s[i]);
            } else if i < pos {
                assert(t[i] == s[i] && t[j] == s[j - 1]);
            } else if i == pos {
                assert(t[j] == s[j - 1]);
            } else {
                assert(t[i] == s[i - 1] && t[j] == s[j - 1]);
            }
        }
        self.listeners = listeners;
    }
}

impl Default for EventDispatcher {
    fn default() -> (d: Self)
        ensures
            d@ == Seq::<Listener>::empty(),
    {
        Self::new()
    }
}

#[verifier::external_type_specification]
#[verifier::external_body]
pub struct ExTypeId(TypeId);

/// Calls `TypeId::of::<T>()`. The identity of a type is the same within one
/// program, but nothing here can state which value it is, so nothing is
/// stated.
#[verifier::external_body]
fn type_id_of<T: 'static + ?Sized>() -> TypeId {
    TypeId::of::<T>()
}

/// Calls `<TypeId as PartialEq>::eq`: two identities compare equal exactly
/// when they are the same value.
#[verifier::external_body]
fn same_type_id(a: &TypeId, b: &TypeId) -> (r: bool)
    ensures
        r == (*a == *b),
{
    *a == *b
}

/// Marks the types that can be sent as events between layers.
pub trait Event: 'static {}

/// The dispatchers of each type of event, and the listeners registered for
/// all types.
pub struct EventRegistry {
    dispatchers: Vec<(TypeId, EventDispatcher)>,
    global_listeners: EventDispatcher,
}

/// The listeners of each event type that has a dispatcher.
pub open spec fn dispatcher_map(entries: Seq<(TypeId, EventDispatcher)>) -> Map<TypeId, Seq<Listener>>
    decreases entries.len(),
{
    if entries.len() == 0 {
        Map::empty()
    } else {
        let last = entries.last();
        dispatcher_map(entries.drop_last()).insert(last.0, last.1@)
    }
}

impl EventRegistry {
    /// The listeners of each event type that has a dispatcher.
    pub closed spec fn dispatchers(&self) -> Map<TypeId, Seq<Listener>> {
        dispatcher_map(self.dispatchers@)
    }

    /// The listeners registered for every type of event.
    pub closed spec fn globals(&self) -> Seq<Listener> {
        self.global_listeners@
    }

    /// The listeners an event of type `ty` is sent to: those of its
    /// dispatcher, or, for a type without one, those registered for all
    /// types.
    pub open spec fn listeners_for(&self, ty: TypeId) -> Seq<Listener> {
        if self.dispatchers().contains_key(ty) {
            self.dispatchers()[ty]
        } else {
            self.globals()
        }
    }

    /// Sending an event of type `ty` ran the callbacks recorded in `log`
    /// (when `logged`) and returned `r`, as [`emitted`] says; an error comes
    /// from a listener, so there was one.
    pub open spec fn emit_outcome<E>(&self, ty: TypeId, logged: bool, log: Seq<(Listener, Option<bool>)>, r: Result<(), E>) -> bool {
        &&& (logged ==> emitted(self.listeners_for(ty), log, r))
        &&& (r is Err ==> self.listeners_for(ty).len() > 0)
    }

    /// Each event type has at most one dispatcher, every list of listeners
    /// is ordered by layer, and every dispatcher has each listener
    /// registered for all types.
    #[verifier::type_invariant]
    pub closed spec fn wf(&self) -> bool {
        &&& forall|i: int, j: int|
            0 <= i < j < self.dispatchers@.len() ==> #[trigger] self.dispatchers@[i].0 != #[trigger] self.dispatchers@[j].0
        &&& forall|i: int| 0 <= i < self.dispatchers@.len() ==> sorted_by_layer(#[trigger] self.dispatchers@[i].1@)
        &&& sorted_by_layer(self.global_listeners@)
        &&& forall|i: int| 0 <= i < self.dispatchers@.len() ==> includes_all(#[trigger] self.dispatchers@[i].1@, self.global_listeners@)
    }

    pub fn new() -> (r: Self)
        ensures
            r.wf(),
            r.dispatchers() == Map::<TypeId, Seq<Listener>>::empty(),
            r.globals() == Seq::<Listener>::empty(),
    {
        EventRegistry { dispatchers: Vec::new(), global_listeners: EventDispatcher::new() }
    }

    /// The entry of the dispatcher for `ty`, if there is one.
    fn position_of(&self, ty: &TypeId) -> (r: Option<usize>)
        requires
            self.wf(),
        ensures
            r matches Some(i) ==> i < self.dispatchers@.len() && self.dispatchers@[i as int].0 == *ty,
            r is None ==> forall|i: int| 0 <= i < self.dispatchers@.len() ==> #[trigger] self.dispatchers@[i].0 != *ty,
    {
        let n = self.dispatchers.len();
        for i in 0..n
            invariant
                n == self.dispatchers@.len(),
                forall|j: int| 0 <= j < i ==> #[trigger] self.dispatchers@[j].0 != *ty,
        {
            if same_type_id(&self.dispatchers[i].0, ty) {
                return Some(i);
            }
        }
        None
    }

    /// The dispatcher of the event type `ty`, if one was created.
    pub fn get_for(&self, ty: TypeId) -> (r: Option<&EventDispatcher>)
        ensures
            r matches Some(d) ==> self.dispatchers().contains_key(ty) && d@ == self.dispatchers()[ty],
            r is None ==> !self.dispatchers().contains_key(ty),
    {
        proof {
            use_type_invariant(self);
            lemma_dispatcher_map(self.dispatchers@);
        }
        match self.position_of(&ty) {
            Some(i) => {
                assert(dispatcher_map(self.dispatchers@).contains_key(self.dispatchers@[i as int].0));
                Some(&self.dispatchers[i].1)
            },
            None => None,
        }
    }

    /// The entry of the dispatcher for `ty`, created with the listeners
    /// registered for all types if there was none.
    fn get_or_insert_index(&mut self, ty: TypeId) -> (r: usize)
        requires
            old(self).wf(),
        ensures
            final(self).wf(),
            r < final(self).dispatchers@.len(),
            final(self).dispatchers@[r as int].0 == ty,
            final(self).globals() == old(self).globals(),
            old(self).dispatchers().contains_key(ty) ==> final(self).dispatchers() == old(self).dispatchers(),
            !old(self).dispatchers().contains_key(ty) ==> final(self).dispatchers() == old(self).dispatchers().insert(ty, old(self).globals()),
    {
        proof {
            lemma_dispatcher_map(self.dispatchers@);
        }
        match self.position_of(&ty) {
            Some(i) => {
                assert(dispatcher_map(self.dispatchers@).contains_key(self.dispatchers@[i as int].0));
                i
            },
            None => {
                let mut dispatcher = EventDispatcher::new();
                let n = self.global_listeners.listeners.len();
                for k in 0..n
                    invariant
                        n == self.global_listeners@.len(),
                        sorted_by_layer(self.global_listeners@),
                        dispatcher@ == self.global_listeners@.take(k as int),
                {
                    let (layer, callback) = self.global_listeners.listeners[k];
                    let ghost before = dispatcher@;
                    dispatcher.register(layer, callback);
                    proof {
                        let g = self.global_listeners@;
                        let e = (layer, callback);
                        let pos = choose|pos: int| {
                            &&& 0 <= pos <= before.len()
                            &&& dispatcher@ == before.insert(pos, e)
                            &&& forall|j: int| 0 <= j < pos ==> #[trigger] before[j].0 <= e.0
                            &&& forall|j: int| pos <= j < before.len() ==> #[trigger] before[j].0 > e.0
                        };
                        if pos < before.len() {
                            assert(before[pos] == g[pos]);
                            assert(g[pos].0 <= g[k as int].0);
                        }
                        assert(dispatcher@ =~= g.take(k + 1));
                    }
                }
                assert(self.global_listeners@.take(n as int) == self.global_listeners@);
                let mut entries: Vec<(TypeId, EventDispatcher)> = Vec::new();
                std::mem::swap(&mut entries, &mut self.dispatchers);
                let ghost old_entries = entries@;
                entries.push((ty, dispatcher));
                proof {
                    lemma_dispatcher_map_push(old_entries, (ty, dispatcher));
                    assert forall|i: int, j: int|
                        0 <= i < j < entries@.len() implies #[trigger] entries@[i].0 != #[trigger] entries@[j].0 by {
                        if j == entries@.len() - 1 {
                            assert(old_entries[i].0 != ty);
                        } else {
                            assert(old_entries[i].0 != old_entries[j].0);
                        }
                    }
                    assert forall|i: int| 0 <= i < entries@.len() implies sorted_by_layer(#[trigger] entries@[i].1@) by {
                        if i < entries@.len() - 1 {
                            assert(entries@[i] == old_entries[i]);
                        }
                    }
                    let g = self.global_listeners@;
                    assert forall|i: int| 0 <= i < entries@.len() implies includes_all(#[trigger] entries@[i].1@, g) by {
                        if i < entries@.len() - 1 {
                            assert(entries@[i] == old_entries[i]);
                        } else {
                            assert forall|k: int| 0 <= k < g.len() implies entries@[i].1@.contains(#[trigger] g[k]) by {
                                assert(entries@[i].1@[k] == g[k]);
                            }
                        }
                    }
                }
                self.dispatchers = entries;
                self.dispatchers.len() - 1
            },
        }
    }

    /// The dispatcher of the event type `ty`, created with the listeners
    /// registered for all types if there was none; the dispatchers of other
    /// types, and an existing one, are left as they were.
    pub fn get_or_insert_for(&mut self, ty: TypeId) -> (r: &EventDispatcher)
        ensures
            final(self).globals() == old(self).globals(),
            old(self).dispatchers().contains_key(ty) ==> final(self).dispatchers() == old(self).dispatchers(),
            !old(self).dispatchers().contains_key(ty) ==> final(self).dispatchers() == old(self).dispatchers().insert(
                ty,
                old(self).globals(),
            ),
            final(self).dispatchers().contains_key(ty),
            r@ == final(self).dispatchers()[ty],
    {
        proof {
            use_type_invariant(&*self);
        }
        let i = self.get_or_insert_index(ty);
        proof {
            lemma_dispatcher_map(self.dispatchers@);
        }
        &self.dispatchers[i].1
    }

    /// The dispatcher of events of type `T`, created with the listeners
    /// registered for all types if there was none.
    pub fn get_or_insert<T: Event>(&mut self) -> (r: &EventDispatcher)
        ensures
            final(self).globals() == old(self).globals(),
            exists|ty: TypeId| {
                &&& old(self).dispatchers().contains_key(ty) ==> final(self).dispatchers() == old(self).dispatchers()
                &&& !old(self).dispatchers().contains_key(ty) ==> final(self).dispatchers()
                    == old(self).dispatchers().insert(ty, old(self).globals())
                &&& r@ == #[trigger] final(self).dispatchers()[ty]
            },
    {
        let ty = type_id_of::<T>();
        self.get_or_insert_for(ty)
    }

    /// Registers callback `callback` of layer `layer_index` for events of
    /// type `ty`. A type without a dispatcher gets one, which starts with
    /// the listeners registered for all types.
    pub fn register_for(&mut self, ty: TypeId, layer_index: usize, callback: usize)
        ensures
            final(self).globals() == old(self).globals(),
            final(self).dispatchers().dom() == old(self).dispatchers().dom().insert(ty),
            forall|other: TypeId| other != ty && #[trigger] old(self).dispatchers().contains_key(other)
                ==> final(self).dispatchers()[other] == old(self).dispatchers()[other],
            inserted_by_layer(
                if old(self).dispatchers().contains_key(ty) { old(self).dispatchers()[ty] } else { old(self).globals() },
                (layer_index, callback),
                final(self).dispatchers()[ty],
            ),
    {
        proof {
            use_type_invariant(&*self);
        }
        let i = self.get_or_insert_index(ty);
        let mut entries: Vec<(TypeId, EventDispatcher)> = Vec::new();
        std::mem::swap(&mut entries, &mut self.dispatchers);
        let ghost mid = entries@;
        proof {
            lemma_dispatcher_map(mid);
        }
        let mut entry = entries.remove(i);
        entry.1.register(layer_index, callback);
        entries.insert(i, entry);
        proof {
            assert(entries@ =~= mid.update(i as int, (ty, entry.1)));
            lemma_dispatcher_map_update(mid, i as int, entry.1);
            assert(dispatcher_map(mid).contains_key(mid[i as int].0));
            assert forall|a: int, b: int|
                0 <= a < b < entries@.len() implies #[trigger] entries@[a].0 != #[trigger] entries@[b].0 by {
                assert(mid[a].0 != mid[b].0);
            }
            assert forall|a: int| 0 <= a < entries@.len() implies sorted_by_layer(#[trigger] entries@[a].1@) by {
                if a != i {
                    assert(entries@[a] == mid[a]);
                }
            }
            assert forall|a: int| 0 <= a < entries@.len()
                implies includes_all(#[trigger] entries@[a].1@, self.global_listeners@) by {
                if a != i {
                    assert(entries@[a] == mid[a]);
                } else {
                    lemma_inserted_includes(mid[a].1@, (layer_index, callback), entry.1@, self.global_listeners@);
                }
            }
            assert(dispatcher_map(entries@).dom() =~= dispatcher_map(mid).dom());
        }
        self.dispatchers = entries;
    }

    /// Registers callback `callback` of layer `layer_index` for events of
    /// type `T`.
    pub fn register<T: Event>(&mut self, layer_index: usize, callback: usize)
        ensures
            final(self).globals() == old(self).globals(),
            exists|ty: TypeId| {
                &&& final(self).dispatchers().dom() == old(self).dispatchers().dom().insert(ty)
                &&& inserted_by_layer(
                    if old(self).dispatchers().contains_key(ty) { old(self).dispatchers()[ty] } else { old(self).globals() },
                    (layer_index, callback),
                    #[trigger] final(self).dispatchers()[ty],
                )
            },
    {
        let ty = type_id_of::<T>();
        self.register_for(ty, layer_index, callback);
    }

    /// Registers callback `callback` of layer `layer_index` for every type of
    /// event: for the types that have a dispatcher and for those that get
    /// one later.
    pub fn register_global(&mut self, layer_index: usize, callback: usize)
        ensures
            final(self).dispatchers().dom() == old(self).dispatchers().dom(),
            forall|ty: TypeId| #[trigger] old(self).dispatchers().contains_key(ty)
                ==> inserted_by_layer(old(self).dispatchers()[ty], (layer_index, callback), final(self).dispatchers()[ty]),
            inserted_by_layer(old(self).globals(), (layer_index, callback), final(self).globals()),
    {
        proof {
            use_type_invariant(&*self);
        }
        let mut entries: Vec<(TypeId, EventDispatcher)> = Vec::new();
        std::mem::swap(&mut entries, &mut self.dispatchers);
        let mut globals = EventDispatcher::new();
        std::mem::swap(&mut globals, &mut self.global_listeners);
        let ghost start = entries@;
        let ghost e = (layer_index, callback);
        let n = entries.len();
        for i in 0..n
            invariant
                n == entries@.len(),
                e == (layer_index, callback),
                start.len() == n,
                forall|j: int| 0 <= j < n ==> #[trigger] entries@[j].0 == start[j].0,
                forall|a: int, b: int| 0 <= a < b < n ==> #[trigger] start[a].0 != #[trigger] start[b].0,
                forall|j: int| 0 <= j < n ==> sorted_by_layer(#[trigger] entries@[j].1@),
                forall|j: int| 0 <= j < i ==> inserted_by_layer(start[j].1@, e, #[trigger] entries@[j].1@),
                forall|j: int| 0 <= j < n ==> includes_all(#[trigger] start[j].1@, globals@),
                forall|j: int| i <= j < n ==> #[trigger] entries@[j] == start[j],
                sorted_by_layer(globals@),
                globals == old(self).global_listeners,
        {
            let ghost before = entries@;
            let mut entry = entries.remove(i);
            assert(entry == start[i as int]);
            let mut dispatcher = entry.1;
            let ghost pre = dispatcher@;
            dispatcher.register(layer_index, callback);
            assert(inserted_by_layer(pre, (layer_index, callback), dispatcher@));
            let entry = (entry.0, dispatcher);
            assert(inserted_by_layer(start[i as int].1@, e, entry.1@));
            entries.insert(i, entry);
            assert(entries@ =~= before.update(i as int, entry));
            assert forall|j: int| 0 <= j < i implies #[trigger] entries@[j] == before[j] by {}
        }
        let ghost final_entries = entries@;
        let ghost old_globals = globals@;
        globals.register(layer_index, callback);
        proof {
            let new_globals = globals@;
            lemma_inserted_keeps(old_globals, e, new_globals);
            assert forall|j: int| 0 <= j < final_entries.len() implies includes_all(#[trigger] final_entries[j].1@, new_globals) by {
                lemma_inserted_keeps(start[j].1@, e, final_entries[j].1@);
                assert forall|k: int| 0 <= k < new_globals.len() implies final_entries[j].1@.contains(#[trigger] new_globals[k]) by {
                    let x = new_globals[k];
                    assert(new_globals.contains(x));
                    if x != e {
                        assert(old_globals.contains(x));
                        let m = choose|m: int| 0 <= m < old_globals.len() && old_globals[m] == x;
                        assert(start[j].1@.contains(old_globals[m]));
                    }
                }
            }
            assert forall|a: int, b: int| 0 <= a < b < final_entries.len() implies #[trigger] final_entries[a].0 != #[trigger] final_entries[b].0 by {
                assert(start[a].0 != start[b].0);
            }
            lemma_dispatcher_map(start);
            lemma_dispatcher_map(final_entries);
            assert forall|ty: TypeId| #[trigger] dispatcher_map(final_entries).contains_key(ty) <==> dispatcher_map(start).contains_key(ty) by {
                if dispatcher_map(final_entries).contains_key(ty) {
                    let j = choose|j: int| 0 <= j < final_entries.len() && final_entries[j].0 == ty;
                    assert(dispatcher_map(start).contains_key(start[j].0));
                }
                if dispatcher_map(start).contains_key(ty) {
                    let j = choose|j: int| 0 <= j < start.len() && start[j].0 == ty;
                    assert(dispatcher_map(final_entries).contains_key(final_entries[j].0));
                }
            }
            assert(dispatcher_map(final_entries).dom() =~= dispatcher_map(start).dom());
            assert forall|ty: TypeId| #[trigger] dispatcher_map(start).contains_key(ty)
                implies inserted_by_layer(dispatcher_map(start)[ty], e, dispatcher_map(final_entries)[ty]) by {
                let j = choose|j: int| 0 <= j < start.len() && start[j].0 == ty;
                assert(dispatcher_map(start).contains_key(start[j].0));
                assert(dispatcher_map(final_entries).contains_key(final_entries[j].0));
                assert(inserted_by_layer(start[j].1@, e, final_entries[j].1@));
            }
        }
        self.dispatchers = entries;
        self.global_listeners = globals;
    }

    /// Sends an event of the type `ty` to its listeners, or, for a type
    /// without a dispatcher, to the listeners registered for all types.
    /// Returns whether a listener handled it.
    pub fn emit_for<C: ListenerCallbacks>(&self, ty: TypeId, callbacks: &mut C) -> (r: Result<bool, C::Error>)
        ensures
            C::keeps_log() ==> extends(old(callbacks).log(), final(callbacks).log()),
            C::keeps_log() ==> dispatched(
                self.listeners_for(ty),
                final(callbacks).log().skip(old(callbacks).log().len() as int),
                r,
            ),
            !(r matches Ok(false)) ==> self.listeners_for(ty).len() > 0,
    {
        match self.get_for(ty) {
            Some(dispatcher) => dispatcher.dispatch(callbacks),
            None => self.global_listeners.dispatch(callbacks),
        }
    }

    /// Sends an event of type `T` to its listeners, or, for a type without a
    /// dispatcher, to the listeners registered for all types.
    pub fn emit<T: Event, C: ListenerCallbacks>(&self, callbacks: &mut C) -> (r: Result<(), C::Error>)
        ensures
            C::keeps_log() ==> extends(old(callbacks).log(), final(callbacks).log()),
            exists|ty: TypeId| #[trigger] self.emit_outcome(
                ty,
                C::keeps_log(),
                final(callbacks).log().skip(old(callbacks).log().len() as int),
                r,
            ),
    {
        let ty = type_id_of::<T>();
        let handled = self.emit_for(ty, callbacks);
        let r = match handled {
            Ok(_) => Ok(()),
            Err(e) => Err(e),
        };
        assert(self.emit_outcome(ty, C::keeps_log(), callbacks.log().skip(old(callbacks).log().len() as int), r));
        r
    }

    /// The dispatcher of events of type `T`, if one was created.
    pub fn get<T: Event>(&self) -> (r: Option<&EventDispatcher>)
        ensures
            exists|ty: TypeId| {
                &&& (r is None <==> !#[trigger] self.dispatchers().contains_key(ty))
                &&& (r matches Some(d) ==> d@ == self.dispatchers()[ty])
            },
    {
        let ty = type_id_of::<T>();
        let r = self.get_for(ty);
        assert(r is None <==> !self.dispatchers().contains_key(ty));
        r
    }
}

/// Every listener registered for all types is among the listeners of each
/// type that has a dispatcher, whether that dispatcher was created before or
/// after the listener was registered.
pub proof fn lemma_globals_reach_every_type(registry: &EventRegistry, ty: TypeId, listener: Listener)
    requires
        registry.wf(),
        registry.dispatchers().contains_key(ty),
        registry.globals().contains(listener),
    ensures
        registry.dispatchers()[ty].contains(listener),
{
    let entries = registry.dispatchers@;
    lemma_dispatcher_map(entries);
    let i = choose|i: int| 0 <= i < entries.len() && entries[i].0 == ty;
    assert(dispatcher_map(entries).contains_key(entries[i].0));
    let g = registry.global_listeners@;
    let k = choose|k: int| 0 <= k < g.len() && g[k] == listener;
    assert(includes_all(entries[i].1@, g));
    assert(entries[i].1@.contains(g[k]));
}

impl Default for EventRegistry {
    fn default() -> (r: Self)
        ensures
            r.wf(),
            r.dispatchers() == Map::<TypeId, Seq<Listener>>::empty(),
            r.globals() == Seq::<Listener>::empty(),
    {
        Self::new()
    }
}

/// Replacing the entry of a type replaces that type's listeners.
proof fn lemma_dispatcher_map_update(entries: Seq<(TypeId, EventDispatcher)>, i: int, d: EventDispatcher)
    requires
        forall|a: int, b: int| 0 <= a < b < entries.len() ==> #[trigger] entries[a].0 != #[trigger] entries[b].0,
        0 <= i < entries.len(),
    ensures
        dispatcher_map(entries.update(i, (entries[i].0, d))) == dispatcher_map(entries).insert(entries[i].0, d@),
{
    let updated = entries.update(i, (entries[i].0, d));
    assert forall|a: int, b: int| 0 <= a < b < updated.len() implies #[trigger] updated[a].0 != #[trigger] updated[b].0 by {
        assert(updated[a].0 == entries[a].0);
        assert(updated[b].0 == entries[b].0);
    }
    lemma_dispatcher_map(entries);
    lemma_dispatcher_map(updated);
    let lhs = dispatcher_map(updated);
    let rhs = dispatcher_map(entries).insert(entries[i].0, d@);
    assert forall|ty: TypeId| lhs.contains_key(ty) <==> rhs.contains_key(ty) by {
        if lhs.contains_key(ty) {
            let j = choose|j: int| 0 <= j < updated.len() && updated[j].0 == ty;
            assert(dispatcher_map(entries).contains_key(entries[j].0));
        }
        if rhs.contains_key(ty) && ty != entries[i].0 {
            let j = choose|j: int| 0 <= j < entries.len() && entries[j].0 == ty;
            assert(lhs.contains_key(updated[j].0));
        }
        if ty == entries[i].0 {
            assert(lhs.contains_key(updated[i].0));
        }
    }
    assert forall|ty: TypeId| #[trigger] lhs.contains_key(ty) implies lhs[ty] == rhs[ty] by {
        let j = choose|j: int| 0 <= j < updated.len() && updated[j].0 == ty;
        assert(lhs.contains_key(updated[j].0));
        if j != i {
            assert(dispatcher_map(entries).contains_key(entries[j].0));
        }
    }
    assert(lhs =~= rhs);
}

/// Appending an entry for a new type adds that type's listeners.
proof fn lemma_dispatcher_map_push(entries: Seq<(TypeId, EventDispatcher)>, e: (TypeId, EventDispatcher))
    ensures
        dispatcher_map(entries.push(e)) == dispatcher_map(entries).insert(e.0, e.1@),
{
    assert(entries.push(e).drop_last() == entries);
}

/// Each entry's type has the entry's listeners, and the map holds no other
/// types.
proof fn lemma_dispatcher_map(entries: Seq<(TypeId, EventDispatcher)>)
    requires
        forall|i: int, j: int| 0 <= i < j < entries.len() ==> #[trigger] entries[i].0 != #[trigger] entries[j].0,
    ensures
        forall|i: int| 0 <= i < entries.len() ==> #[trigger] dispatcher_map(entries).contains_key(entries[i].0)
            && dispatcher_map(entries)[entries[i].0] == entries[i].1@,
        forall|ty: TypeId| #[trigger] dispatcher_map(entries).contains_key(ty) ==> exists|i: int| 0 <= i < entries.len() && entries[i].0 == ty,
    decreases entries.len(),
{
    if entries.len() > 0 {
        let rest = entries.drop_last();
        lemma_dispatcher_map(rest);
        assert forall|i: int| 0 <= i < entries.len() implies #[trigger] dispatcher_map(entries).contains_key(entries[i].0)
            && dispatcher_map(entries)[entries[i].0] == entries[i].1@ by {
            if i < entries.len() - 1 {
                assert(rest[i] == entries[i]);
                assert(dispatcher_map(rest).contains_key(rest[i].0));
                assert(entries[i].0 != entries[entries.len() - 1].0);
            }
        }
        assert forall|ty: TypeId| #[trigger] dispatcher_map(entries).contains_key(ty) implies exists|i: int| 0 <= i < entries.len() && entries[i].0 == ty by {
            if ty != entries.last().0 {
                assert(dispatcher_map(rest).contains_key(ty));
                let i = choose|i: int| 0 <= i < rest.len() && rest[i].0 == ty;
                assert(entries[i] == rest[i]);
            } else {
                assert(entries[entries.len() - 1].0 == ty);
            }
        }
    }
}

} // verus!
