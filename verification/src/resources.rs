//! Storage of resources of one type, reached through handles.
use std::marker::PhantomData;

use generational_arena::{Arena, Index};
use vstd::prelude::*;

verus! {

/// Marks the types that can be stored as resources.
pub trait Resource {}

#[verifier::external_type_specification]
#[verifier::external_body]
#[verifier::reject_recursive_types(T)]
pub struct ExArena<T>(Arena<T>);

#[verifier::external_type_specification]
#[verifier::external_body]
pub struct ExIndex(Index);

/// A reference to a resource of type `T` in a [`ResourceCache`].
pub struct Handle<T>(Index, PhantomData<T>);

impl<T> Handle<T> {
    /// The arena index the handle stands for.
    pub closed spec fn index(&self) -> Index {
        self.0
    }

    pub fn from_index(idx: Index) -> (h: Self)
        ensures
            h.index() == idx,
    {
        Handle(idx, PhantomData)
    }

    pub fn into_index(self) -> (idx: Index)
        ensures
            idx == self.index(),
    {
        self.0
    }
}

impl<T> Clone for Handle<T> {
    fn clone(&self) -> (r: Self)
        ensures
            r.index() == self.index(),
    {
        Handle(self.0, PhantomData)
    }
}

impl<T> Copy for Handle<T> {}

/// Calls `<generational_arena::Index as PartialEq>::eq`, derived over the
/// index's slot and generation: two indices compare equal exactly when they
/// are the same value.
#[verifier::external_body]
fn same_index(a: &Index, b: &Index) -> (r: bool)
    ensures
        r == (*a == *b),
{
    *a == *b
}

impl<T> PartialEq for Handle<T> {
    fn eq(&self, other: &Self) -> (r: bool) {
        same_index(&self.0, &other.0)
    }
}

impl<T> vstd::std_specs::cmp::PartialEqSpecImpl for Handle<T> {
    open spec fn obeys_eq_spec() -> bool {
        true
    }

    open spec fn eq_spec(&self, other: &Self) -> bool {
        self.index() == other.index()
    }
}

impl<T> Eq for Handle<T> {}

impl<T> From<Index> for Handle<T> {
    fn from(idx: Index) -> (h: Self) {
        Handle(idx, PhantomData)
    }
}

impl<T> vstd::std_specs::convert::FromSpecImpl<Index> for Handle<T> {
    open spec fn obeys_from_spec() -> bool {
        true
    }

    closed spec fn from_spec(idx: Index) -> Self {
        Handle(idx, PhantomData)
    }
}

/// Why a resource could not be reached.
#[derive(Debug, Clone, Copy)]
pub enum Error {
    /// The handle does not refer to a resource of the cache.
    InvalidHandle,
}

/// Stores resources of a single type. Resources are inserted and accessed by a handle.
#[verifier::reject_recursive_types(T)]
pub struct ResourceCache<T> {
    resources: Arena<T>,
    contents: Ghost<Map<Index, T>>,
}

/// Calls `generational_arena::Arena::new`, which makes an arena that holds
/// no element.
#[verifier::external_body]
fn arena_new<T>() -> Arena<T> {
    Arena::new()
}

/// Calls `generational_arena::Arena::insert`: the element goes into a free
/// slot, under an index that no element of the arena had, and stays there;
/// the other elements are untouched.
#[verifier::external_body]
fn arena_insert<T>(cache: &mut ResourceCache<T>, value: T) -> (idx: Index)
    ensures
        !old(cache).contents@.contains_key(idx),
        final(cache).contents@ == old(cache).contents@.insert(idx, value),
{
    cache.resources.insert(value)
}

/// Calls `generational_arena::Arena::get`: the element stored under `idx`,
/// or `None` when no element has that index.
#[verifier::external_body]
fn arena_get<T>(cache: &ResourceCache<T>, idx: Index) -> (r: Option<&T>)
    ensures
        r matches Some(v) ==> cache.contents@.contains_key(idx) && *v == cache.contents@[idx],
        r is None ==> !cache.contents@.contains_key(idx),
{
    cache.resources.get(idx)
}

/// Calls `generational_arena::Arena::get_mut`: the element stored under
/// `idx`, to be changed in place, or `None` when no element has that index.
#[verifier::external_body]
fn arena_get_mut<T>(cache: &mut ResourceCache<T>, idx: Index) -> (r: Option<&mut T>)
    ensures
        r matches Some(v) ==> {
            &&& old(cache).contents@.contains_key(idx)
            &&& *v == old(cache).contents@[idx]
            &&& final(cache).contents@ == old(cache).contents@.insert(idx, *final(v))
        },
        r is None ==> !old(cache).contents@.contains_key(idx) && final(cache).contents@ == old(cache).contents@,
{
    cache.resources.get_mut(idx)
}

impl<T: 'static + Sized> ResourceCache<T> {
    /// The resources of the cache, by the index of their handle.
    pub closed spec fn contents(&self) -> Map<Index, T> {
        self.contents@
    }

    pub fn new() -> (c: Self)
        ensures
            c.contents() == Map::<Index, T>::empty(),
    {
        ResourceCache { resources: arena_new(), contents: Ghost(Map::empty()) }
    }

    /// Stores `resource` under a new handle.
    pub fn insert(&mut self, resource: T) -> (h: Handle<T>)
        ensures
            !old(self).contents().contains_key(h.index()),
            final(self).contents() == old(self).contents().insert(h.index(), resource),
    {
        Handle::from_index(arena_insert(self, resource))
    }

    /// The resource stored under `handle`.
    pub fn get(&self, handle: Handle<T>) -> (r: Result<&T, Error>)
        ensures
            r matches Ok(v) ==> self.contents().contains_key(handle.index()) && *v == self.contents()[handle.index()],
            r is Err ==> !self.contents().contains_key(handle.index()),
            !self.contents().contains_key(handle.index()) ==> r is Err,
    {
        match arena_get(self, handle.into_index()) {
            Some(v) => Ok(v),
            None => Err(Error::InvalidHandle),
        }
    }

    /// The resource stored under `handle`, to be changed in place.
    pub fn get_mut(&mut self, handle: Handle<T>) -> (r: Result<&mut T, Error>)
        ensures
            r matches Ok(v) ==> {
                &&& old(self).contents().contains_key(handle.index())
                &&& *v == old(self).contents()[handle.index()]
                &&& final(self).contents() == old(self).contents().insert(handle.index(), *final(v))
            },
            r is Err ==> !old(self).contents().contains_key(handle.index()) && final(self).contents() == old(self).contents(),
            !old(self).contents().contains_key(handle.index()) ==> r is Err,
    {
        match arena_get_mut(self, handle.into_index()) {
            Some(v) => Ok(v),
            None => Err(Error::InvalidHandle),
        }
    }
}

/// A resource read back through the handle it was stored under is the
/// resource that was stored, and storing leaves the other resources as they
/// were.
pub proof fn lemma_get_after_insert<T>(before: Map<Index, T>, after: Map<Index, T>, idx: Index, resource: T, other: Index)
    requires
        !before.contains_key(idx),
        after == before.insert(idx, resource),
    ensures
        after.contains_key(idx) && after[idx] == resource,
        other != idx ==> (after.contains_key(other) == before.contains_key(other)),
        other != idx && before.contains_key(other) ==> after[other] == before[other],
{
}

/// Two resources stored one after the other get distinct handles, and both
/// are read back through their own handle.
pub proof fn lemma_inserts_get_distinct_handles<T>(
    before: Map<Index, T>,
    first: Index,
    a: T,
    second: Index,
    b: T,
    after: Map<Index, T>,
)
    requires
        !before.contains_key(first),
        !before.insert(first, a).contains_key(second),
        after == before.insert(first, a).insert(second, b),
    ensures
        first != second,
        after.contains_key(first) && after[first] == a,
        after.contains_key(second) && after[second] == b,
{
}

} // verus!
