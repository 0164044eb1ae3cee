//! The container protocol: the abstract contract every realization of the
//! slot store implements. Each realization supplies its own invariant, its
//! machine-limit side conditions, and the exact meaning of each operation,
//! as specification functions; the protocol fixes the shape of the
//! guarantees themselves.

use vstd::prelude::*;

use crate::error::ContainerError;

verus! {

/// A container of elements addressed by reusable identifiers.
///
/// `reserve` allocates an id without storing a value, `update` stores a
/// value at a reserved id, `insert` does both at once, `remove` frees an id
/// and hands back its value, `contains` tests whether an id is at least
/// reserved, `ids` enumerates those ids, and `clear` returns the container
/// to its empty initial state.
pub trait Container<E>: Sized {
    type I: Copy;

    /// The realization's internal invariant; every operation keeps it.
    spec fn inv(&self) -> bool;

    /// Machine-limit room for one more reserved id.
    spec fn can_reserve(&self) -> bool;

    /// Machine-limit room to store an element at `id`.
    spec fn can_update(&self, id: Self::I) -> bool;

    /// Machine-limit room to release one more id.
    spec fn can_remove(&self) -> bool;

    /// Machine-limit room to reserve an id and store `element` at it.
    spec fn can_insert(&self, element: &E) -> bool;

    /// Exactly what a completed `reserve` did and returned.
    spec fn reserve_post(pre: Self, post: Self, r: Result<Self::I, ContainerError>) -> bool;

    /// Exactly what a completed `insert` did and returned.
    spec fn insert_post(pre: Self, post: Self, element: E, r: Result<Self::I, ContainerError>) -> bool;

    /// Exactly what a completed `update` did and returned.
    spec fn update_post(
        pre: Self,
        post: Self,
        id: Self::I,
        element: E,
        r: Result<Option<E>, ContainerError>,
    ) -> bool;

    /// Exactly what a completed `remove` did and returned.
    spec fn remove_post(pre: Self, post: Self, id: Self::I, r: Result<Option<E>, ContainerError>) -> bool;

    /// Exactly what a completed `clear` left behind.
    spec fn clear_post(pre: Self, post: Self) -> bool;

    /// What a `contains` answer means for this realization.
    spec fn contains_post(&self, id: Self::I, r: bool) -> bool;

    /// What the id enumeration holds for this realization.
    spec fn ids_post(&self, r: Seq<Self::I>) -> bool;

    /// Allocates a fresh or recycled identifier without storing a value.
    fn reserve(&mut self) -> (r: Result<Self::I, ContainerError>)
        requires
            old(self).inv(),
            old(self).can_reserve(),
        ensures
            final(self).inv(),
            Self::reserve_post(*old(self), *final(self), r),
    ;

    /// Reserves an id and stores `element` at it, returning the id.
    fn insert(&mut self, element: E) -> (r: Result<Self::I, ContainerError>)
        requires
            old(self).inv(),
            old(self).can_insert(&element),
        ensures
            final(self).inv(),
            Self::insert_post(*old(self), *final(self), element, r),
    ;

    /// Stores `element` at `id`, returning the previous value if the slot
    /// already held one; fails with `InvalidId` when `id` is not reserved.
    fn update(&mut self, id: Self::I, new_element: E) -> (r: Result<Option<E>, ContainerError>)
        requires
            old(self).inv(),
            old(self).can_update(id),
        ensures
            final(self).inv(),
            Self::update_post(*old(self), *final(self), id, new_element, r),
    ;

    /// Frees `id`, returning the stored value if the slot held one; fails
    /// with `InvalidId` when `id` was not reserved.
    fn remove(&mut self, id: Self::I) -> (r: Result<Option<E>, ContainerError>)
        requires
            old(self).inv(),
            old(self).can_remove(),
        ensures
            final(self).inv(),
            Self::remove_post(*old(self), *final(self), id, r),
    ;

    /// True iff `id` is at least reserved. Read-only.
    fn contains(&mut self, id: Self::I) -> (r: Result<bool, ContainerError>)
        requires
            old(self).inv(),
        ensures
            final(self).inv(),
            *final(self) == *old(self),
            r matches Ok(b) && old(self).contains_post(id, b),
    ;

    /// Every id that is at least reserved. Read-only.
    fn ids(&self) -> (r: Vec<Self::I>)
        requires
            self.inv(),
        ensures
            self.ids_post(r@),
    ;

    /// Returns the container to its empty initial state.
    fn clear(&mut self) -> (r: Result<(), ContainerError>)
        requires
            old(self).inv(),
        ensures
            final(self).inv(),
            r == Ok::<(), ContainerError>(()),
            Self::clear_post(*old(self), *final(self)),
    ;
}

/// A container that buffers its elements and lets callers pin them.
pub trait BufferContainer<E>: Container<E> {
    fn flush(&mut self, id: Self::I);

    fn unfix(&mut self, id: Self::I);

    fn fix(&mut self, id: Self::I);
}

/// A container that can hand out a copy of a stored value without removing
/// it, for element types that support duplication.
pub trait CloneContainer<E>: Container<E> {
    /// What a `get_clone` answer means for this realization.
    spec fn get_clone_post(&self, id: Self::I, r: Result<Option<E>, ContainerError>) -> bool;

    /// A copy of the value stored at `id`, if the slot holds one. Read-only.
    fn get_clone(&mut self, id: Self::I) -> (r: Result<Option<E>, ContainerError>)
        requires
            old(self).inv(),
        ensures
            final(self).inv(),
            *final(self) == *old(self),
            old(self).get_clone_post(id, r),
    ;
}

/// A view into a single occupied location.
pub trait OccupiedEntry {
    type Id;

    type Value;

    fn id(&self) -> Self::Id;

    fn get(&self) -> &Self::Value;

    fn update(&mut self, value: Self::Value) -> Self::Value;

    fn remove(self) -> Self::Value;
}

/// A view into a single empty location.
pub trait VacantEntry {
    type Id;

    type Value;

    fn id(&self) -> Self::Id;

    fn insert(self, value: Self::Value);
}

/// A view into a single location.
#[derive(Debug)]
pub enum Entry<O: OccupiedEntry, V: VacantEntry> {
    /// An occupied view.
    Occupied(O),
    /// A vacant view.
    Vacant(V),
}

/// A container that exposes entry views.
pub trait EntryContainer<E>: Container<E> {
    type VacantEntry: VacantEntry<Id = Self::I, Value = E>;

    type OccupiedEntry: OccupiedEntry<Id = Self::I, Value = E>;

    fn entry(&mut self, id: Self::I) -> Result<
        Entry<Self::OccupiedEntry, Self::VacantEntry>,
        ContainerError,
    >;
}

} // verus!
