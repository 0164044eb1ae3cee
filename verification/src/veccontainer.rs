//! The in-memory realization of the container protocol: one tagged slot per
//! id in a dense vector, plus a stack of freed ids for recycling.

use vstd::prelude::*;

use crate::container::CloneContainer;
use crate::container::Container;
use crate::error::ContainerError;

verus! {

/// The identifier type of the in-memory container.
pub type Id = usize;

/// The lifecycle state of one slot.
#[derive(Debug)]
pub enum Slot<E> {
    /// No id points here.
    Free,
    /// Allocated, but holding no value yet.
    Reserved,
    /// Allocated and holding a value.
    Occupied(E),
}

/// A vector-backed container: slot `id` of the vector is the record at
/// identifier `id`, and the free list recycles released identifiers,
/// most recently released first.
#[derive(Debug)]
pub struct VecContainer<E> {
    vec: Vec<Slot<E>>,
    free_list: Vec<Id>,
}

impl<E> VecContainer<E> {
    /// The slots, indexed by id.
    pub closed spec fn slots(self) -> Seq<Slot<E>> {
        self.vec@
    }

    /// The freed ids awaiting recycling, most recent last.
    pub closed spec fn free_ids(self) -> Seq<Id> {
        self.free_list@
    }

    /// Whether `id` is at least reserved.
    pub open spec fn slot_live(self, id: int) -> bool {
        0 <= id < self.slots().len() && !(self.slots()[id] is Free)
    }

    /// The free list only names distinct, in-range, genuinely free slots.
    pub open spec fn wf(self) -> bool {
        &&& forall|k: int|
            0 <= k < self.free_ids().len() ==> (#[trigger] self.free_ids()[k] as int)
                < self.slots().len() && self.slots()[self.free_ids()[k] as int] is Free
        &&& forall|k1: int, k2: int|
            0 <= k1 < k2 < self.free_ids().len() ==> self.free_ids()[k1] != self.free_ids()[k2]
    }

    /// An empty container with room already set aside for `capacity` slots.
    pub fn with_capacity(capacity: usize) -> (r: Self)
        ensures
            r.wf(),
            r.slots().len() == 0,
            r.free_ids().len() == 0,
    {
        VecContainer { vec: Vec::with_capacity(capacity), free_list: Vec::new() }
    }

    /// An empty container.
    pub fn new() -> (r: Self)
        ensures
            r.wf(),
            r.slots().len() == 0,
            r.free_ids().len() == 0,
    {
        VecContainer { vec: Vec::new(), free_list: Vec::new() }
    }

    /// How many slots the vector can hold before it reallocates.
    pub fn capacity(&self) -> (r: usize)
        ensures
            r >= self.slots().len(),
    {
        vec_capacity(&self.vec)
    }

    /// Whether `id` is at least reserved.
    pub fn contains_element(&self, id: Id) -> (r: bool)
        ensures
            r == self.slot_live(id as int),
    {
        if id < self.vec.len() {
            match &self.vec[id] {
                Slot::Occupied(_) => true,
                Slot::Reserved => true,
                Slot::Free => false,
            }
        } else {
            false
        }
    }

    /// A reference to the value stored at `id`, if the slot holds one.
    pub fn get(&self, id: Id) -> (r: Option<&E>)
        ensures
            (r is Some) == (id < self.slots().len() && self.slots()[id as int] is Occupied),
            r matches Some(e) ==> self.slots()[id as int] == Slot::Occupied(*e),
    {
        if id < self.vec.len() {
            match &self.vec[id] {
                Slot::Occupied(element) => Some(element),
                _ => None,
            }
        } else {
            None
        }
    }

    /// A mutable reference to the value stored at `id`, if the slot holds
    /// one.
    pub fn get_mut(&mut self, id: Id) -> (r: Option<&mut E>)
        ensures
            (r is Some) == (id < old(self).slots().len() && old(self).slots()[id as int]
                is Occupied),
            r matches Some(e) ==> old(self).slots()[id as int] == Slot::Occupied(*e)
                && final(self).slots() == old(self).slots().update(
                id as int,
                Slot::Occupied(*final(e)),
            ) && final(self).free_ids() == old(self).free_ids(),
            r is None ==> *final(self) == *old(self),
    {
        if id < self.vec.len() {
            let occupied = match &self.vec[id] {
                Slot::Occupied(_) => true,
                _ => false,
            };
            if occupied {
                match &mut self.vec[id] {
                    Slot::Occupied(element) => Some(element),
                    _ => None,  // the slot was just seen to be occupied
                }
            } else {
                None
            }
        } else {
            None
        }
    }

    /// How many freed ids await recycling.
    pub fn free_slots(&self) -> (r: usize)
        ensures
            r == self.free_ids().len(),
    {
        self.free_list.len()
    }
}

/// Relies on `Vec::capacity`: the allocated capacity is never below the
/// length.
#[verifier::external_body]
fn vec_capacity<T>(v: &Vec<T>) -> (r: usize)
    ensures
        r >= v@.len(),
{
    v.capacity()
}

impl<E> Container<E> for VecContainer<E> {
    type I = Id;

    open spec fn inv(&self) -> bool {
        self.wf()
    }

    open spec fn can_reserve(&self) -> bool {
        self.free_ids().len() == 0 ==> self.slots().len() < usize::MAX
    }

    open spec fn can_update(&self, id: Id) -> bool {
        true
    }

    open spec fn can_remove(&self) -> bool {
        self.free_ids().len() < usize::MAX
    }

    open spec fn can_insert(&self, element: &E) -> bool {
        self.can_reserve()
    }

    open spec fn reserve_post(pre: Self, post: Self, r: Result<Id, ContainerError>) -> bool {
        if pre.free_ids().len() > 0 {
            &&& r == Ok::<Id, ContainerError>(pre.free_ids().last())
            &&& post.slots() == pre.slots().update(
                pre.free_ids().last() as int,
                Slot::<E>::Reserved,
            )
            &&& post.free_ids() == pre.free_ids().drop_last()
        } else {
            &&& r == Ok::<Id, ContainerError>(pre.slots().len() as usize)
            &&& post.slots() == pre.slots().push(Slot::<E>::Reserved)
            &&& post.free_ids() == pre.free_ids()
        }
    }

    open spec fn insert_post(pre: Self, post: Self, element: E, r: Result<Id, ContainerError>) -> bool {
        if pre.free_ids().len() > 0 {
            &&& r == Ok::<Id, ContainerError>(pre.free_ids().last())
            &&& post.slots() == pre.slots().update(
                pre.free_ids().last() as int,
                Slot::Occupied(element),
            )
            &&& post.free_ids() == pre.free_ids().drop_last()
        } else {
            &&& r == Ok::<Id, ContainerError>(pre.slots().len() as usize)
            &&& post.slots() == pre.slots().push(Slot::Occupied(element))
            &&& post.free_ids() == pre.free_ids()
        }
    }

    open spec fn update_post(
        pre: Self,
        post: Self,
        id: Id,
        element: E,
        r: Result<Option<E>, ContainerError>,
    ) -> bool {
        if pre.slot_live(id as int) {
            &&& post.slots() == pre.slots().update(id as int, Slot::Occupied(element))
            &&& post.free_ids() == pre.free_ids()
            &&& r == Ok::<Option<E>, ContainerError>(
                match pre.slots()[id as int] {
                    Slot::Occupied(e) => Some(e),
                    _ => None,
                },
            )
        } else {
            &&& post == pre
            &&& r == Err::<Option<E>, ContainerError>(ContainerError::InvalidId)
        }
    }

    open spec fn remove_post(pre: Self, post: Self, id: Id, r: Result<Option<E>, ContainerError>) -> bool {
        if pre.slot_live(id as int) {
            &&& post.slots() == pre.slots().update(id as int, Slot::<E>::Free)
            &&& post.free_ids() == pre.free_ids().push(id)
            &&& r == Ok::<Option<E>, ContainerError>(
                match pre.slots()[id as int] {
                    Slot::Occupied(e) => Some(e),
                    _ => None,
                },
            )
        } else {
            &&& post == pre
            &&& r == Err::<Option<E>, ContainerError>(ContainerError::InvalidId)
        }
    }

    open spec fn clear_post(pre: Self, post: Self) -> bool {
        post.slots().len() == 0 && post.free_ids().len() == 0
    }

    open spec fn contains_post(&self, id: Id, r: bool) -> bool {
        r == self.slot_live(id as int)
    }

    open spec fn ids_post(&self, r: Seq<Id>) -> bool {
        &&& forall|i: int| 0 <= i < r.len() ==> self.slot_live(#[trigger] r[i] as int)
        &&& forall|id: int| self.slot_live(id) ==> r.contains(id as usize)
        &&& forall|i: int, j: int| 0 <= i < j < r.len() ==> r[i] < r[j]
    }

    fn reserve(&mut self) -> (r: Result<Id, ContainerError>) {
        match self.free_list.pop() {
            Some(free_id) => {
                // the invariant keeps every stacked id in range and free
                self.vec[free_id] = Slot::Reserved;
                Ok(free_id)
            },
            None => {
                self.vec.push(Slot::Reserved);
                Ok(self.vec.len() - 1)
            },
        }
    }

    fn insert(&mut self, element: E) -> (r: Result<Id, ContainerError>) {
        match self.free_list.pop() {
            Some(free_id) => {
                self.vec[free_id] = Slot::Occupied(element);
                Ok(free_id)
            },
            None => {
                self.vec.push(Slot::Occupied(element));
                Ok(self.vec.len() - 1)
            },
        }
    }

    fn update(&mut self, id: Id, new_element: E) -> (r: Result<Option<E>, ContainerError>) {
        if id >= self.vec.len() {
            return Err(ContainerError::InvalidId);
        }
        let is_free = match &self.vec[id] {
            Slot::Free => true,
            _ => false,
        };
        if is_free {
            return Err(ContainerError::InvalidId);
        }
        let mut temp = Slot::Occupied(new_element);
        core::mem::swap(&mut self.vec[id], &mut temp);
        match temp {
            Slot::Reserved => Ok(None),
            Slot::Occupied(element) => Ok(Some(element)),
            Slot::Free => Err(ContainerError::InvalidId),
        }
    }

    fn remove(&mut self, id: Id) -> (r: Result<Option<E>, ContainerError>) {
        if id >= self.vec.len() {
            return Err(ContainerError::InvalidId);
        }
        let is_free = match &self.vec[id] {
            Slot::Free => true,
            _ => false,
        };
        if is_free {
            return Err(ContainerError::InvalidId);
        }
        let mut temp = Slot::Free;
        core::mem::swap(&mut self.vec[id], &mut temp);
        self.free_list.push(id);
        proof {
            assert forall|k1: int, k2: int|
                0 <= k1 < k2 < self.free_ids().len() implies self.free_ids()[k1]
                != self.free_ids()[k2] by {
                if k2 == self.free_ids().len() - 1 {
                    assert(old(self).slots()[old(self).free_ids()[k1] as int] is Free);
                }
            }
        }
        match temp {
            Slot::Reserved => Ok(None),
            Slot::Occupied(element) => Ok(Some(element)),
            Slot::Free => Err(ContainerError::InvalidId),
        }
    }

    fn contains(&mut self, id: Id) -> (r: Result<bool, ContainerError>) {
        Ok(self.contains_element(id))
    }

    fn ids(&self) -> (r: Vec<Id>) {
        let mut out: Vec<Id> = Vec::new();
        let mut id: usize = 0;
        let n = self.vec.len();
        while id < n
            invariant
                id <= n,
                n == self.slots().len(),
                forall|i: int| 0 <= i < out@.len() ==> self.slot_live(#[trigger] out@[i] as int),
                forall|b: int| 0 <= b < id && self.slot_live(b) ==> out@.contains(b as usize),
                forall|i: int, j: int| 0 <= i < j < out@.len() ==> out@[i] < out@[j],
                forall|i: int| 0 <= i < out@.len() ==> out@[i] < id,
            decreases n - id,
        {
            if self.contains_element(id) {
                let ghost out0 = out@;
                out.push(id);
                proof {
                    assert forall|b: int| 0 <= b < id + 1 && self.slot_live(b) implies
                        out@.contains(b as usize) by {
                        if b < id {
                            let i = choose|i: int| 0 <= i < out0.len() && out0[i] == b as usize;
                            assert(out@[i] == b as usize);
                        } else {
                            assert(out@[out@.len() - 1] == b as usize);
                        }
                    }
                }
            }
            id += 1;
        }
        out
    }

    fn clear(&mut self) -> (r: Result<(), ContainerError>) {
        self.vec.clear();
        self.free_list.clear();
        Ok(())
    }
}

impl<E: Clone> CloneContainer<E> for VecContainer<E> {
    open spec fn get_clone_post(&self, id: Id, r: Result<Option<E>, ContainerError>) -> bool {
        &&& (r is Ok)
        &&& (r matches Ok(o) ==> ((o is Some) == (id < self.slots().len()
            && self.slots()[id as int] is Occupied)))
        &&& (r matches Ok(Some(e)) ==> self.slots()[id as int] matches Slot::Occupied(v)
            && vstd::pervasive::cloned(v, e))
    }

    fn get_clone(&mut self, id: Id) -> (r: Result<Option<E>, ContainerError>) {
        match self.get(id) {
            Some(element) => {
                let out = element.clone();
                proof {
                    assert(vstd::pervasive::cloned(*element, out));
                }
                Ok(Some(out))
            },
            None => Ok(None),
        }
    }
}

} // verus!
