//! A generic insert-only indexed store with typed, copyable handles.
//!
//! Handles are plain indices into the store that produced them; using a
//! handle against another store is a contract violation, excluded by the
//! `requires` clauses below.

use vstd::prelude::*;

verus! {

/// A typed handle into an [`Arena<T>`], abstracted as the index it holds.
pub struct Id<T> {
    id: usize,
    marker: core::marker::PhantomData<T>,
}

impl<T> View for Id<T> {
    type V = int;

    closed spec fn view(&self) -> int {
        self.id as int
    }
}

impl<T> Clone for Id<T> {
    fn clone(&self) -> (r: Self)
        ensures
            r@ == self@,
    {
        Id { id: self.id, marker: core::marker::PhantomData }
    }
}

impl<T> Copy for Id<T> {

}

/// An insert-only arena, abstracted as the sequence of values inserted so
/// far; a handle is valid iff its index is below that sequence's length.
pub struct Arena<T> {
    items: Vec<T>,
}

impl<T> View for Arena<T> {
    type V = Seq<T>;

    closed spec fn view(&self) -> Seq<T> {
        self.items@
    }
}

impl<T> Arena<T> {
    /// An arena holding no values.
    pub fn new() -> (a: Arena<T>)
        ensures
            a@ == Seq::<T>::empty(),
    {
        Arena { items: Vec::new() }
    }

    /// Appends a value and returns a handle to it; the handle's index is the
    /// number of values inserted before it.
    pub fn insert(&mut self, t: T) -> (id: Id<T>)
        ensures
            final(self)@ == old(self)@.push(t),
            id@ == old(self)@.len(),
    {
        let id = self.items.len();
        self.items.push(t);
        Id { id, marker: core::marker::PhantomData }
    }

    /// Borrows the value a handle denotes. A handle from another store may
    /// be out of range; such use is excluded by the precondition.
    pub fn get(&self, id: Id<T>) -> (r: &T)
        requires
            0 <= id@ < self@.len(),
        ensures
            *r == self@[id@],
    {
        vstd::std_specs::vec::vec_index(&self.items, id.id)
    }

    /// Mutably borrows the value a handle denotes.
    pub fn get_mut(&mut self, id: Id<T>) -> (r: &mut T)
        requires
            0 <= id@ < old(self)@.len(),
        ensures
            *r == old(self)@[id@],
            final(self)@ == old(self)@.update(id@, *final(r)),
    {
        vstd::std_specs::vec::vec_index_mut(&mut self.items, id.id)
    }
}

} // verus!
