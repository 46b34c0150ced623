//! One cached slot of a lazy primitive: a value (or its absence) together
//! with the state that says whether it diverges from the backing cell.

use vstd::prelude::*;
use crate::key::Key;
use crate::layout::PackedLayout;
use crate::store::CellStore;

verus! {

/// Whether a cached entry agrees with the backing cell (`Preserved`) or has
/// diverged from it and must be flushed (`Mutated`).
#[derive(Clone, Copy, PartialEq, Eq, Structural, Debug)]
pub enum EntryState {
    Preserved,
    Mutated,
}

/// One cached slot: the value the slot holds, if any, and its state.
#[derive(Debug)]
pub struct Entry<T> {
    pub value: Option<T>,
    pub state: EntryState,
}

impl<T> Entry<T> {
    /// A fresh entry with the given value and state.
    pub fn new(value: Option<T>, state: EntryState) -> (r: Entry<T>)
        ensures
            r.value == value,
            r.state == state,
    {
        Entry { value, state }
    }

    /// Whether this entry must be flushed.
    pub fn is_mutated(&self) -> (r: bool)
        ensures
            r == (self.state == EntryState::Mutated),
    {
        match self.state {
            EntryState::Mutated => true,
            EntryState::Preserved => false,
        }
    }

    /// Replaces the state and returns the old one; the value is untouched.
    pub fn replace_state(&mut self, new: EntryState) -> (r: EntryState)
        ensures
            r == old(self).state,
            final(self).state == new,
            final(self).value == old(self).value,
    {
        let r = self.state;
        self.state = new;
        r
    }

    /// Sets the state; the value is untouched.
    pub fn set_state(&mut self, new: EntryState)
        ensures
            final(self).state == new,
            final(self).value == old(self).value,
    {
        self.state = new;
    }

    /// Puts a new value into the entry, marks it mutated, and returns the
    /// old value if any.
    pub fn put(&mut self, new: Option<T>) -> (r: Option<T>)
        ensures
            r == old(self).value,
            final(self).value == new,
            final(self).state == EntryState::Mutated,
    {
        self.state = EntryState::Mutated;
        let r = self.value.take();
        self.value = new;
        r
    }

    /// Clears the entry to absence, marks it mutated, and returns the old
    /// value if any.
    pub fn take_value(&mut self) -> (r: Option<T>)
        ensures
            r == old(self).value,
            final(self).value is None,
            final(self).state == EntryState::Mutated,
    {
        self.state = EntryState::Mutated;
        self.value.take()
    }

    /// Borrows the held value.
    pub fn value(&self) -> (r: &Option<T>)
        ensures
            r == &self.value,
    {
        &self.value
    }

    /// Borrows the held value exclusively and conservatively marks the entry
    /// mutated.
    pub fn value_mut(&mut self) -> (r: &mut Option<T>)
        ensures
            *r == old(self).value,
            final(self).value == *final(r),
            final(self).state == EntryState::Mutated,
    {
        self.state = EntryState::Mutated;
        &mut self.value
    }
}

impl<T: PackedLayout> Entry<T> {
    /// Flushes the entry to the cell at `at`: a mutated entry writes its
    /// value (or clears the cell on absence) and becomes preserved; a
    /// preserved entry issues no write at all.
    pub fn push_packed_root(&mut self, at: &Key, store: &mut CellStore)
        requires
            old(store).wf(),
        ensures
            final(store).wf(),
            final(self).value == old(self).value,
            final(self).state == EntryState::Preserved,
            old(self).state == EntryState::Preserved ==> *final(store) == *old(store),
            old(self).state == EntryState::Mutated ==> match old(self).value {
                Some(v) => final(store)@ == old(store)@.insert(at@, v.enc()),
                None => final(store)@ == old(store)@.remove(at@),
            },
            old(store).writes() <= final(store).writes(),
    {
        if self.is_mutated() {
            match &self.value {
                Some(v) => {
                    store.set(at, v.encode());
                },
                None => {
                    store.clear(at);
                },
            }
            self.state = EntryState::Preserved;
        }
    }
}

} // verus!
