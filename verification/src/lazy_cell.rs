//! A single lazily loaded cell: reads hit the store only on the first
//! access, and a flush writes only when the cached value has diverged.

use vstd::prelude::*;
use crate::entry::{Entry, EntryState};
use crate::key::{key_space, Key, KeyPtr};
use crate::layout::{packed_dec_at, PackedLayout, SpreadLayout};
use crate::store::CellStore;

verus! {

/// One lazily loaded cell. Unattached (no key) until pulled from a layout
/// walk; the cache holds the value once it is read or written.
pub struct LazyCell<T> {
    key: Option<Key>,
    cache: Option<Entry<T>>,
}

impl<T: PackedLayout + SpreadLayout> LazyCell<T> {
    /// Whether the cell has a backing key in the store.
    pub closed spec fn attached(self) -> bool {
        self.key is Some
    }

    /// The backing key's value; meaningful only when attached.
    pub closed spec fn base(self) -> nat {
        self.key.unwrap()@
    }

    /// The cached entry, if the cell has been read or written.
    pub closed spec fn cached(self) -> Option<Entry<T>> {
        self.cache
    }

    /// An attached cell leaves room for its footprint below the top of the
    /// key space.
    pub open spec fn wf(self) -> bool {
        self.attached() ==> self.base() + T::footprint_spec() < key_space()
    }

    /// The value the cell logically holds against store contents `m`.
    pub open spec fn value_spec(self, m: Map<nat, Seq<u8>>) -> Option<T> {
        match self.cached() {
            Some(e) => e.value,
            None => if self.attached() {
                packed_dec_at::<T>(m, self.base())
            } else {
                None
            },
        }
    }

    /// A read can be served: the value is cached, or the backing cell is
    /// absent or decodes.
    pub open spec fn readable(self, m: Map<nat, Seq<u8>>) -> bool {
        match self.cached() {
            Some(_) => true,
            None => self.attached() && (m.contains_key(self.base()) ==> T::dec(m[self.base()])
                is Some),
        }
    }

    /// The cache does not diverge from the store: a flush writes nothing.
    pub open spec fn clean(self) -> bool {
        match self.cached() {
            Some(e) => e.state == EntryState::Preserved,
            None => true,
        }
    }

    /// An unattached cell holding the given value, marked mutated so that a
    /// later flush writes it.
    pub fn new(value: T) -> (r: Self)
        ensures
            !r.attached(),
            r.cached() == Some(Entry { value: Some(value), state: EntryState::Mutated }),
            r.wf(),
    {
        LazyCell { key: None, cache: Some(Entry::new(Some(value), EntryState::Mutated)) }
    }

    /// Reads the value, loading it from the store on a cache miss.
    pub fn get(&mut self, store: &CellStore) -> (r: T) where T: Copy
        requires
            old(self).wf(),
            store.wf(),
            old(self).readable(store@),
            old(self).value_spec(store@) is Some,
        ensures
            final(self).wf(),
            Some(r) == old(self).value_spec(store@),
            final(self).attached() == old(self).attached(),
            old(self).attached() ==> final(self).base() == old(self).base(),
            final(self).cached() == match old(self).cached() {
                Some(e) => Some(e),
                None => Some(
                    Entry { value: old(self).value_spec(store@), state: EntryState::Preserved },
                ),
            },
    {
        if self.cache.is_none() {
            let key = self.key.unwrap();
            let value: Option<T> = match store.get(&key) {
                Some(bytes) => T::decode(bytes.as_slice()),
                None => None,
            };
            self.cache = Some(Entry::new(value, EntryState::Preserved));
        }
        match &self.cache {
            Some(e) => match &e.value {
                Some(v) => *v,
                None => vstd::pervasive::unreached(),
            },
            None => vstd::pervasive::unreached(),
        }
    }

    /// Writes a value into the cache and marks it mutated; no store access.
    pub fn set(&mut self, value: T)
        ensures
            final(self).attached() == old(self).attached(),
            old(self).attached() ==> final(self).base() == old(self).base(),
            final(self).cached() == Some(Entry { value: Some(value), state: EntryState::Mutated }),
            old(self).wf() ==> final(self).wf(),
    {
        self.cache = Some(Entry::new(Some(value), EntryState::Mutated));
    }

    /// Records the cursor's key as the backing cell and starts with an empty
    /// cache; no store read happens. Advances the cursor by the footprint.
    pub fn pull_spread(ptr: &mut KeyPtr) -> (r: Self)
        requires
            T::footprint_spec() <= 0x1_0000_0000,
            old(ptr).key@ + T::footprint_spec() < key_space(),
        ensures
            final(ptr).key@ == old(ptr).key@ + T::footprint_spec(),
            r.attached(),
            r.base() == old(ptr).key@,
            r.cached() is None,
            r.wf(),
            r.clean(),
    {
        let key = ptr.key;
        ptr.advance_by(T::footprint());
        LazyCell { key: Some(key), cache: None }
    }

    /// Flushes the cell at the cursor's key: a mutated cache writes its
    /// value or clears the cell; a clean cell issues no write. Advances the
    /// cursor by the footprint.
    pub fn push_spread(&mut self, ptr: &mut KeyPtr, store: &mut CellStore)
        requires
            old(self).wf(),
            old(store).wf(),
            T::footprint_spec() <= 0x1_0000_0000,
            old(ptr).key@ + T::footprint_spec() < key_space(),
            old(self).attached() ==> old(self).base() == old(ptr).key@,
        ensures
            final(store).wf(),
            final(ptr).key@ == old(ptr).key@ + T::footprint_spec(),
            final(self).wf(),
            final(self).attached() == old(self).attached(),
            old(self).attached() ==> final(self).base() == old(self).base(),
            final(self).cached() == match old(self).cached() {
                Some(e) => Some(Entry { value: e.value, state: EntryState::Preserved }),
                None => None::<Entry<T>>,
            },
            old(self).clean() ==> *final(store) == *old(store),
            !old(self).clean() ==> match old(self).cached().unwrap().value {
                Some(v) => final(store)@ == old(store)@.insert(old(ptr).key@, v.enc()),
                None => final(store)@ == old(store)@.remove(old(ptr).key@),
            },
            old(store).writes() <= final(store).writes(),
    {
        let k = ptr.key;
        ptr.advance_by(T::footprint());
        match &mut self.cache {
            Some(e) => {
                e.push_packed_root(&k, store);
            },
            None => {},
        }
    }

    /// Deletes the backing cell at the cursor's key and advances the cursor
    /// by the footprint. The cache is not consulted.
    pub fn clear_spread(&self, ptr: &mut KeyPtr, store: &mut CellStore)
        requires
            old(store).wf(),
            T::footprint_spec() <= 0x1_0000_0000,
            old(ptr).key@ + T::footprint_spec() < key_space(),
        ensures
            final(store).wf(),
            final(ptr).key@ == old(ptr).key@ + T::footprint_spec(),
            final(store)@ == old(store)@.remove(old(ptr).key@),
            old(store).writes() <= final(store).writes(),
    {
        let k = ptr.key;
        ptr.advance_by(T::footprint());
        store.clear(&k);
    }
}

} // verus!
