//! An unbounded lazily loaded index map: every 32-bit index names a cell at
//! `base + index * footprint(T)`; reads populate a cache and a flush writes
//! back only the mutated slots.

use vstd::prelude::*;
use crate::cache::{
    cache_find, lemma_find_index, lemma_find_preserved, lemma_index_find, lemma_untouched_at,
    slot_key_at, untouched_outside, writes_key, EntryCache,
};
use crate::entry::{Entry, EntryState};
use crate::key::{key_space, Key, KeyPtr};
use crate::layout::{packed_dec_at, PackedLayout, SpreadLayout};
use crate::store::CellStore;

verus! {

/// An unbounded index-keyed lazy map over the cell store.
pub struct LazyIndexMap<T> {
    key: Option<Key>,
    cached: EntryCache<T>,
}

impl<T: PackedLayout + SpreadLayout> LazyIndexMap<T> {
    /// Whether the map has a base key in the store.
    pub closed spec fn attached(self) -> bool {
        self.key is Some
    }

    /// The base key's value; meaningful only when attached.
    pub closed spec fn base(self) -> nat {
        self.key.unwrap()@
    }

    /// The entry cached for slot `at`, if any.
    pub closed spec fn cache_at(self, at: u32) -> Option<Entry<T>> {
        self.cached.entry_at(at)
    }

    /// The key value backing slot `at`; meaningful only when attached.
    pub open spec fn slot_key(self, at: u32) -> nat {
        slot_key_at(self.base(), T::footprint_spec(), at)
    }

    /// The cache is sound, and an attached map owns a full range of
    /// `2^32 * footprint(T)` cells inside the key space.
    pub closed spec fn wf(self) -> bool {
        self.cached.wf() && (self.attached() ==> T::footprint_spec() <= 0x1_0000_0000
            && self.base() + 0x1_0000_0000 * T::footprint_spec() <= key_space())
    }

    /// A read of slot `at` can be served against store contents `m`.
    pub open spec fn slot_ok(self, m: Map<nat, Seq<u8>>, at: u32) -> bool {
        match self.cache_at(at) {
            Some(_) => true,
            None => self.attached() && (m.contains_key(self.slot_key(at)) ==> T::dec(
                m[self.slot_key(at)],
            ) is Some),
        }
    }

    /// The value slot `at` logically holds against store contents `m`.
    pub open spec fn slot(self, m: Map<nat, Seq<u8>>, at: u32) -> Option<T> {
        match self.cache_at(at) {
            Some(e) => e.value,
            None => if self.attached() {
                packed_dec_at::<T>(m, self.slot_key(at))
            } else {
                None
            },
        }
    }

    /// No cached slot diverges from the store: a flush writes nothing.
    pub open spec fn clean(self) -> bool {
        forall|i: u32| #![trigger self.cache_at(i)]
            match self.cache_at(i) {
                Some(e) => e.state == EntryState::Preserved,
                None => true,
            }
    }

    /// Some mutated cached slot is backed by the cell at key value `a`,
    /// with slot keys taken from base `k0`.
    pub open spec fn writes_cell_at(self, k0: nat, a: nat) -> bool {
        exists|i: u32| #![trigger self.cache_at(i)]
            self.cache_at(i) matches Some(e) && e.state == EntryState::Mutated && a
                == slot_key_at(k0, T::footprint_spec(), i)
    }

    /// An unattached map with an empty cache; any load attempt fails until
    /// it is pulled from a layout walk.
    pub fn new() -> (r: Self)
        ensures
            !r.attached(),
            r.wf(),
            forall|i: u32| r.cache_at(i) is None,
            r.clean(),
    {
        LazyIndexMap { key: None, cached: EntryCache::new() }
    }

    /// The map's base key, if it is attached.
    pub fn key(&self) -> (r: Option<&Key>)
        ensures
            match r {
                Some(k) => self.attached() && k@ == self.base(),
                None => !self.attached(),
            },
    {
        self.key.as_ref()
    }

    /// A map attached at the given base key with an empty cache.
    pub fn attach_at(key: Key) -> (r: Self)
        requires
            1 <= T::footprint_spec() <= 0x1_0000_0000,
            key@ + 0x1_0000_0000 * T::footprint_spec() <= key_space(),
        ensures
            r.attached(),
            r.base() == key@,
            r.wf(),
            forall|i: u32| r.cache_at(i) is None,
            r.clean(),
    {
        LazyIndexMap { key: Some(key), cached: EntryCache::new() }
    }

    /// The key backing slot `at`, or absence when the map is unattached.
    pub fn key_at(&self, at: u32) -> (r: Option<Key>)
        requires
            self.wf(),
        ensures
            match r {
                Some(k) => self.attached() && k@ == self.slot_key(at),
                None => !self.attached(),
            },
    {
        match &self.key {
            Some(k) => {
                let fpv = T::footprint();
                proof {
                    lemma_slot_offset_in_range::<T>(k@, at);
                }
                Some(k.add_u64((at as u64) * fpv))
            },
            None => None,
        }
    }

    /// Reads slot `at`, loading from the store on a cache miss; the loaded
    /// entry is cached as preserved.
    pub fn get(&mut self, at: u32, store: &CellStore) -> (r: Option<T>) where T: Copy
        requires
            old(self).wf(),
            store.wf(),
            old(self).slot_ok(store@, at),
        ensures
            final(self).wf(),
            final(self).attached() == old(self).attached(),
            old(self).attached() ==> final(self).base() == old(self).base(),
            r == old(self).slot(store@, at),
            final(self).cache_at(at) == match old(self).cache_at(at) {
                Some(e) => Some(e),
                None => Some(Entry { value: r, state: EntryState::Preserved }),
            },
            forall|x: u32| x != at ==> final(self).cache_at(x) == old(self).cache_at(x),
    {
        match self.cached.get_value(at) {
            Some(v) => v,
            None => {
                let key = self.key_at(at).unwrap();
                let value: Option<T> = match store.get(&key) {
                    Some(bytes) => T::decode(bytes.as_slice()),
                    None => None,
                };
                self.cached.append(at, Entry::new(value, EntryState::Preserved));
                value
            },
        }
    }

    /// Borrows the value of slot `at` exclusively, loading from the store on
    /// a cache miss; the slot is conservatively marked mutated.
    pub fn get_mut(&mut self, at: u32, store: &CellStore) -> (r: Option<&mut T>)
        requires
            old(self).wf(),
            store.wf(),
            old(self).slot_ok(store@, at),
        ensures
            final(self).wf(),
            final(self).attached() == old(self).attached(),
            old(self).attached() ==> final(self).base() == old(self).base(),
            forall|x: u32| x != at ==> final(self).cache_at(x) == old(self).cache_at(x),
            match r {
                None => old(self).slot(store@, at) is None && final(self).cache_at(at) == Some(
                    Entry { value: None::<T>, state: EntryState::Mutated },
                ),
                Some(p) => old(self).slot(store@, at) == Some(*p) && final(self).cache_at(at)
                    == Some(Entry { value: Some(*final(p)), state: EntryState::Mutated }),
            },
    {
        if !self.cached.is_cached(at) {
            let key = self.key_at(at).unwrap();
            let value: Option<T> = match store.get(&key) {
                Some(bytes) => T::decode(bytes.as_slice()),
                None => None,
            };
            self.cached.append(at, Entry::new(value, EntryState::Preserved));
        }
        match self.cached.get_entry_mut(at) {
            Some(e) => {
                let vm = e.value_mut();
                vm.as_mut()
            },
            None => vstd::pervasive::unreached(),
        }
    }

    /// Puts a value (or absence) into slot `at`, marking it mutated; the
    /// store is not consulted.
    pub fn put(&mut self, at: u32, new: Option<T>)
        requires
            old(self).wf(),
        ensures
            final(self).wf(),
            final(self).attached() == old(self).attached(),
            old(self).attached() ==> final(self).base() == old(self).base(),
            final(self).cache_at(at) == Some(Entry { value: new, state: EntryState::Mutated }),
            forall|x: u32| x != at ==> final(self).cache_at(x) == old(self).cache_at(x),
    {
        self.cached.put(at, new);
    }

    /// Replaces the value of slot `at` and returns the old one; loads on a
    /// cache miss.
    pub fn put_get(&mut self, at: u32, new: Option<T>, store: &CellStore) -> (r: Option<
        T,
    >) where T: Copy
        requires
            old(self).wf(),
            store.wf(),
            old(self).slot_ok(store@, at),
        ensures
            final(self).wf(),
            final(self).attached() == old(self).attached(),
            old(self).attached() ==> final(self).base() == old(self).base(),
            r == old(self).slot(store@, at),
            final(self).cache_at(at) == Some(Entry { value: new, state: EntryState::Mutated }),
            forall|x: u32| x != at ==> final(self).cache_at(x) == old(self).cache_at(x),
    {
        let r = self.get(at, store);
        self.put(at, new);
        r
    }

    /// Removes and returns the value of slot `at`, leaving absence behind;
    /// loads on a cache miss.
    pub fn take(&mut self, at: u32, store: &CellStore) -> (r: Option<T>) where T: Copy
        requires
            old(self).wf(),
            store.wf(),
            old(self).slot_ok(store@, at),
        ensures
            final(self).wf(),
            final(self).attached() == old(self).attached(),
            old(self).attached() ==> final(self).base() == old(self).base(),
            r == old(self).slot(store@, at),
            final(self).cache_at(at) == Some(
                Entry { value: None::<T>, state: EntryState::Mutated },
            ),
            forall|x: u32| x != at ==> final(self).cache_at(x) == old(self).cache_at(x),
    {
        self.put_get(at, None, store)
    }

    /// Swaps the values of slots `a` and `b`. Equal indices are a no-op;
    /// when both values are absent the swap is elided and no slot is marked
    /// mutated; otherwise both slots are marked mutated.
    pub fn swap(&mut self, a: u32, b: u32, store: &CellStore) where T: Copy
        requires
            old(self).wf(),
            store.wf(),
            a != b ==> old(self).slot_ok(store@, a) && old(self).slot_ok(store@, b),
        ensures
            final(self).wf(),
            final(self).attached() == old(self).attached(),
            old(self).attached() ==> final(self).base() == old(self).base(),
            final(self).slot(store@, a) == old(self).slot(store@, b),
            final(self).slot(store@, b) == old(self).slot(store@, a),
            forall|x: u32|
                x != a && x != b ==> final(self).cache_at(x) == old(self).cache_at(x),
            a == b ==> *final(self) == *old(self),
            a != b && old(self).slot(store@, a) is None && old(self).slot(store@, b) is None
                && old(self).clean() ==> final(self).clean(),
            a != b && !(old(self).slot(store@, a) is None && old(self).slot(store@, b) is None)
                ==> final(self).cache_at(a) == Some(
                Entry { value: old(self).slot(store@, b), state: EntryState::Mutated },
            ) && final(self).cache_at(b) == Some(
                Entry { value: old(self).slot(store@, a), state: EntryState::Mutated },
            ),
    {
        if a == b {
            return ;
        }
        let va = self.get(a, store);
        let vb = self.get(b, store);
        if va.is_none() && vb.is_none() {
            return ;
        }
        self.put(a, vb);
        self.put(b, va);
    }

    /// Records the cursor's key as the map's base and starts with an empty
    /// cache; no store read happens. The map occupies one cell of the walk.
    pub fn pull_spread(ptr: &mut KeyPtr) -> (r: Self)
        requires
            1 <= T::footprint_spec() <= 0x1_0000_0000,
            old(ptr).key@ + 0x1_0000_0000 * T::footprint_spec() <= key_space(),
        ensures
            final(ptr).key@ == old(ptr).key@ + 1,
            r.attached(),
            r.base() == old(ptr).key@,
            r.wf(),
            forall|i: u32| r.cache_at(i) is None,
            r.clean(),
    {
        let key = ptr.key;
        proof {
            assert(0x1_0000_0000 * T::footprint_spec() >= 0x1_0000_0000) by (nonlinear_arith)
                requires
                    T::footprint_spec() >= 1,
            ;
        }
        ptr.advance_by(1);
        LazyIndexMap { key: Some(key), cached: EntryCache::new() }
    }

    /// Flushes the map at the cursor's key: every mutated cached slot writes
    /// or clears its backing cell and becomes preserved; a clean map issues
    /// no write. The map occupies one cell of the walk.
    pub fn push_spread(&mut self, ptr: &mut KeyPtr, store: &mut CellStore)
        requires
            old(self).wf(),
            old(store).wf(),
            1 <= T::footprint_spec() <= 0x1_0000_0000,
            old(ptr).key@ + 0x1_0000_0000 * T::footprint_spec() <= key_space(),
            old(self).attached() ==> old(self).base() == old(ptr).key@,
        ensures
            final(self).wf(),
            final(store).wf(),
            final(ptr).key@ == old(ptr).key@ + 1,
            final(self).attached() == old(self).attached(),
            old(self).attached() ==> final(self).base() == old(self).base(),
            forall|i: u32| #![trigger final(self).cache_at(i)]
                final(self).cache_at(i) == match old(self).cache_at(i) {
                    Some(e) => Some(Entry { value: e.value, state: EntryState::Preserved }),
                    None => None::<Entry<T>>,
                },
            forall|a: nat| #![trigger final(store)@.contains_key(a)]
                !old(self).writes_cell_at(old(ptr).key@, a) ==> (final(store)@.contains_key(a)
                    == old(store)@.contains_key(a) && (old(store)@.contains_key(a)
                    ==> final(store)@[a] == old(store)@[a])),
            forall|i: u32| #![trigger old(self).cache_at(i)]
                old(self).cache_at(i) matches Some(e) && e.state == EntryState::Mutated
                    ==> match old(self).cache_at(i).unwrap().value {
                    Some(v) => final(store)@.contains_key(
                        slot_key_at(old(ptr).key@, T::footprint_spec(), i),
                    ) && final(store)@[slot_key_at(old(ptr).key@, T::footprint_spec(), i)]
                        == v.enc(),
                    None => !final(store)@.contains_key(
                        slot_key_at(old(ptr).key@, T::footprint_spec(), i),
                    ),
                },
            old(self).clean() ==> *final(store) == *old(store),
            old(store).writes() <= final(store).writes(),
    {
        let base = ptr.key;
        proof {
            assert(0x1_0000_0000 * T::footprint_spec() >= 0x1_0000_0000) by (nonlinear_arith)
                requires
                    T::footprint_spec() >= 1,
            ;
        }
        ptr.advance_by(1);
        let fpv = T::footprint();
        let ghost s_old = self.cached.slots_spec();
        let ghost fp = T::footprint_spec();
        let ghost k0 = base@;
        self.cached.flush(&base, fpv, store);
        proof {
            let s_new = self.cached.slots_spec();
            assert forall|i: u32| true implies self.cache_at(i) == (match cache_find(s_old, i) {
                Some(e) => Some(Entry { value: e.value, state: EntryState::Preserved }),
                None => None::<Entry<T>>,
            }) by {
                lemma_find_preserved(s_old, s_new, i);
            }
            assert forall|a: nat| #![trigger store@.contains_key(a)]
                !old(self).writes_cell_at(k0, a) implies (store@.contains_key(a) == old(
            store,
            )@.contains_key(a) && (old(store)@.contains_key(a) ==> store@[a] == old(
            store,
            )@[a])) by {
                assert(!writes_key(s_old, k0, fp, a)) by {
                    if writes_key(s_old, k0, fp, a) {
                        let j = choose|j: int| #![trigger s_old[j]]
                            0 <= j < s_old.len() && s_old[j].1.state == EntryState::Mutated && a
                                == slot_key_at(k0, fp, s_old[j].0);
                        lemma_index_find(s_old, j);
                        assert(old(self).cache_at(s_old[j].0) == Some(s_old[j].1));
                        assert(old(self).writes_cell_at(k0, a));
                    }
                }
                lemma_untouched_at(s_old, k0, fp, old(store)@, store@, a);
            }
            assert forall|i: u32| #![trigger old(self).cache_at(i)]
                old(self).cache_at(i) matches Some(e) && e.state == EntryState::Mutated
                    implies match old(self).cache_at(i).unwrap().value {
                Some(v) => store@.contains_key(slot_key_at(k0, fp, i)) && store@[slot_key_at(
                    k0,
                    fp,
                    i,
                )] == v.enc(),
                None => !store@.contains_key(slot_key_at(k0, fp, i)),
            } by {
                lemma_find_index(s_old, i);
                let e = old(self).cache_at(i).unwrap();
                let j = choose|j: int| 0 <= j < s_old.len() && s_old[j] == (i, e);
                assert(s_old[j].1.state == EntryState::Mutated);
            }
            if old(self).clean() {
                assert forall|j: int| 0 <= j < s_old.len() implies s_old[j].1.state
                    == EntryState::Preserved by {
                    lemma_index_find(s_old, j);
                    assert(old(self).cache_at(s_old[j].0) == Some(s_old[j].1));
                }
            }
        }
    }

    /// A layout walk steps over the map's one reserved cell; the map itself
    /// clears nothing, since it cannot know its full extent. Containers
    /// built on it clear the cells they own.
    pub fn clear_spread(&self, ptr: &mut KeyPtr)
        requires
            old(ptr).key@ + 1 < key_space(),
        ensures
            final(ptr).key@ == old(ptr).key@ + 1,
    {
        ptr.advance_by(1);
    }

    /// Deletes the backing cell of slot `at` from the store; the cache is
    /// not consulted.
    pub fn clear_packed_at(&self, at: u32, store: &mut CellStore)
        requires
            self.wf(),
            self.attached(),
            old(store).wf(),
        ensures
            final(store).wf(),
            final(store)@ == old(store)@.remove(self.slot_key(at)),
            old(store).writes() <= final(store).writes(),
    {
        let k = self.key_at(at).unwrap();
        store.clear(&k);
    }
}

/// Slot offsets stay inside an attached map's owned range.
proof fn lemma_slot_offset_in_range<T: PackedLayout + SpreadLayout>(base: nat, at: u32)
    requires
        1 <= T::footprint_spec(),
        T::footprint_spec() <= 0x1_0000_0000,
        base + 0x1_0000_0000 * T::footprint_spec() <= key_space(),
    ensures
        at as nat * T::footprint_spec() < 0x1_0000_0000_0000_0000,
        base + at as nat * T::footprint_spec() < key_space(),
{
    let fp = T::footprint_spec();
    assert(at as nat * fp <= 0xffff_ffff * fp) by (nonlinear_arith)
        requires
            at as nat <= 0xffff_ffff,
            fp >= 1,
    ;
    assert(0xffff_ffff * fp < 0x1_0000_0000 * fp) by (nonlinear_arith)
        requires
            fp >= 1,
    ;
    assert(0x1_0000_0000 * fp <= 0x1_0000_0000 * 0x1_0000_0000) by (nonlinear_arith)
        requires
            fp <= 0x1_0000_0000,
    ;
}

} // verus!
