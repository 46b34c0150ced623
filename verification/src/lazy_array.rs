//! A lazy storage array spanning a compile-time number of cells: the bounded
//! counterpart of the lazy index map, with out-of-range indices rejected
//! outright.

use vstd::prelude::*;
use crate::cache::slot_key_at;
use crate::entry::{Entry, EntryState};
use crate::key::{key_space, Key, KeyPtr};
use crate::layout::{PackedLayout, SpreadLayout};
use crate::lazy_map::LazyIndexMap;
use crate::store::CellStore;

verus! {

/// A lazy array of `N` slots over the cell store. It behaves as the lazy
/// index map does, except that its capacity is fixed at compile time and
/// every index at or beyond `N` is rejected by contract.
pub struct LazyArray<T, const N: u32> {
    /// The bounded slots, stored as an index map constrained to `[0, N)`.
    pub entries: LazyIndexMap<T>,
}

impl<T: PackedLayout + SpreadLayout, const N: u32> LazyArray<T, N> {
    /// Whether the array has a base key in the store.
    pub open spec fn attached(self) -> bool {
        self.entries.attached()
    }

    /// The base key's value; meaningful only when attached.
    pub open spec fn base(self) -> nat {
        self.entries.base()
    }

    /// The entry cached for slot `at`, if any.
    pub open spec fn cache_at(self, at: u32) -> Option<Entry<T>> {
        self.entries.cache_at(at)
    }

    /// The cache and the owned key range are sound.
    pub open spec fn wf(self) -> bool {
        self.entries.wf()
    }

    /// A read of slot `at` can be served against store contents `m`.
    pub open spec fn slot_ok(self, m: Map<nat, Seq<u8>>, at: u32) -> bool {
        self.entries.slot_ok(m, at)
    }

    /// The value slot `at` logically holds against store contents `m`.
    pub open spec fn slot(self, m: Map<nat, Seq<u8>>, at: u32) -> Option<T> {
        self.entries.slot(m, at)
    }

    /// No cached slot diverges from the store: a flush writes nothing.
    pub open spec fn clean(self) -> bool {
        self.entries.clean()
    }

    /// Some mutated cached slot is backed by the cell at key value `a`,
    /// with slot keys taken from base `k0`.
    pub open spec fn writes_cell_at(self, k0: nat, a: nat) -> bool {
        self.entries.writes_cell_at(k0, a)
    }

    /// Outside the cells backing the array's mutated cached slots, store
    /// contents `m1` agree with `m0`: preserved and uncached slots cause no
    /// host access.
    pub open spec fn flush_untouched(
        self,
        k0: nat,
        m0: Map<nat, Seq<u8>>,
        m1: Map<nat, Seq<u8>>,
    ) -> bool {
        forall|a: nat| #![trigger m1.contains_key(a)]
            !self.writes_cell_at(k0, a) ==> (m1.contains_key(a) == m0.contains_key(a) && (
            m0.contains_key(a) ==> m1[a] == m0[a]))
    }

    /// An unattached array with all entries absent; any load attempt fails
    /// until it is pulled from a layout walk.
    pub fn new() -> (r: Self)
        ensures
            !r.attached(),
            r.wf(),
            forall|i: u32| r.cache_at(i) is None,
            r.clean(),
    {
        LazyArray { entries: LazyIndexMap::new() }
    }

    /// The constant capacity of the array.
    pub fn capacity() -> (r: u32)
        ensures
            r == N,
    {
        N
    }

    /// The array's base key, if it is attached.
    pub fn key(&self) -> (r: Option<&Key>)
        ensures
            match r {
                Some(k) => self.attached() && k@ == self.base(),
                None => !self.attached(),
            },
    {
        self.entries.key()
    }

    /// The key backing slot `at`: absent when `at` is out of range or the
    /// array is unattached.
    pub fn key_at(&self, at: u32) -> (r: Option<Key>)
        requires
            self.wf(),
        ensures
            match r {
                Some(k) => at < N && self.attached() && k@ == self.entries.slot_key(at),
                None => at >= N || !self.attached(),
            },
    {
        if at >= N {
            return None;
        }
        self.entries.key_at(at)
    }

    /// Reads slot `at`, loading from the store on a cache miss; out-of-range
    /// indices are excluded by contract.
    pub fn get(&mut self, at: u32, store: &CellStore) -> (r: Option<T>) where T: Copy
        requires
            old(self).wf(),
            store.wf(),
            at < N,
            old(self).slot_ok(store@, at),
        ensures
            final(self).wf(),
            final(self).attached() == old(self).attached(),
            old(self).attached() ==> final(self).base() == old(self).base(),
            r == old(self).slot(store@, at),
            final(self).cache_at(at) == match old(self).cache_at(at) {
                Some(e) => Some(e),
                None => Some(Entry { value: r, state: EntryState::Preserved }),
            },
            forall|x: u32| x != at ==> final(self).cache_at(x) == old(self).cache_at(x),
    {
        self.entries.get(at, store)
    }

    /// Borrows the value of slot `at` exclusively, loading from the store on
    /// a cache miss; the slot is conservatively marked mutated.
    pub fn get_mut(&mut self, at: u32, store: &CellStore) -> (r: Option<&mut T>)
        requires
            old(self).wf(),
            store.wf(),
            at < N,
            old(self).slot_ok(store@, at),
        ensures
            final(self).wf(),
            final(self).attached() == old(self).attached(),
            old(self).attached() ==> final(self).base() == old(self).base(),
            forall|x: u32| x != at ==> final(self).cache_at(x) == old(self).cache_at(x),
            match r {
                None => old(self).slot(store@, at) is None && final(self).cache_at(at) == Some(
                    Entry { value: None::<T>, state: EntryState::Mutated },
                ),
                Some(p) => old(self).slot(store@, at) == Some(*p) && final(self).cache_at(at)
                    == Some(Entry { value: Some(*final(p)), state: EntryState::Mutated }),
            },
    {
        self.entries.get_mut(at, store)
    }

    /// Puts a value (or absence) into slot `at`, marking it mutated.
    pub fn put(&mut self, at: u32, new: Option<T>)
        requires
            old(self).wf(),
            at < N,
        ensures
            final(self).wf(),
            final(self).attached() == old(self).attached(),
            old(self).attached() ==> final(self).base() == old(self).base(),
            final(self).cache_at(at) == Some(Entry { value: new, state: EntryState::Mutated }),
            forall|x: u32| x != at ==> final(self).cache_at(x) == old(self).cache_at(x),
    {
        self.entries.put(at, new);
    }

    /// Replaces the value of slot `at` and returns the old one.
    pub fn put_get(&mut self, at: u32, new: Option<T>, store: &CellStore) -> (r: Option<
        T,
    >) where T: Copy
        requires
            old(self).wf(),
            store.wf(),
            at < N,
            old(self).slot_ok(store@, at),
        ensures
            final(self).wf(),
            final(self).attached() == old(self).attached(),
            old(self).attached() ==> final(self).base() == old(self).base(),
            r == old(self).slot(store@, at),
            final(self).cache_at(at) == Some(Entry { value: new, state: EntryState::Mutated }),
            forall|x: u32| x != at ==> final(self).cache_at(x) == old(self).cache_at(x),
    {
        self.entries.put_get(at, new, store)
    }

    /// Removes and returns the value of slot `at`, leaving absence behind.
    pub fn take(&mut self, at: u32, store: &CellStore) -> (r: Option<T>) where T: Copy
        requires
            old(self).wf(),
            store.wf(),
            at < N,
            old(self).slot_ok(store@, at),
        ensures
            final(self).wf(),
            final(self).attached() == old(self).attached(),
            old(self).attached() ==> final(self).base() == old(self).base(),
            r == old(self).slot(store@, at),
            final(self).cache_at(at) == Some(
                Entry { value: None::<T>, state: EntryState::Mutated },
            ),
            forall|x: u32| x != at ==> final(self).cache_at(x) == old(self).cache_at(x),
    {
        self.entries.take(at, store)
    }

    /// Swaps the values of slots `a` and `b`; out-of-range indices are
    /// excluded by contract. Equal indices are a no-op, and when both values
    /// are absent the swap is elided without marking anything mutated.
    pub fn swap(&mut self, a: u32, b: u32, store: &CellStore) where T: Copy
        requires
            old(self).wf(),
            store.wf(),
            a < N,
            b < N,
            a != b ==> old(self).slot_ok(store@, a) && old(self).slot_ok(store@, b),
        ensures
            final(self).wf(),
            final(self).attached() == old(self).attached(),
            old(self).attached() ==> final(self).base() == old(self).base(),
            final(self).slot(store@, a) == old(self).slot(store@, b),
            final(self).slot(store@, b) == old(self).slot(store@, a),
            forall|x: u32|
                x != a && x != b ==> final(self).cache_at(x) == old(self).cache_at(x),
            a == b ==> *final(self) == *old(self),
            a != b && old(self).slot(store@, a) is None && old(self).slot(store@, b) is None
                && old(self).clean() ==> final(self).clean(),
            a != b && !(old(self).slot(store@, a) is None && old(self).slot(store@, b) is None)
                ==> final(self).cache_at(a) == Some(
                Entry { value: old(self).slot(store@, b), state: EntryState::Mutated },
            ) && final(self).cache_at(b) == Some(
                Entry { value: old(self).slot(store@, a), state: EntryState::Mutated },
            ),
    {
        self.entries.swap(a, b, store);
    }

    /// Records the cursor's key as the array's base and starts with an empty
    /// cache; no store read happens. Advances the cursor by the array's
    /// footprint of `N` cells.
    pub fn pull_spread(ptr: &mut KeyPtr) -> (r: Self)
        requires
            1 <= T::footprint_spec() <= 0x1_0000_0000,
            old(ptr).key@ + 0x1_0000_0000 * T::footprint_spec() <= key_space(),
        ensures
            final(ptr).key@ == old(ptr).key@ + N,
            r.attached(),
            r.base() == old(ptr).key@,
            r.wf(),
            forall|i: u32| r.cache_at(i) is None,
            r.clean(),
    {
        let key = ptr.key;
        proof {
            lemma_capacity_within_owned_range::<T>(N);
        }
        ptr.advance_by(N as u64);
        LazyArray { entries: LazyIndexMap::attach_at(key) }
    }

    /// Flushes the array at the cursor's key: every mutated cached slot
    /// writes or clears its backing cell and becomes preserved; a clean
    /// array issues no write. Advances the cursor by the array's footprint
    /// of `N` cells.
    pub fn push_spread(&mut self, ptr: &mut KeyPtr, store: &mut CellStore)
        requires
            old(self).wf(),
            old(store).wf(),
            1 <= T::footprint_spec() <= 0x1_0000_0000,
            old(ptr).key@ + 0x1_0000_0000 * T::footprint_spec() <= key_space(),
            old(self).attached() ==> old(self).base() == old(ptr).key@,
        ensures
            final(self).wf(),
            final(store).wf(),
            final(ptr).key@ == old(ptr).key@ + N,
            final(self).attached() == old(self).attached(),
            old(self).attached() ==> final(self).base() == old(self).base(),
            forall|i: u32| #![trigger final(self).cache_at(i)]
                final(self).cache_at(i) == match old(self).cache_at(i) {
                    Some(e) => Some(Entry { value: e.value, state: EntryState::Preserved }),
                    None => None::<Entry<T>>,
                },
            forall|i: u32| #![trigger old(self).cache_at(i)]
                old(self).cache_at(i) matches Some(e) && e.state == EntryState::Mutated
                    ==> match old(self).cache_at(i).unwrap().value {
                    Some(v) => final(store)@.contains_key(
                        slot_key_at(old(ptr).key@, T::footprint_spec(), i),
                    ) && final(store)@[slot_key_at(old(ptr).key@, T::footprint_spec(), i)]
                        == v.enc(),
                    None => !final(store)@.contains_key(
                        slot_key_at(old(ptr).key@, T::footprint_spec(), i),
                    ),
                },
            old(self).flush_untouched(old(ptr).key@, old(store)@, final(store)@),
            old(self).clean() ==> *final(store) == *old(store),
            old(store).writes() <= final(store).writes(),
    {
        let ghost m0 = store@;
        let base = ptr.key;
        proof {
            lemma_capacity_within_owned_range::<T>(N);
        }
        ptr.advance_by(N as u64);
        let mut walk = KeyPtr::from_key(base);
        self.entries.push_spread(&mut walk, store);
        proof {
            assert forall|a: nat| #![trigger store@.contains_key(a)]
                !old(self).writes_cell_at(base@, a) implies (store@.contains_key(a)
                == m0.contains_key(a) && (m0.contains_key(a) ==> store@[a] == m0[a])) by {}
            assert(old(self).flush_untouched(base@, m0, store@));
        }
    }

    /// A layout walk steps over the array's `N` reserved cells; the array
    /// itself clears nothing, since containers built on it own its cells.
    pub fn clear_spread(&self, ptr: &mut KeyPtr)
        requires
            1 <= T::footprint_spec() <= 0x1_0000_0000,
            old(ptr).key@ + 0x1_0000_0000 * T::footprint_spec() <= key_space(),
        ensures
            final(ptr).key@ == old(ptr).key@ + N,
    {
        proof {
            lemma_capacity_within_owned_range::<T>(N);
        }
        ptr.advance_by(N as u64);
    }
}

/// An array capacity never exceeds the owned range of `2^32` slots.
proof fn lemma_capacity_within_owned_range<T: SpreadLayout>(n: u32)
    requires
        1 <= T::footprint_spec(),
    ensures
        n as nat <= 0x1_0000_0000 * T::footprint_spec(),
{
    assert(0x1_0000_0000 * T::footprint_spec() >= 0x1_0000_0000 * 1) by (nonlinear_arith)
        requires
            T::footprint_spec() >= 1,
    ;
}

} // verus!
