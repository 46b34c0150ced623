//! A growable vector over the cell store: a lazily loaded length cell plus a
//! lazy index map of elements.

use vstd::prelude::*;
use crate::cache::{lemma_slot_key_injective, slot_key_at};
use crate::entry::{Entry, EntryState};
use crate::key::{key_space, KeyPtr};
use crate::layout::{packed_dec_at, packed_value_eq, PackedLayout, SpreadLayout};
use crate::lazy_cell::LazyCell;
use crate::lazy_map::LazyIndexMap;
use crate::store::CellStore;

verus! {

/// A contiguous growable vector whose backing lives in the cell store: a
/// length cell followed by one cell per element. Holds up to `2^32 - 1`
/// elements and never reallocates.
pub struct Vec<T> {
    /// The length of the vector.
    pub len: LazyCell<u32>,
    /// The lazily synchronised element cells.
    pub elems: LazyIndexMap<T>,
}

impl<T: PackedLayout + SpreadLayout> Vec<T> {
    /// The vector's length against store contents `m`.
    pub open spec fn len_opt(self, m: Map<nat, Seq<u8>>) -> Option<u32> {
        self.len.value_spec(m)
    }

    /// The vector's length against store contents `m`; meaningful when wf.
    pub open spec fn len_val(self, m: Map<nat, Seq<u8>>) -> u32 {
        self.len_opt(m).unwrap()
    }

    /// Whether neither part has a backing key yet.
    pub open spec fn unattached(self) -> bool {
        !self.len.attached() && !self.elems.attached()
    }

    /// The vector is internally consistent against store contents `m`: its
    /// length can be read, and every in-range slot holds a value.
    pub open spec fn wf(self, m: Map<nat, Seq<u8>>) -> bool {
        &&& self.len.wf()
        &&& self.elems.wf()
        &&& (self.len.attached() <==> self.elems.attached())
        &&& (self.len.attached() ==> self.elems.base() == self.len.base() + 1)
        &&& self.len.readable(m)
        &&& self.len_opt(m) is Some
        &&& forall|i: u32| #![trigger self.elems.slot(m, i)]
            i < self.len_val(m) ==> self.elems.slot_ok(m, i) && self.elems.slot(m, i) is Some
    }

    /// The element sequence the vector holds against store contents `m`.
    pub open spec fn contents(self, m: Map<nat, Seq<u8>>) -> Seq<T> {
        Seq::new(self.len_val(m) as nat, |i: int| self.elems.slot(m, i as u32).unwrap())
    }

    /// `other` keeps this vector's attachment: the same attached state, and
    /// the same base keys where attached.
    pub open spec fn same_attachment(self, other: Vec<T>) -> bool {
        &&& other.len.attached() == self.len.attached()
        &&& (self.len.attached() ==> other.len.base() == self.len.base())
        &&& other.elems.attached() == self.elems.attached()
        &&& (self.elems.attached() ==> other.elems.base() == self.elems.base())
    }

    /// No cached state diverges from the store: a flush writes nothing.
    pub open spec fn clean(self) -> bool {
        self.len.clean() && self.elems.clean()
    }

    /// The vector was never flushed or attached: everything it holds is
    /// cached and marked mutated, so a flush writes it out completely.
    pub open spec fn unflushed(self) -> bool {
        &&& self.unattached()
        &&& self.len.cached() matches Some(e) && e.state == EntryState::Mutated && e.value
            is Some
        &&& forall|i: u32| #![trigger self.elems.cache_at(i)]
            self.elems.cache_at(i) matches Some(e) ==> e.state == EntryState::Mutated
    }

    /// An empty, unattached vector.
    pub fn new() -> (r: Self)
        ensures
            forall|m: Map<nat, Seq<u8>>| #[trigger] r.wf(m),
            forall|m: Map<nat, Seq<u8>>| #[trigger] r.contents(m) == Seq::<T>::empty(),
            forall|m: Map<nat, Seq<u8>>| #[trigger] r.len_val(m) == 0,
            r.unattached(),
            r.unflushed(),
    {
        let r = Vec { len: LazyCell::new(0), elems: LazyIndexMap::new() };
        proof {
            assert forall|m: Map<nat, Seq<u8>>| #[trigger] r.wf(m) by {
                assert(r.len_opt(m) == Some(0u32));
            }
            assert forall|m: Map<nat, Seq<u8>>| #[trigger] r.contents(m) == Seq::<T>::empty() by {
                assert(r.contents(m) =~= Seq::<T>::empty());
            }
        }
        r
    }

    /// The number of elements in the vector.
    pub fn len(&mut self, store: &CellStore) -> (r: u32)
        requires
            old(self).wf(store@),
            store.wf(),
        ensures
            final(self).wf(store@),
            r == old(self).len_val(store@),
            final(self).contents(store@) == old(self).contents(store@),
            final(self).len_val(store@) == old(self).len_val(store@),
            final(self).unattached() == old(self).unattached(),
            old(self).same_attachment(*final(self)),
            old(self).clean() ==> final(self).clean(),
            old(self).unflushed() ==> final(self).unflushed(),
    {
        let r = self.len.get(store);
        proof {
            assert(self.contents(store@) =~= old(self).contents(store@));
        }
        r
    }

    /// Whether the vector contains no elements.
    pub fn is_empty(&mut self, store: &CellStore) -> (r: bool)
        requires
            old(self).wf(store@),
            store.wf(),
        ensures
            final(self).wf(store@),
            r == (old(self).len_val(store@) == 0),
            final(self).contents(store@) == old(self).contents(store@),
            final(self).len_val(store@) == old(self).len_val(store@),
            final(self).unattached() == old(self).unattached(),
            old(self).same_attachment(*final(self)),
            old(self).clean() ==> final(self).clean(),
            old(self).unflushed() ==> final(self).unflushed(),
    {
        self.len(store) == 0
    }
}

impl<T: PackedLayout + SpreadLayout + Copy> Vec<T> {
    /// The index back, if it lies within bounds.
    pub fn within_bounds(&mut self, index: u32, store: &CellStore) -> (r: Option<u32>)
        requires
            old(self).wf(store@),
            store.wf(),
        ensures
            final(self).wf(store@),
            r == if index < old(self).len_val(store@) {
                Some(index)
            } else {
                None::<u32>
            },
            final(self).contents(store@) == old(self).contents(store@),
            final(self).len_val(store@) == old(self).len_val(store@),
            final(self).unattached() == old(self).unattached(),
            old(self).same_attachment(*final(self)),
            old(self).clean() ==> final(self).clean(),
            old(self).unflushed() ==> final(self).unflushed(),
    {
        if index < self.len(store) {
            Some(index)
        } else {
            None
        }
    }

    /// The element at the given index, or absence when out of bounds.
    pub fn get(&mut self, index: u32, store: &CellStore) -> (r: Option<T>)
        requires
            old(self).wf(store@),
            store.wf(),
        ensures
            final(self).wf(store@),
            r == if index < old(self).len_val(store@) {
                Some(old(self).contents(store@)[index as int])
            } else {
                None::<T>
            },
            final(self).contents(store@) == old(self).contents(store@),
            final(self).len_val(store@) == old(self).len_val(store@),
            final(self).unattached() == old(self).unattached(),
            old(self).same_attachment(*final(self)),
            old(self).clean() ==> final(self).clean(),
            old(self).unflushed() ==> final(self).unflushed(),
    {
        let l = self.len.get(store);
        if index >= l {
            proof {
                lemma_frame_len_read(*old(self), *self, store@);
            }
            return None;
        }
        proof {
            assert(old(self).elems.slot(store@, index) is Some);
        }
        let r = self.elems.get(index, store);
        proof {
            lemma_frame_after_elem_cache_change(*old(self), *self, store@, index);
        }
        r
    }

    /// Borrows the element at the given index exclusively, or absence when
    /// out of bounds; the slot is conservatively marked mutated, and a write
    /// through the borrow lands in the vector's contents.
    pub fn get_mut(&mut self, index: u32, store: &CellStore) -> (r: Option<&mut T>)
        requires
            old(self).wf(store@),
            store.wf(),
        ensures
            old(self).same_attachment(*final(self)),
            match r {
                None => index >= old(self).len_val(store@) && final(self).wf(store@) && final(self).contents(store@) == old(self).contents(store@) && final(self).len_val(store@)
                    == old(self).len_val(store@) && final(self).elems == old(self).elems,
                Some(p) => index < old(self).len_val(store@) && *p == old(self).contents(
                    store@,
                )[index as int] && final(self).wf(store@) && final(self).len_val(store@) == old(self).len_val(store@) && final(self).contents(store@) == old(self).contents(
                    store@,
                ).update(index as int, *final(p)) && final(self).elems.cache_at(index) == Some(
                    Entry { value: Some(*final(p)), state: EntryState::Mutated },
                ) && (forall|x: u32|
                    x != index ==> final(self).elems.cache_at(x) == old(self).elems.cache_at(
                        x,
                    )),
            },
    {
        let l = self.len.get(store);
        if index >= l {
            proof {
                lemma_frame_len_read(*old(self), *self, store@);
            }
            return None;
        }
        proof {
            assert(old(self).elems.slot(store@, index) is Some);
            let here = *self;
            assert forall|e2: LazyIndexMap<T>, w: T|
                (e2.attached() == here.elems.attached() && (here.elems.attached()
                    ==> e2.base() == here.elems.base()) && e2.wf() && e2.cache_at(index)
                    == Some(Entry { value: Some(w), state: EntryState::Mutated }) && (forall|
                    x: u32,
                |
                    x != index ==> e2.cache_at(x) == here.elems.cache_at(x))) implies {
                let v1 = Vec { len: here.len, elems: e2 };
                &&& v1.wf(store@)
                &&& v1.len_val(store@) == old(self).len_val(store@)
                &&& v1.contents(store@) == old(self).contents(store@).update(index as int, w)
            } by {
                let v1 = Vec { len: here.len, elems: e2 };
                lemma_contents_after_elem_write(*old(self), *self, v1, store@, index, w);
            }
        }
        self.elems.get_mut(index, store)
    }

    /// Borrows the first element exclusively, if any.
    pub fn first_mut(&mut self, store: &CellStore) -> (r: Option<&mut T>)
        requires
            old(self).wf(store@),
            store.wf(),
        ensures
            old(self).same_attachment(*final(self)),
            match r {
                None => old(self).len_val(store@) == 0 && final(self).wf(store@) && final(self).contents(store@) == old(self).contents(store@) && final(self).len_val(store@)
                    == old(self).len_val(store@) && final(self).elems == old(self).elems,
                Some(p) => old(self).len_val(store@) > 0 && *p == old(self).contents(store@)[0]
                    && final(self).wf(store@) && final(self).len_val(store@) == old(self).len_val(store@) && final(self).contents(store@) == old(self).contents(
                    store@,
                ).update(0, *final(p)) && final(self).elems.cache_at(0) == Some(
                    Entry { value: Some(*final(p)), state: EntryState::Mutated },
                ) && (forall|x: u32|
                    x != 0 ==> final(self).elems.cache_at(x) == old(self).elems.cache_at(x)),
            },
    {
        self.get_mut(0, store)
    }

    /// Borrows the last element exclusively, if any.
    pub fn last_mut(&mut self, store: &CellStore) -> (r: Option<&mut T>)
        requires
            old(self).wf(store@),
            store.wf(),
        ensures
            old(self).same_attachment(*final(self)),
            match r {
                None => old(self).len_val(store@) == 0 && final(self).wf(store@) && final(self).contents(store@) == old(self).contents(store@) && final(self).len_val(store@)
                    == old(self).len_val(store@) && final(self).elems == old(self).elems,
                Some(p) => old(self).len_val(store@) > 0 && *p == old(self).contents(
                    store@,
                ).last() && final(self).wf(store@) && final(self).len_val(store@) == old(self).len_val(store@) && final(self).contents(store@) == old(self).contents(
                    store@,
                ).update(old(self).len_val(store@) - 1, *final(p)) && final(self).elems.cache_at(
                    (old(self).len_val(store@) - 1) as u32,
                ) == Some(Entry { value: Some(*final(p)), state: EntryState::Mutated }) && (
                forall|x: u32|
                    x != (old(self).len_val(store@) - 1) as u32 ==> final(self).elems.cache_at(
                        x,
                    ) == old(self).elems.cache_at(x)),
            },
    {
        let l = self.len.get(store);
        if l == 0 {
            proof {
                lemma_frame_len_read(*old(self), *self, store@);
            }
            return None;
        }
        self.get_mut(l - 1, store)
    }

    /// The first element, if any.
    pub fn first(&mut self, store: &CellStore) -> (r: Option<T>)
        requires
            old(self).wf(store@),
            store.wf(),
        ensures
            final(self).wf(store@),
            r == if old(self).len_val(store@) > 0 {
                Some(old(self).contents(store@)[0])
            } else {
                None::<T>
            },
            final(self).contents(store@) == old(self).contents(store@),
            final(self).len_val(store@) == old(self).len_val(store@),
            final(self).unattached() == old(self).unattached(),
            old(self).same_attachment(*final(self)),
            old(self).clean() ==> final(self).clean(),
            old(self).unflushed() ==> final(self).unflushed(),
    {
        self.get(0, store)
    }

    /// The last element, if any.
    pub fn last(&mut self, store: &CellStore) -> (r: Option<T>)
        requires
            old(self).wf(store@),
            store.wf(),
        ensures
            final(self).wf(store@),
            r == if old(self).len_val(store@) > 0 {
                Some(old(self).contents(store@).last())
            } else {
                None::<T>
            },
            final(self).contents(store@) == old(self).contents(store@),
            final(self).len_val(store@) == old(self).len_val(store@),
            final(self).unattached() == old(self).unattached(),
            old(self).same_attachment(*final(self)),
            old(self).clean() ==> final(self).clean(),
            old(self).unflushed() ==> final(self).unflushed(),
    {
        let l = self.len(store);
        if l == 0 {
            return None;
        }
        self.get(l - 1, store)
    }

    /// Appends an element to the back of the vector. A push at the maximum
    /// length of `u32::MAX` is a contract violation surfaced as an abort at
    /// the host boundary; excluding it keeps the length bound invariant.
    pub fn push(&mut self, value: T, store: &CellStore)
        requires
            old(self).wf(store@),
            store.wf(),
            old(self).len_val(store@) < u32::MAX,
        ensures
            final(self).wf(store@),
            final(self).len_val(store@) == old(self).len_val(store@) + 1,
            final(self).contents(store@) == old(self).contents(store@).push(value),
            final(self).unattached() == old(self).unattached(),
            old(self).same_attachment(*final(self)),
            old(self).unflushed() ==> final(self).unflushed(),
    {
        let l = self.len.get(store);
        self.elems.put(l, Some(value));
        self.len.set(l + 1);
        proof {
            let m = store@;
            assert forall|i: u32| #![trigger self.elems.slot(m, i)]
                i < self.len_val(m) implies self.elems.slot_ok(m, i) && self.elems.slot(m, i)
                is Some by {
                if i != l {
                    assert(old(self).elems.slot(m, i) is Some);
                    assert(self.elems.cache_at(i) == old(self).elems.cache_at(i));
                }
            }
            assert forall|i: u32| #![trigger old(self).elems.slot(m, i)]
                i < old(self).len_val(m) implies self.elems.slot(m, i) == old(self).elems.slot(
                    m,
                    i,
                ) by {
                assert(self.elems.cache_at(i) == old(self).elems.cache_at(i));
            }
            assert(self.contents(m) =~= old(self).contents(m).push(value));
        }
    }

    /// Removes and returns the last element, or absence when empty.
    pub fn pop(&mut self, store: &CellStore) -> (r: Option<T>)
        requires
            old(self).wf(store@),
            store.wf(),
        ensures
            final(self).wf(store@),
            old(self).len_val(store@) == 0 ==> r is None && final(self).contents(store@) == old(self).contents(store@) && final(self).len_val(store@) == 0,
            old(self).len_val(store@) > 0 ==> r == Some(old(self).contents(store@).last())
                && final(self).contents(store@) == old(self).contents(store@).drop_last()
                && final(self).len_val(store@) == old(self).len_val(store@) - 1,
            final(self).unattached() == old(self).unattached(),
            old(self).same_attachment(*final(self)),
            old(self).unflushed() ==> final(self).unflushed(),
    {
        let l = self.len.get(store);
        if l == 0 {
            proof {
                lemma_frame_len_read(*old(self), *self, store@);
            }
            return None;
        }
        let last = l - 1;
        proof {
            assert(old(self).elems.slot(store@, last) is Some);
        }
        self.len.set(last);
        let r = self.elems.take(last, store);
        proof {
            let m = store@;
            assert forall|i: u32| #![trigger self.elems.slot(m, i)]
                i < self.len_val(m) implies self.elems.slot_ok(m, i) && self.elems.slot(m, i)
                is Some by {
                assert(old(self).elems.slot(m, i) is Some);
                assert(self.elems.cache_at(i) == old(self).elems.cache_at(i));
            }
            assert forall|i: int| #![trigger self.elems.slot(m, i as u32)]
                0 <= i < last implies self.elems.slot(m, i as u32) == old(self).elems.slot(
                    m,
                    i as u32,
                ) by {
                assert(self.elems.cache_at(i as u32) == old(self).elems.cache_at(i as u32));
            }
            assert(self.contents(m) =~= old(self).contents(m).drop_last());
        }
        r
    }

    /// Removes the last element without returning it; reports whether one
    /// was removed.
    pub fn pop_drop(&mut self, store: &CellStore) -> (r: Option<()>)
        requires
            old(self).wf(store@),
            store.wf(),
        ensures
            final(self).wf(store@),
            old(self).len_val(store@) == 0 ==> r is None && final(self).contents(store@) == old(self).contents(store@) && final(self).len_val(store@) == 0,
            old(self).len_val(store@) > 0 ==> r == Some(()) && final(self).contents(store@)
                == old(self).contents(store@).drop_last() && final(self).len_val(store@) == old(self).len_val(store@) - 1,
            final(self).unattached() == old(self).unattached(),
            old(self).same_attachment(*final(self)),
            old(self).unflushed() ==> final(self).unflushed(),
    {
        let l = self.len.get(store);
        if l == 0 {
            proof {
                lemma_frame_len_read(*old(self), *self, store@);
            }
            return None;
        }
        let last = l - 1;
        self.len.set(last);
        self.elems.put(last, None);
        proof {
            let m = store@;
            assert forall|i: u32| #![trigger self.elems.slot(m, i)]
                i < self.len_val(m) implies self.elems.slot_ok(m, i) && self.elems.slot(m, i)
                is Some by {
                assert(old(self).elems.slot(m, i) is Some);
                assert(self.elems.cache_at(i) == old(self).elems.cache_at(i));
            }
            assert forall|i: int| #![trigger self.elems.slot(m, i as u32)]
                0 <= i < last implies self.elems.slot(m, i as u32) == old(self).elems.slot(
                    m,
                    i as u32,
                ) by {
                assert(self.elems.cache_at(i as u32) == old(self).elems.cache_at(i as u32));
            }
            assert(self.contents(m) =~= old(self).contents(m).drop_last());
        }
        Some(())
    }

    /// Swaps the elements at the given indices; out-of-bounds indices are
    /// excluded by contract.
    pub fn swap(&mut self, a: u32, b: u32, store: &CellStore)
        requires
            old(self).wf(store@),
            store.wf(),
            a < old(self).len_val(store@),
            b < old(self).len_val(store@),
        ensures
            final(self).wf(store@),
            final(self).len_val(store@) == old(self).len_val(store@),
            final(self).contents(store@) == old(self).contents(store@).update(
                a as int,
                old(self).contents(store@)[b as int],
            ).update(b as int, old(self).contents(store@)[a as int]),
            final(self).unattached() == old(self).unattached(),
            old(self).same_attachment(*final(self)),
            old(self).unflushed() ==> final(self).unflushed(),
    {
        let ghost m = store@;
        self.elems.swap(a, b, store);
        proof {
            assert(self.len_opt(m) == old(self).len_opt(m));
            assert forall|i: u32| #![trigger self.elems.slot(m, i)]
                i < self.len_val(m) implies self.elems.slot_ok(m, i) && self.elems.slot(m, i)
                is Some by {
                assert(old(self).elems.slot(m, a) is Some);
                assert(old(self).elems.slot(m, b) is Some);
                if i != a && i != b {
                    assert(old(self).elems.slot(m, i) is Some);
                    assert(self.elems.cache_at(i) == old(self).elems.cache_at(i));
                }
            }
            assert forall|i: u32|
                i != a && i != b implies self.elems.slot(m, i) == old(self).elems.slot(
                    m,
                    i,
                ) by {
                assert(self.elems.cache_at(i) == old(self).elems.cache_at(i));
            }
            assert(self.contents(m) =~= old(self).contents(m).update(
                a as int,
                old(self).contents(m)[b as int],
            ).update(b as int, old(self).contents(m)[a as int]));
        }
    }

    /// Removes the indexed element, moving the last element into its place,
    /// and returns it; absence when the vector is empty.
    pub fn swap_remove(&mut self, n: u32, store: &CellStore) -> (r: Option<T>)
        requires
            old(self).wf(store@),
            store.wf(),
            old(self).len_val(store@) == 0 || n < old(self).len_val(store@),
        ensures
            final(self).wf(store@),
            old(self).len_val(store@) == 0 ==> r is None && final(self).contents(store@) == old(self).contents(store@),
            old(self).len_val(store@) > 0 ==> r == Some(old(self).contents(store@)[n as int])
                && final(self).contents(store@) == old(self).contents(store@).update(
                n as int,
                old(self).contents(store@).last(),
            ).drop_last() && final(self).len_val(store@) == old(self).len_val(store@) - 1,
            final(self).unattached() == old(self).unattached(),
            old(self).same_attachment(*final(self)),
            old(self).unflushed() ==> final(self).unflushed(),
    {
        let l = self.len(store);
        if l == 0 {
            return None;
        }
        self.swap(n, l - 1, store);
        let r = self.pop(store);
        proof {
            assert(self.contents(store@) =~= old(self).contents(store@).update(
                n as int,
                old(self).contents(store@).last(),
            ).drop_last());
        }
        r
    }

    /// Removes the indexed element without returning it, moving the last
    /// element into its place; reports whether one was removed.
    pub fn swap_remove_drop(&mut self, n: u32, store: &CellStore) -> (r: Option<()>)
        requires
            old(self).wf(store@),
            store.wf(),
            old(self).len_val(store@) == 0 || n < old(self).len_val(store@),
        ensures
            final(self).wf(store@),
            old(self).len_val(store@) == 0 ==> r is None && final(self).contents(store@) == old(self).contents(store@),
            old(self).len_val(store@) > 0 ==> r == Some(()) && final(self).contents(store@)
                == old(self).contents(store@).update(
                n as int,
                old(self).contents(store@).last(),
            ).drop_last() && final(self).len_val(store@) == old(self).len_val(store@) - 1,
            final(self).unattached() == old(self).unattached(),
            old(self).same_attachment(*final(self)),
            old(self).unflushed() ==> final(self).unflushed(),
    {
        let l = self.len.get(store);
        if l == 0 {
            proof {
                lemma_frame_len_read(*old(self), *self, store@);
            }
            return None;
        }
        proof {
            assert(old(self).elems.slot(store@, n) is Some);
            assert(old(self).elems.slot(store@, (l - 1) as u32) is Some);
        }
        self.elems.put(n, None);
        let last_i = l - 1;
        let last = self.elems.take(last_i, store);
        self.elems.put(n, last);
        self.len.set(last_i);
        proof {
            let m = store@;
            assert forall|i: u32| #![trigger self.elems.slot(m, i)]
                i < self.len_val(m) implies self.elems.slot_ok(m, i) && self.elems.slot(m, i)
                is Some by {
                if i != n && i != last_i {
                    assert(old(self).elems.slot(m, i) is Some);
                    assert(self.elems.cache_at(i) == old(self).elems.cache_at(i));
                }
            }
            assert forall|i: u32|
                i != n && i != last_i implies self.elems.slot(m, i) == old(self).elems.slot(
                    m,
                    i,
                ) by {
                assert(self.elems.cache_at(i) == old(self).elems.cache_at(i));
            }
            assert(self.contents(m) =~= old(self).contents(m).update(
                n as int,
                old(self).contents(m).last(),
            ).drop_last());
        }
        Some(())
    }

    /// All elements in index order, as an ordinary vector.
    pub fn iter(&mut self, store: &CellStore) -> (r: std::vec::Vec<T>)
        requires
            old(self).wf(store@),
            store.wf(),
        ensures
            final(self).wf(store@),
            r@ == old(self).contents(store@),
            final(self).contents(store@) == old(self).contents(store@),
            final(self).len_val(store@) == old(self).len_val(store@),
            final(self).unattached() == old(self).unattached(),
            old(self).same_attachment(*final(self)),
            old(self).clean() ==> final(self).clean(),
            old(self).unflushed() ==> final(self).unflushed(),
    {
        let l = self.len(store);
        let mut r: std::vec::Vec<T> = std::vec::Vec::new();
        let mut i: u32 = 0;
        while i < l
            invariant
                i <= l,
                store.wf(),
                self.wf(store@),
                l == self.len_val(store@),
                self.contents(store@) == old(self).contents(store@),
                self.len_val(store@) == old(self).len_val(store@),
                self.unattached() == old(self).unattached(),
                old(self).same_attachment(*self),
                old(self).clean() ==> self.clean(),
                old(self).unflushed() ==> self.unflushed(),
                r@ == old(self).contents(store@).take(i as int),
            decreases l - i,
        {
            let v = self.get(i, store).unwrap();
            r.push(v);
            i += 1;
            proof {
                assert(r@ =~= old(self).contents(store@).take(i as int));
            }
        }
        proof {
            assert(old(self).contents(store@).take(l as int) =~= old(self).contents(store@));
        }
        r
    }

    /// The vector holding the given elements in order: the same as pushing
    /// each element of the slice, left to right, onto a new vector.
    pub fn from_slice(values: &[T]) -> (r: Self)
        requires
            values@.len() <= u32::MAX,
        ensures
            forall|m: Map<nat, Seq<u8>>| #[trigger] r.wf(m),
            forall|m: Map<nat, Seq<u8>>| #[trigger] r.contents(m) == values@,
            r.unattached(),
            r.unflushed(),
    {
        let scratch = CellStore::new();
        let mut r = Vec::new();
        let n = values.len();
        let mut i: usize = 0;
        while i < n
            invariant
                i <= n,
                n == values@.len(),
                n <= u32::MAX,
                scratch.wf(),
                r.wf(scratch@),
                r.unattached(),
                r.unflushed(),
                r.len_val(scratch@) == i,
                r.contents(scratch@) == values@.take(i as int),
            decreases n - i,
        {
            r.push(values[i], &scratch);
            i += 1;
            proof {
                assert(r.contents(scratch@) =~= values@.take(i as int));
            }
        }
        proof {
            assert(values@.take(n as int) =~= values@);
            lemma_unattached_independent(r, scratch@);
        }
        r
    }

    /// Whether the two vectors hold equal element sequences, each read
    /// against its own store.
    pub fn equals(&mut self, other: &mut Vec<T>, store: &CellStore, other_store: &CellStore) -> (r:
        bool)
        requires
            old(self).wf(store@),
            old(other).wf(other_store@),
            store.wf(),
            other_store.wf(),
        ensures
            final(self).wf(store@),
            final(other).wf(other_store@),
            r == (old(self).contents(store@) == old(other).contents(other_store@)),
            final(self).contents(store@) == old(self).contents(store@),
            final(other).contents(other_store@) == old(other).contents(other_store@),
            old(self).same_attachment(*final(self)),
            old(other).same_attachment(*final(other)),
    {
        let la = self.len(store);
        let lb = other.len(other_store);
        if la != lb {
            proof {
                assert(old(self).contents(store@).len() != old(other).contents(
                    other_store@,
                ).len());
            }
            return false;
        }
        let mut i: u32 = 0;
        while i < la
            invariant
                i <= la,
                store.wf(),
                other_store.wf(),
                self.wf(store@),
                other.wf(other_store@),
                la == self.len_val(store@),
                la == other.len_val(other_store@),
                self.contents(store@) == old(self).contents(store@),
                other.contents(other_store@) == old(other).contents(other_store@),
                old(self).same_attachment(*self),
                old(other).same_attachment(*other),
                forall|j: int|
                    0 <= j < i ==> self.contents(store@)[j] == other.contents(other_store@)[j],
            decreases la - i,
        {
            let va = self.get(i, store).unwrap();
            let vb = other.get(i, other_store).unwrap();
            if !packed_value_eq(&va, &vb) {
                return false;
            }
            i += 1;
        }
        proof {
            assert(self.contents(store@) =~= other.contents(other_store@));
        }
        true
    }
}


impl<T: PackedLayout + SpreadLayout> Vec<T> {
    /// The number of cells the vector occupies in a layout walk: its length
    /// cell and the one reserved cell of its element map.
    pub open spec fn spread_footprint() -> nat {
        2
    }

    /// The key backing element slot `i` for a vector based at `k`.
    pub open spec fn region_slot_key(k: nat, i: u32) -> nat {
        slot_key_at(k + 1, T::footprint_spec(), i)
    }

    /// The region based at `k` holds a whole vector: a length cell that
    /// decodes, and one decoding element cell per in-range index.
    pub open spec fn region_ok(m: Map<nat, Seq<u8>>, k: nat) -> bool {
        &&& packed_dec_at::<u32>(m, k) is Some
        &&& forall|i: u32| #![trigger Self::region_slot_key(k, i)]
            i < packed_dec_at::<u32>(m, k).unwrap() ==> m.contains_key(
                Self::region_slot_key(k, i),
            ) && T::dec(m[Self::region_slot_key(k, i)]) is Some
    }

    /// The length the region based at `k` holds.
    pub open spec fn region_len(m: Map<nat, Seq<u8>>, k: nat) -> u32 {
        packed_dec_at::<u32>(m, k).unwrap()
    }

    /// The element sequence the region based at `k` holds.
    pub open spec fn region_contents(m: Map<nat, Seq<u8>>, k: nat) -> Seq<T> {
        Seq::new(
            Self::region_len(m, k) as nat,
            |i: int| T::dec(m[Self::region_slot_key(k, i as u32)]).unwrap(),
        )
    }

    /// Outside the length cell at `k` and the cells backing this vector's
    /// mutated cached element slots, store contents `m1` agree with `m0`.
    pub open spec fn flush_untouched(
        self,
        k: nat,
        m0: Map<nat, Seq<u8>>,
        m1: Map<nat, Seq<u8>>,
    ) -> bool {
        forall|a: nat| #![trigger m1.contains_key(a)]
            a != k && !self.elems.writes_cell_at(k + 1, a) ==> (m1.contains_key(a)
                == m0.contains_key(a) && (m0.contains_key(a) ==> m1[a] == m0[a]))
    }

    /// Reads a vector out of the region at the cursor: records the length
    /// cell and the element base, with empty caches and no store read.
    /// Advances the cursor by exactly the vector's footprint.
    pub fn pull_spread(ptr: &mut KeyPtr, store: &CellStore) -> (r: Self)
        requires
            1 <= T::footprint_spec() <= 0x1_0000_0000,
            old(ptr).key@ + 1 + 0x1_0000_0000 * T::footprint_spec() <= key_space(),
            store.wf(),
            Self::region_ok(store@, old(ptr).key@),
        ensures
            final(ptr).key@ == old(ptr).key@ + Self::spread_footprint(),
            r.wf(store@),
            !r.unattached(),
            r.len.attached() && r.len.base() == old(ptr).key@,
            r.elems.attached() && r.elems.base() == old(ptr).key@ + 1,
            r.clean(),
            r.len_val(store@) == Self::region_len(store@, old(ptr).key@),
            r.contents(store@) == Self::region_contents(store@, old(ptr).key@),
    {
        let ghost k = ptr.key@;
        let len = LazyCell::<u32>::pull_spread(ptr);
        let elems = LazyIndexMap::<T>::pull_spread(ptr);
        let r = Vec { len, elems };
        proof {
            let m = store@;
            assert forall|i: u32| #![trigger r.elems.slot(m, i)]
                i < r.len_val(m) implies r.elems.slot_ok(m, i) && r.elems.slot(m, i)
                is Some by {
                assert(Self::region_slot_key(k, i) == r.elems.slot_key(i));
            }
            assert forall|i: u32| true implies r.elems.slot(m, i) == (
            if m.contains_key(Self::region_slot_key(k, i)) {
                T::dec(m[Self::region_slot_key(k, i)])
            } else {
                None::<T>
            }) by {
                assert(Self::region_slot_key(k, i) == r.elems.slot_key(i));
            }
            assert(r.contents(m) =~= Self::region_contents(m, k));
        }
        r
    }

    /// Flushes the vector at the cursor: the length cell and every mutated
    /// element slot are written back; a clean vector issues no write at all.
    /// A vector that was never attached or flushed writes its whole contents,
    /// so the region then reads back as exactly that vector.
    /// Advances the cursor by exactly the vector's footprint.
    pub fn push_spread(&mut self, ptr: &mut KeyPtr, store: &mut CellStore)
        requires
            old(self).wf(old(store)@),
            old(store).wf(),
            1 <= T::footprint_spec() <= 0x1_0000_0000,
            old(ptr).key@ + 1 + 0x1_0000_0000 * T::footprint_spec() <= key_space(),
            old(self).len.attached() ==> old(self).len.base() == old(ptr).key@,
        ensures
            final(ptr).key@ == old(ptr).key@ + Self::spread_footprint(),
            final(store).wf(),
            old(store).writes() <= final(store).writes(),
            old(self).clean() ==> *final(store) == *old(store),
            final(self).wf(final(store)@),
            final(self).clean(),
            final(self).len_val(final(store)@) == old(self).len_val(old(store)@),
            final(self).contents(final(store)@) == old(self).contents(old(store)@),
            old(self).unflushed() ==> Self::region_ok(final(store)@, old(ptr).key@)
                && Self::region_len(final(store)@, old(ptr).key@) == old(self).len_val(
                old(store)@,
            ) && Self::region_contents(final(store)@, old(ptr).key@) == old(self).contents(
                old(store)@,
            ),
            old(self).len.cached() matches Some(e) && e.state == EntryState::Mutated ==> final(store)@.contains_key(old(ptr).key@) && final(store)@[old(ptr).key@] == old(self).len.cached().unwrap().value.unwrap().enc(),
            old(self).len.clean() ==> (final(store)@.contains_key(old(ptr).key@) == old(store)@.contains_key(old(ptr).key@) && (old(store)@.contains_key(old(ptr).key@)
                ==> final(store)@[old(ptr).key@] == old(store)@[old(ptr).key@])),
            forall|i: u32| #![trigger old(self).elems.cache_at(i)]
                old(self).elems.cache_at(i) matches Some(e) && e.state == EntryState::Mutated
                    ==> match old(self).elems.cache_at(i).unwrap().value {
                    Some(v) => final(store)@.contains_key(
                        slot_key_at(old(ptr).key@ + 1, T::footprint_spec(), i),
                    ) && final(store)@[slot_key_at(old(ptr).key@ + 1, T::footprint_spec(), i)]
                        == v.enc(),
                    None => !final(store)@.contains_key(
                        slot_key_at(old(ptr).key@ + 1, T::footprint_spec(), i),
                    ),
                },
            old(self).flush_untouched(old(ptr).key@, old(store)@, final(store)@),
    {
        let ghost k = ptr.key@;
        let ghost m0 = store@;
        proof {
            assert(0x1_0000_0000 * T::footprint_spec() >= 0x1_0000_0000) by (nonlinear_arith)
                requires
                    T::footprint_spec() >= 1,
            ;
        }
        self.len.push_spread(ptr, store);
        let ghost m1 = store@;
        let ghost l0 = old(self).len_val(m0);
        self.elems.push_spread(ptr, store);
        proof {
            let m2 = store@;
            let fp = T::footprint_spec();
            // The element walk never touches the length cell.
            assert forall|i: u32| #![trigger slot_key_at(k + 1, fp, i)]
                true implies slot_key_at(k + 1, fp, i) != k by {
                assert(slot_key_at(k + 1, fp, i) >= k + 1);
            }
            assert(!old(self).elems.writes_cell_at(k + 1, k));
            assert(m2.contains_key(k) == m1.contains_key(k) && (m1.contains_key(k)
                ==> m2[k] == m1[k]));
            // A cell backing an uncached slot is backed by no mutated slot.
            assert forall|i: u32|
                old(self).elems.cache_at(i) is None implies !old(self).elems.writes_cell_at(
                k + 1,
                slot_key_at(k + 1, fp, i),
            ) by {
                if old(self).elems.writes_cell_at(k + 1, slot_key_at(k + 1, fp, i)) {
                    let j = choose|j: u32| #![trigger old(self).elems.cache_at(j)]
                        old(self).elems.cache_at(j) matches Some(e) && e.state
                            == EntryState::Mutated && slot_key_at(k + 1, fp, i) == slot_key_at(
                            k + 1,
                            fp,
                            j,
                        );
                    lemma_slot_key_injective(k + 1, fp, i, j);
                }
            }
            // Slot values survive the flush.
            assert forall|i: u32| #![trigger self.elems.slot(m2, i)]
                i < l0 implies self.elems.slot(m2, i) == old(self).elems.slot(m0, i) && self
                .elems.slot_ok(m2, i) by {
                assert(old(self).elems.slot(m0, i) is Some);
                match old(self).elems.cache_at(i) {
                    Some(e) => {
                        assert(self.elems.cache_at(i) == Some(
                            Entry { value: e.value, state: EntryState::Preserved },
                        ));
                    },
                    None => {
                        assert(self.elems.cache_at(i) is None);
                        assert(old(self).elems.attached());
                        assert(old(self).elems.slot_key(i) == slot_key_at(k + 1, fp, i));
                        assert(m2.contains_key(slot_key_at(k + 1, fp, i)) == m1.contains_key(
                            slot_key_at(k + 1, fp, i),
                        ) && (m1.contains_key(slot_key_at(k + 1, fp, i)) ==> m2[slot_key_at(
                            k + 1,
                            fp,
                            i,
                        )] == m1[slot_key_at(k + 1, fp, i)]));
                        assert(m1 == m0 || (old(self).len.cached() is Some && m1
                            == m0.insert(k, old(self).len.cached().unwrap().value.unwrap().enc())
                        ) || m1 == m0.remove(k));
                        assert(slot_key_at(k + 1, fp, i) != k);
                    },
                }
            }
            // The length survives the flush.
            assert(self.len_opt(m2) == old(self).len_opt(m0)) by {
                match old(self).len.cached() {
                    Some(e) => {},
                    None => {
                        assert(m1.contains_key(k) == m0.contains_key(k) && (m0.contains_key(k)
                            ==> m1[k] == m0[k]));
                    },
                }
            }
            assert(self.contents(m2) =~= old(self).contents(m0));
            if old(self).unflushed() {
                assert(m1 == m0.insert(k, old(self).len.cached().unwrap().value.unwrap().enc()));
                assert(old(self).len_opt(m0) == old(self).len.cached().unwrap().value);
                <u32 as PackedLayout>::lemma_enc_dec(l0);
                assert(m2.contains_key(k) && m2[k] == l0.enc());
                assert(packed_dec_at::<u32>(m2, k) == Some(l0));
                assert forall|i: u32| #![trigger Self::region_slot_key(k, i)]
                    i < l0 implies m2.contains_key(Self::region_slot_key(k, i)) && T::dec(
                    m2[Self::region_slot_key(k, i)],
                ) is Some && T::dec(m2[Self::region_slot_key(k, i)]) == old(self).elems.slot(
                    m0,
                    i,
                ) by {
                    assert(old(self).elems.slot(m0, i) is Some);
                    let e = old(self).elems.cache_at(i).unwrap();
                    let v = e.value.unwrap();
                    assert(e.state == EntryState::Mutated);
                    assert(m2.contains_key(slot_key_at(k + 1, fp, i)) && m2[slot_key_at(
                        k + 1,
                        fp,
                        i,
                    )] == v.enc());
                    T::lemma_enc_dec(v);
                }
                assert(Self::region_contents(m2, k) =~= old(self).contents(m0));
            }
            // The length cell's fate: written when its cache diverged, else
            // untouched.
            if old(self).len.cached() matches Some(e) && e.state == EntryState::Mutated {
                assert(old(self).len.cached().unwrap().value is Some);
                assert(m1 == m0.insert(
                    k,
                    old(self).len.cached().unwrap().value.unwrap().enc(),
                ));
                assert(m2.contains_key(k) && m2[k] == old(self).len.cached().unwrap().value.unwrap().enc());
            } else {
                assert(old(self).len.clean());
                assert(m1 == m0);
            }
            // Each mutated element slot's cell holds its value, or is absent.
            assert forall|i: u32| #![trigger old(self).elems.cache_at(i)]
                old(self).elems.cache_at(i) matches Some(e) && e.state == EntryState::Mutated
                    implies match old(self).elems.cache_at(i).unwrap().value {
                Some(v) => m2.contains_key(slot_key_at(k + 1, fp, i)) && m2[slot_key_at(
                    k + 1,
                    fp,
                    i,
                )] == v.enc(),
                None => !m2.contains_key(slot_key_at(k + 1, fp, i)),
            } by {}
            // Every other cell of the store is untouched.
            assert forall|a: nat| #![trigger m2.contains_key(a)]
                a != k && !old(self).elems.writes_cell_at(k + 1, a) implies (m2.contains_key(a)
                == m0.contains_key(a) && (m0.contains_key(a) ==> m2[a] == m0[a])) by {
                assert(m2.contains_key(a) == m1.contains_key(a) && (m1.contains_key(a)
                    ==> m2[a] == m1[a]));
                if !old(self).len.clean() {
                    assert(m1 == m0.insert(
                        k,
                        old(self).len.cached().unwrap().value.unwrap().enc(),
                    ));
                }
            }
            assert(old(self).flush_untouched(k, m0, m2));
        }
    }

    /// Key value `a` backs one of the vector's in-range element cells.
    pub open spec fn owns_elem_cell(self, m: Map<nat, Seq<u8>>, a: nat) -> bool {
        exists|i: u32| #![trigger self.elems.slot_key(i)]
            i < self.len_val(m) && a == self.elems.slot_key(i)
    }

    /// Store contents `m1` agree with `m0` outside the vector's in-range
    /// element cells (read against `m0`).
    pub open spec fn untouched_outside_elems(
        self,
        m0: Map<nat, Seq<u8>>,
        m1: Map<nat, Seq<u8>>,
    ) -> bool {
        forall|a: nat| #![trigger m1.contains_key(a)]
            !self.owns_elem_cell(m0, a) ==> (m1.contains_key(a) == m0.contains_key(a) && (
            m0.contains_key(a) ==> m1[a] == m0[a]))
    }

    /// Deletes the element cells `[0, len)` from the store; the length cell
    /// and the cache are untouched. This invalidates the vector's contents.
    pub fn clear_cells(&mut self, store: &mut CellStore)
        requires
            old(self).wf(old(store)@),
            old(store).wf(),
            old(self).len_val(old(store)@) == 0 || old(self).elems.attached(),
        ensures
            final(store).wf(),
            old(store).writes() <= final(store).writes(),
            forall|i: u32| #![trigger old(self).elems.slot_key(i)]
                i < old(self).len_val(old(store)@) ==> !final(store)@.contains_key(
                    old(self).elems.slot_key(i),
                ),
            old(self).untouched_outside_elems(old(store)@, final(store)@),
    {
        let ghost m0 = store@;
        let l = self.len.get(store);
        let mut i: u32 = 0;
        while i < l
            invariant
                i <= l,
                store.wf(),
                l == old(self).len_val(m0),
                self.elems == old(self).elems,
                l == 0 || self.elems.attached(),
                self.elems.wf(),
                old(store).writes() <= store.writes(),
                forall|x: u32| #![trigger old(self).elems.slot_key(x)]
                    x < i ==> !store@.contains_key(old(self).elems.slot_key(x)),
                forall|a: nat| #![trigger store@.contains_key(a)]
                    !(exists|x: u32| #![trigger old(self).elems.slot_key(x)]
                        x < i && a == old(self).elems.slot_key(x)) ==> (store@.contains_key(a)
                        == m0.contains_key(a) && (m0.contains_key(a) ==> store@[a] == m0[a])),
                forall|a: nat|
                    !old(self).owns_elem_cell(m0, a) ==> !(exists|x: u32|
                        #![trigger old(self).elems.slot_key(x)]
                        x < i && a == old(self).elems.slot_key(x)),
            decreases l - i,
        {
            self.elems.clear_packed_at(i, store);
            i += 1;
            proof {
                assert forall|a: nat| #![trigger store@.contains_key(a)]
                    !(exists|x: u32| #![trigger old(self).elems.slot_key(x)]
                        x < i && a == old(self).elems.slot_key(x)) implies (
                store@.contains_key(a) == m0.contains_key(a) && (m0.contains_key(a)
                    ==> store@[a] == m0[a])) by {
                    assert(old(self).elems.slot_key((i - 1) as u32) == old(self).elems.slot_key(
                        (i - 1) as u32,
                    ));
                }
            }
        }
        proof {
            assert forall|a: nat| #![trigger store@.contains_key(a)]
                !old(self).owns_elem_cell(m0, a) implies (store@.contains_key(a)
                == m0.contains_key(a) && (m0.contains_key(a) ==> store@[a] == m0[a])) by {}
            assert(old(self).untouched_outside_elems(m0, store@));
        }
    }

    /// Outside the length cell at `k` and this vector's in-range element
    /// cells (read against `m0`), store contents `m1` agree with `m0`.
    pub open spec fn cleared_region_only(
        self,
        k: nat,
        m0: Map<nat, Seq<u8>>,
        m1: Map<nat, Seq<u8>>,
    ) -> bool {
        forall|a: nat| #![trigger m1.contains_key(a)]
            a != k && !self.owns_elem_cell(m0, a) ==> (m1.contains_key(a) == m0.contains_key(a)
                && (m0.contains_key(a) ==> m1[a] == m0[a]))
    }

    /// Clears the vector's whole backing region at the cursor: every element
    /// cell in `[0, len)` and the length cell. Advances the cursor by
    /// exactly the vector's footprint.
    pub fn clear_spread(&mut self, ptr: &mut KeyPtr, store: &mut CellStore)
        requires
            old(self).wf(old(store)@),
            old(store).wf(),
            1 <= T::footprint_spec() <= 0x1_0000_0000,
            old(ptr).key@ + 1 + 0x1_0000_0000 * T::footprint_spec() <= key_space(),
            old(self).len.attached() ==> old(self).len.base() == old(ptr).key@,
            old(self).len_val(old(store)@) == 0 || old(self).elems.attached(),
        ensures
            final(ptr).key@ == old(ptr).key@ + Self::spread_footprint(),
            final(store).wf(),
            old(store).writes() <= final(store).writes(),
            !final(store)@.contains_key(old(ptr).key@),
            forall|i: u32| #![trigger old(self).elems.slot_key(i)]
                i < old(self).len_val(old(store)@) ==> !final(store)@.contains_key(
                    old(self).elems.slot_key(i),
                ),
            old(self).cleared_region_only(old(ptr).key@, old(store)@, final(store)@),
    {
        let ghost k = ptr.key@;
        let ghost m0 = store@;
        self.clear_cells(store);
        let ghost mid = store@;
        proof {
            assert(0x1_0000_0000 * T::footprint_spec() >= 0x1_0000_0000) by (nonlinear_arith)
                requires
                    T::footprint_spec() >= 1,
            ;
        }
        self.len.clear_spread(ptr, store);
        self.elems.clear_spread(ptr);
        proof {
            assert forall|i: u32| #![trigger old(self).elems.slot_key(i)]
                i < old(self).len_val(m0) implies !final(store)@.contains_key(
                old(self).elems.slot_key(i),
            ) by {
                assert(old(self).elems.slot_key(i) == old(self).elems.slot_key(i));
            }
            assert forall|a: nat| #![trigger store@.contains_key(a)]
                a != k && !old(self).owns_elem_cell(m0, a) implies (store@.contains_key(a)
                == m0.contains_key(a) && (m0.contains_key(a) ==> store@[a] == m0[a])) by {
                assert(mid.contains_key(a) == m0.contains_key(a) && (m0.contains_key(a)
                    ==> mid[a] == m0[a]));
            }
            assert(old(self).cleared_region_only(k, m0, store@));
        }
    }
}

impl<T: PackedLayout + SpreadLayout> Default for Vec<T> {
    /// The empty vector, as [`Vec::new`] builds it.
    fn default() -> (r: Self)
        ensures
            forall|m: Map<nat, Seq<u8>>| #[trigger] r.wf(m),
            forall|m: Map<nat, Seq<u8>>| #[trigger] r.contents(m) == Seq::<T>::empty(),
            r.unattached(),
            r.unflushed(),
    {
        Vec::new()
    }
}

/// Law: a vector never holds more than `u32::MAX` elements; the push that
/// would break this bound is excluded by [`Vec::push`]'s contract and
/// aborts at the host boundary.
pub proof fn lemma_length_bound<T: PackedLayout + SpreadLayout>(v: Vec<T>, m: Map<nat, Seq<u8>>)
    requires
        v.wf(m),
    ensures
        v.contents(m).len() <= u32::MAX,
{
}

/// Law: swapping a pair of elements and then swapping the same pair again
/// restores every element, so two equal [`Vec::swap`] calls restore every
/// observable read.
pub proof fn lemma_swap_symmetry<T>(s: Seq<T>, a: int, b: int)
    requires
        0 <= a < s.len(),
        0 <= b < s.len(),
    ensures
        ({
            let s1 = s.update(a, s[b]).update(b, s[a]);
            s1.update(a, s1[b]).update(b, s1[a]) == s
        }),
{
    let s1 = s.update(a, s[b]).update(b, s[a]);
    assert(s1.update(a, s1[b]).update(b, s1[a]) =~= s);
}

/// Law: removing the element at `n` by [`Vec::swap_remove`] leaves the same
/// sequence as [`Vec::swap`] of `n` with the last index followed by
/// [`Vec::pop`], and the popped element is the one that stood at `n`.
pub proof fn lemma_swap_remove_equivalence<T>(s: Seq<T>, n: int)
    requires
        s.len() > 0,
        0 <= n < s.len(),
    ensures
        ({
            let swapped = s.update(n, s.last()).update(s.len() - 1, s[n]);
            s.update(n, s.last()).drop_last() == swapped.drop_last() && swapped.last() == s[n]
        }),
{
    let swapped = s.update(n, s.last()).update(s.len() - 1, s[n]);
    assert(s.update(n, s.last()).drop_last() =~= swapped.drop_last());
}

/// An unattached vector never consults the store: its shape and contents are
/// the same against any store contents.
pub proof fn lemma_unattached_independent<T: PackedLayout + SpreadLayout>(
    v: Vec<T>,
    m1: Map<nat, Seq<u8>>,
)
    requires
        v.unattached(),
        v.wf(m1),
    ensures
        forall|m2: Map<nat, Seq<u8>>| #[trigger] v.wf(m2),
        forall|m2: Map<nat, Seq<u8>>| #[trigger] v.contents(m2) == v.contents(m1),
        forall|m2: Map<nat, Seq<u8>>| #[trigger] v.len_val(m2) == v.len_val(m1),
{
    assert forall|m2: Map<nat, Seq<u8>>| #[trigger] v.wf(m2) by {
        assert(v.len_opt(m2) == v.len_opt(m1));
        assert forall|i: u32| #![trigger v.elems.slot(m2, i)]
            i < v.len_val(m2) implies v.elems.slot_ok(m2, i) && v.elems.slot(m2, i)
            is Some by {
            assert(v.elems.slot(m2, i) == v.elems.slot(m1, i));
            assert(v.elems.slot_ok(m2, i) == v.elems.slot_ok(m1, i));
            assert(v.elems.slot(m1, i) is Some);
        }
    }
    assert forall|m2: Map<nat, Seq<u8>>| #[trigger] v.contents(m2) == v.contents(m1) by {
        assert forall|i: u32| true implies v.elems.slot(m2, i) == v.elems.slot(m1, i) by {}
        assert(v.contents(m2) =~= v.contents(m1));
    }
}

/// Writing `w` into the cache of slot `at` of an in-range index updates the
/// vector's contents at exactly that index.
proof fn lemma_contents_after_elem_write<T: PackedLayout + SpreadLayout>(
    v0: Vec<T>,
    vmid: Vec<T>,
    v1: Vec<T>,
    m: Map<nat, Seq<u8>>,
    at: u32,
    w: T,
)
    requires
        v0.wf(m),
        at < v0.len_val(m),
        vmid.len == v1.len,
        vmid.elems == v0.elems,
        v1.len.attached() == v0.len.attached(),
        v0.len.attached() ==> v1.len.base() == v0.len.base(),
        v1.len.wf(),
        v1.len.readable(m),
        v1.len_opt(m) == v0.len_opt(m),
        v1.elems.attached() == v0.elems.attached(),
        v0.elems.attached() ==> v1.elems.base() == v0.elems.base(),
        v1.elems.wf(),
        v1.elems.cache_at(at) == Some(Entry { value: Some(w), state: EntryState::Mutated }),
        forall|x: u32| x != at ==> v1.elems.cache_at(x) == v0.elems.cache_at(x),
    ensures
        v1.wf(m),
        v1.len_val(m) == v0.len_val(m),
        v1.contents(m) == v0.contents(m).update(at as int, w),
{
    assert forall|i: u32| #![trigger v1.elems.slot(m, i)]
        i < v1.len_val(m) implies v1.elems.slot_ok(m, i) && v1.elems.slot(m, i) is Some by {
        assert(v0.elems.slot(m, i) is Some);
        if i != at {
            assert(v1.elems.cache_at(i) == v0.elems.cache_at(i));
        }
    }
    assert forall|i: u32| i != at implies v1.elems.slot(m, i) == v0.elems.slot(m, i) by {
        assert(v1.elems.cache_at(i) == v0.elems.cache_at(i));
    }
    assert(v1.contents(m) =~= v0.contents(m).update(at as int, w));
}

/// After an operation that only read the length cell, keeping its logical
/// value and the elements untouched, the vector's shape and contents stand.
proof fn lemma_frame_len_read<T: PackedLayout + SpreadLayout>(
    v0: Vec<T>,
    v1: Vec<T>,
    m: Map<nat, Seq<u8>>,
)
    requires
        v0.wf(m),
        v1.len.attached() == v0.len.attached(),
        v0.len.attached() ==> v1.len.base() == v0.len.base(),
        v1.len.wf(),
        v1.len.readable(m),
        v1.len_opt(m) == v0.len_opt(m),
        v1.elems == v0.elems,
    ensures
        v1.wf(m),
        v1.contents(m) == v0.contents(m),
        v1.len_val(m) == v0.len_val(m),
{
    assert(v1.contents(m) =~= v0.contents(m));
}

/// After an operation that only changed the element cache at index `at`,
/// keeping that slot's logical value, the vector's shape and contents stand.
proof fn lemma_frame_after_elem_cache_change<T: PackedLayout + SpreadLayout>(
    v0: Vec<T>,
    v1: Vec<T>,
    m: Map<nat, Seq<u8>>,
    at: u32,
)
    requires
        v0.wf(m),
        v1.len.attached() == v0.len.attached(),
        v0.len.attached() ==> v1.len.base() == v0.len.base(),
        v1.len.wf(),
        v1.len.readable(m),
        v1.len_opt(m) == v0.len_opt(m),
        v1.elems.attached() == v0.elems.attached(),
        v0.elems.attached() ==> v1.elems.base() == v0.elems.base(),
        v1.elems.wf(),
        forall|x: u32| x != at ==> v1.elems.cache_at(x) == v0.elems.cache_at(x),
        v1.elems.slot(m, at) == v0.elems.slot(m, at),
        v1.elems.slot_ok(m, at),
    ensures
        v1.wf(m),
        v1.contents(m) == v0.contents(m),
        v1.len_val(m) == v0.len_val(m),
{
    assert(v1.len_opt(m) == v0.len_opt(m));
    assert forall|i: u32| #![trigger v1.elems.slot(m, i)]
        i < v1.len_val(m) implies v1.elems.slot_ok(m, i) && v1.elems.slot(m, i) is Some by {
        if i != at {
            assert(v1.elems.cache_at(i) == v0.elems.cache_at(i));
        }
        assert(v0.elems.slot(m, i) is Some);
    }
    assert forall|i: u32| true implies v1.elems.slot(m, i) == v0.elems.slot(m, i) by {
        if i != at {
            assert(v1.elems.cache_at(i) == v0.elems.cache_at(i));
        }
    }
    assert(v1.contents(m) =~= v0.contents(m));
}

} // verus!
