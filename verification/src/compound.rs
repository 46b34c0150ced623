//! Spread layouts of the compound core values: an `Option` or `Result`
//! spends its first cell on a one-byte tag and lays its payload out behind
//! it, always consuming its full footprint of the walk whatever the variant.

use vstd::prelude::*;
use crate::key::KeyPtr;
use crate::layout::{clear_cells_range, key_range, SpreadLayout};
use crate::store::CellStore;

verus! {

/// The tag payload written into a discriminant cell.
pub open spec fn tag_byte(b: u8) -> Seq<u8> {
    seq![b]
}

impl<T: SpreadLayout> SpreadLayout for Option<T> {
    open spec fn footprint_spec() -> nat {
        1 + T::footprint_spec()
    }

    fn footprint() -> u64 {
        1 + T::footprint()
    }

    open spec fn cells(&self, k: nat) -> Map<nat, Seq<u8>> {
        match self {
            Some(v) => v.cells(k + 1).insert(k, tag_byte(0)),
            None => map![k => tag_byte(1)],
        }
    }

    open spec fn dec_at(m: Map<nat, Seq<u8>>, k: nat) -> Option<Option<T>> {
        if !m.contains_key(k) {
            None
        } else if m[k] == tag_byte(1) {
            Some(None)
        } else if m[k] == tag_byte(0) {
            match T::dec_at(m, k + 1) {
                Some(v) => Some(Some(v)),
                None => None,
            }
        } else {
            None
        }
    }

    proof fn lemma_cells_dom(&self, k: nat) {
        match self {
            Some(v) => {
                v.lemma_cells_dom(k + 1);
                assert forall|a: nat| self.cells(k).dom().contains(a) implies key_range(
                    k,
                    Self::footprint_spec(),
                ).contains(a) by {
                    if a != k {
                        assert(v.cells(k + 1).dom().contains(a));
                        assert(key_range(k + 1, T::footprint_spec()).contains(a));
                    }
                }
            },
            None => {
                assert forall|a: nat| self.cells(k).dom().contains(a) implies key_range(
                    k,
                    Self::footprint_spec(),
                ).contains(a) by {
                    assert(a == k);
                }
            },
        }
    }

    proof fn lemma_round_trip(&self, k: nat, m: Map<nat, Seq<u8>>) {
        let u = m.union_prefer_right(self.cells(k));
        assert(tag_byte(0)[0] != tag_byte(1)[0]);
        match self {
            Some(v) => {
                v.lemma_cells_dom(k + 1);
                assert(!v.cells(k + 1).dom().contains(k));
                assert(self.cells(k).contains_key(k) && self.cells(k)[k] == tag_byte(0));
                assert(u.contains_key(k) && u[k] == tag_byte(0));
                let m2 = m.insert(k, tag_byte(0));
                assert(u =~= m2.union_prefer_right(v.cells(k + 1)));
                v.lemma_round_trip(k + 1, m2);
            },
            None => {
                assert(u.contains_key(k) && u[k] == tag_byte(1));
            },
        }
    }

    fn push_spread(&self, ptr: &mut KeyPtr, store: &mut CellStore) {
        let key = ptr.key;
        match self {
            Some(v) => {
                ptr.advance_by(1);
                let mut tag: Vec<u8> = Vec::new();
                tag.push(0);
                store.set(&key, tag);
                v.push_spread(ptr, store);
                proof {
                    v.lemma_cells_dom(old(ptr).key@ + 1);
                    assert(!v.cells(old(ptr).key@ + 1).dom().contains(old(ptr).key@));
                    assert(final(store)@ =~= old(store)@.union_prefer_right(
                        self.cells(old(ptr).key@),
                    ));
                }
            },
            None => {
                let mut tag: Vec<u8> = Vec::new();
                tag.push(1);
                store.set(&key, tag);
                ptr.advance_by(Self::footprint());
                proof {
                    assert(final(store)@ =~= old(store)@.union_prefer_right(
                        self.cells(old(ptr).key@),
                    ));
                }
            },
        }
    }

    fn pull_spread(ptr: &mut KeyPtr, store: &CellStore) -> (r: Option<T>) {
        let key = ptr.key;
        ptr.advance_by(1);
        let bytes = store.get(&key).unwrap();
        if bytes.len() == 1 && bytes[0] == 1 {
            proof {
                assert(bytes@ =~= tag_byte(1));
            }
            ptr.advance_by(T::footprint());
            None
        } else {
            proof {
                assert(bytes@ == store@[old(ptr).key@]);
                if bytes@.len() == 1 && bytes@[0] == 0 {
                    assert(bytes@ =~= tag_byte(0));
                } else {
                    assert(bytes@ != tag_byte(0) && bytes@ != tag_byte(1)) by {
                        if bytes@.len() == 1 {
                            assert(bytes@[0] != 1);
                        }
                    }
                    assert(false);
                }
            }
            let v = T::pull_spread(ptr, store);
            Some(v)
        }
    }

    fn clear_spread(&self, ptr: &mut KeyPtr, store: &mut CellStore) {
        let key = ptr.key;
        let fp = Self::footprint();
        ptr.advance_by(fp);
        clear_cells_range(key, fp, store);
    }
}

impl<T: SpreadLayout, E: SpreadLayout> SpreadLayout for Result<T, E> {
    open spec fn footprint_spec() -> nat {
        1 + if T::footprint_spec() >= E::footprint_spec() {
            T::footprint_spec()
        } else {
            E::footprint_spec()
        }
    }

    fn footprint() -> u64 {
        let a = T::footprint();
        let b = E::footprint();
        1 + if a >= b {
            a
        } else {
            b
        }
    }

    open spec fn cells(&self, k: nat) -> Map<nat, Seq<u8>> {
        match self {
            Ok(v) => v.cells(k + 1).insert(k, tag_byte(1)),
            Err(e) => e.cells(k + 1).insert(k, tag_byte(0)),
        }
    }

    open spec fn dec_at(m: Map<nat, Seq<u8>>, k: nat) -> Option<Result<T, E>> {
        if !m.contains_key(k) {
            None
        } else if m[k] == tag_byte(1) {
            match T::dec_at(m, k + 1) {
                Some(v) => Some(Ok(v)),
                None => None,
            }
        } else if m[k] == tag_byte(0) {
            match E::dec_at(m, k + 1) {
                Some(e) => Some(Err(e)),
                None => None,
            }
        } else {
            None
        }
    }

    proof fn lemma_cells_dom(&self, k: nat) {
        match self {
            Ok(v) => {
                v.lemma_cells_dom(k + 1);
                assert forall|a: nat| self.cells(k).dom().contains(a) implies key_range(
                    k,
                    Self::footprint_spec(),
                ).contains(a) by {
                    if a != k {
                        assert(v.cells(k + 1).dom().contains(a));
                        assert(key_range(k + 1, T::footprint_spec()).contains(a));
                    }
                }
            },
            Err(e) => {
                e.lemma_cells_dom(k + 1);
                assert forall|a: nat| self.cells(k).dom().contains(a) implies key_range(
                    k,
                    Self::footprint_spec(),
                ).contains(a) by {
                    if a != k {
                        assert(e.cells(k + 1).dom().contains(a));
                        assert(key_range(k + 1, E::footprint_spec()).contains(a));
                    }
                }
            },
        }
    }

    proof fn lemma_round_trip(&self, k: nat, m: Map<nat, Seq<u8>>) {
        let u = m.union_prefer_right(self.cells(k));
        assert(tag_byte(0)[0] != tag_byte(1)[0]);
        match self {
            Ok(v) => {
                v.lemma_cells_dom(k + 1);
                assert(!v.cells(k + 1).dom().contains(k));
                assert(u.contains_key(k) && u[k] == tag_byte(1));
                let m2 = m.insert(k, tag_byte(1));
                assert(u =~= m2.union_prefer_right(v.cells(k + 1)));
                v.lemma_round_trip(k + 1, m2);
            },
            Err(e) => {
                e.lemma_cells_dom(k + 1);
                assert(!e.cells(k + 1).dom().contains(k));
                assert(u.contains_key(k) && u[k] == tag_byte(0));
                let m2 = m.insert(k, tag_byte(0));
                assert(u =~= m2.union_prefer_right(e.cells(k + 1)));
                e.lemma_round_trip(k + 1, m2);
            },
        }
    }

    fn push_spread(&self, ptr: &mut KeyPtr, store: &mut CellStore) {
        let key = ptr.key;
        let fp = Self::footprint();
        match self {
            Ok(v) => {
                ptr.advance_by(1);
                let mut tag: Vec<u8> = Vec::new();
                tag.push(1);
                store.set(&key, tag);
                v.push_spread(ptr, store);
                ptr.advance_by(fp - 1 - T::footprint());
                proof {
                    v.lemma_cells_dom(old(ptr).key@ + 1);
                    assert(!v.cells(old(ptr).key@ + 1).dom().contains(old(ptr).key@));
                    assert(final(store)@ =~= old(store)@.union_prefer_right(
                        self.cells(old(ptr).key@),
                    ));
                }
            },
            Err(e) => {
                ptr.advance_by(1);
                let mut tag: Vec<u8> = Vec::new();
                tag.push(0);
                store.set(&key, tag);
                e.push_spread(ptr, store);
                ptr.advance_by(fp - 1 - E::footprint());
                proof {
                    e.lemma_cells_dom(old(ptr).key@ + 1);
                    assert(!e.cells(old(ptr).key@ + 1).dom().contains(old(ptr).key@));
                    assert(final(store)@ =~= old(store)@.union_prefer_right(
                        self.cells(old(ptr).key@),
                    ));
                }
            },
        }
    }

    fn pull_spread(ptr: &mut KeyPtr, store: &CellStore) -> (r: Result<T, E>) {
        let key = ptr.key;
        let fp = Self::footprint();
        ptr.advance_by(1);
        let bytes = store.get(&key).unwrap();
        proof {
            if bytes@.len() == 1 && bytes@[0] == 1 {
                assert(bytes@ =~= tag_byte(1));
            }
            if bytes@.len() == 1 && bytes@[0] == 0 {
                assert(bytes@ =~= tag_byte(0));
            }
            if !(bytes@.len() == 1 && (bytes@[0] == 0 || bytes@[0] == 1)) {
                assert(bytes@ != tag_byte(0) && bytes@ != tag_byte(1)) by {
                    if bytes@.len() == 1 {
                    }
                }
                assert(false);
            }
        }
        if bytes.len() == 1 && bytes[0] == 1 {
            let v = T::pull_spread(ptr, store);
            ptr.advance_by(fp - 1 - T::footprint());
            Ok(v)
        } else {
            let e = E::pull_spread(ptr, store);
            ptr.advance_by(fp - 1 - E::footprint());
            Err(e)
        }
    }

    fn clear_spread(&self, ptr: &mut KeyPtr, store: &mut CellStore) {
        let key = ptr.key;
        let fp = Self::footprint();
        ptr.advance_by(fp);
        clear_cells_range(key, fp, store);
    }
}

/// A boxed value is laid out exactly as its contents: the box is
/// transparent to the layout protocol.
impl<T: SpreadLayout> SpreadLayout for Box<T> {
    open spec fn footprint_spec() -> nat {
        T::footprint_spec()
    }

    fn footprint() -> u64 {
        T::footprint()
    }

    open spec fn cells(&self, k: nat) -> Map<nat, Seq<u8>> {
        (**self).cells(k)
    }

    open spec fn dec_at(m: Map<nat, Seq<u8>>, k: nat) -> Option<Box<T>> {
        match T::dec_at(m, k) {
            Some(v) => Some(Box::new(v)),
            None => None,
        }
    }

    proof fn lemma_cells_dom(&self, k: nat) {
        (**self).lemma_cells_dom(k);
    }

    proof fn lemma_round_trip(&self, k: nat, m: Map<nat, Seq<u8>>) {
        (**self).lemma_round_trip(k, m);
    }

    fn push_spread(&self, ptr: &mut KeyPtr, store: &mut CellStore) {
        (**self).push_spread(ptr, store);
    }

    fn pull_spread(ptr: &mut KeyPtr, store: &CellStore) -> (r: Box<T>) {
        Box::new(T::pull_spread(ptr, store))
    }

    fn clear_spread(&self, ptr: &mut KeyPtr, store: &mut CellStore) {
        (**self).clear_spread(ptr, store);
    }
}

} // verus!
