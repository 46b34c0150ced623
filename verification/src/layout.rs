//! The layout protocol: how a value occupies cells of the store.
//!
//! A `PackedLayout` type fits one cell: it has a canonical byte payload. A
//! `SpreadLayout` type occupies a contiguous range of `footprint` cells
//! starting at a cursor, and its operations advance the cursor by exactly
//! that footprint whatever the value.

use vstd::prelude::*;
use crate::key::{key_space, Key, KeyPtr};
use crate::store::{saturate_inc, CellStore};

verus! {

/// The set of key values in `[k, k + n)`.
pub open spec fn key_range(k: nat, n: nat) -> Set<nat> {
    Set::new(|a: nat| k <= a < k + n)
}

/// A value that serialises into the payload of a single cell.
pub trait PackedLayout: Sized {
    /// The canonical payload of this value.
    spec fn enc(&self) -> Seq<u8>;

    /// The value a payload stands for, if it is a canonical payload.
    spec fn dec(bytes: Seq<u8>) -> Option<Self>;

    /// Law: decoding a canonical payload yields the value back.
    proof fn lemma_enc_dec(v: Self)
        ensures
            Self::dec(v.enc()) == Some(v),
    ;

    /// Law: only canonical payloads decode, so equal payloads mean equal
    /// values.
    proof fn lemma_dec_enc(bytes: Seq<u8>)
        ensures
            Self::dec(bytes) matches Some(w) ==> w.enc() == bytes,
    ;

    /// Serialises the value into a cell payload.
    fn encode(&self) -> (r: Vec<u8>)
        ensures
            r@ == self.enc(),
    ;

    /// Deserialises a cell payload; a non-canonical payload is rejected.
    fn decode(bytes: &[u8]) -> (r: Option<Self>)
        ensures
            r == Self::dec(bytes@),
    ;
}

/// A value that occupies `footprint` contiguous cells starting at a cursor.
pub trait SpreadLayout: Sized {
    /// The number of contiguous cells the spread layout occupies.
    spec fn footprint_spec() -> nat;

    /// The footprint as a machine word.
    fn footprint() -> (r: u64)
        requires
            Self::footprint_spec() <= 0x1_0000_0000,
        ensures
            1 <= r,
            r as nat == Self::footprint_spec(),
    ;

    /// The cells `push_spread` writes for this value at base key `k`.
    spec fn cells(&self, k: nat) -> Map<nat, Seq<u8>>;

    /// The value the region based at `k` holds, if any.
    spec fn dec_at(m: Map<nat, Seq<u8>>, k: nat) -> Option<Self>;

    /// Law: a push at `k` touches only the keys in `[k, k + footprint)`.
    proof fn lemma_cells_dom(&self, k: nat)
        ensures
            self.cells(k).dom() <= key_range(k, Self::footprint_spec()),
    ;

    /// Law: after pushing a value at `k` over any store contents, the region
    /// at `k` reads back as exactly that value.
    proof fn lemma_round_trip(&self, k: nat, m: Map<nat, Seq<u8>>)
        ensures
            Self::dec_at(m.union_prefer_right(self.cells(k)), k) == Some(*self),
    ;

    /// Writes the value into the cells at the cursor and advances the cursor
    /// by exactly the footprint.
    fn push_spread(&self, ptr: &mut KeyPtr, store: &mut CellStore)
        requires
            Self::footprint_spec() <= 0x1_0000_0000,
            old(ptr).key@ + Self::footprint_spec() < key_space(),
            old(store).wf(),
        ensures
            final(store).wf(),
            final(ptr).key@ == old(ptr).key@ + Self::footprint_spec(),
            final(store)@ == old(store)@.union_prefer_right(self.cells(old(ptr).key@)),
            old(store).writes() <= final(store).writes(),
    ;

    /// Reads the value held by the region at the cursor and advances the
    /// cursor by exactly the footprint.
    fn pull_spread(ptr: &mut KeyPtr, store: &CellStore) -> (r: Self)
        requires
            Self::footprint_spec() <= 0x1_0000_0000,
            old(ptr).key@ + Self::footprint_spec() < key_space(),
            store.wf(),
            Self::dec_at(store@, old(ptr).key@) is Some,
        ensures
            final(ptr).key@ == old(ptr).key@ + Self::footprint_spec(),
            Self::dec_at(store@, old(ptr).key@) == Some(r),
    ;

    /// Deletes every cell of the region at the cursor and advances the
    /// cursor by exactly the footprint.
    fn clear_spread(&self, ptr: &mut KeyPtr, store: &mut CellStore)
        requires
            Self::footprint_spec() <= 0x1_0000_0000,
            old(ptr).key@ + Self::footprint_spec() < key_space(),
            old(store).wf(),
        ensures
            final(store).wf(),
            final(ptr).key@ == old(ptr).key@ + Self::footprint_spec(),
            final(store)@ == old(store)@.remove_keys(
                key_range(old(ptr).key@, Self::footprint_spec()),
            ),
            old(store).writes() <= final(store).writes(),
    ;
}

impl KeyPtr {
    /// Returns the current key, then advances the cursor by the footprint of
    /// `X`.
    pub fn next_for<X: SpreadLayout>(&mut self) -> (r: Key)
        requires
            X::footprint_spec() <= 0x1_0000_0000,
            old(self).key@ + X::footprint_spec() < key_space(),
        ensures
            r == old(self).key,
            final(self).key@ == old(self).key@ + X::footprint_spec(),
    {
        let key = self.key;
        self.advance_by(X::footprint());
        key
    }
}

/// The one cell a packed value occupies at key `k`.
pub open spec fn packed_cells<T: PackedLayout>(v: T, k: nat) -> Map<nat, Seq<u8>> {
    map![k => v.enc()]
}

/// The packed value held by the cell at key `k`, if any.
pub open spec fn packed_dec_at<T: PackedLayout>(m: Map<nat, Seq<u8>>, k: nat) -> Option<T> {
    if m.contains_key(k) {
        T::dec(m[k])
    } else {
        None
    }
}

/// A packed push touches only the cell at `k`.
pub proof fn lemma_packed_cells_dom<T: PackedLayout>(v: T, k: nat)
    ensures
        packed_cells(v, k).dom() <= key_range(k, 1),
{
    assert forall|a: nat| packed_cells(v, k).dom().contains(a) implies key_range(
        k,
        1,
    ).contains(a) by {
        assert(a == k);
    }
}

/// Pushing a packed value and reading the cell back yields the value.
pub proof fn lemma_packed_round_trip<T: PackedLayout>(v: T, k: nat, m: Map<nat, Seq<u8>>)
    ensures
        packed_dec_at::<T>(m.union_prefer_right(packed_cells(v, k)), k) == Some(v),
{
    let u = m.union_prefer_right(packed_cells(v, k));
    assert(packed_cells(v, k).contains_key(k));
    assert(u.contains_key(k) && u[k] == v.enc());
    T::lemma_enc_dec(v);
}

/// Writes a packed value into the cell at the cursor and advances by one.
pub fn forward_push_packed<T: PackedLayout>(v: &T, ptr: &mut KeyPtr, store: &mut CellStore)
    requires
        old(ptr).key@ + 1 < key_space(),
        old(store).wf(),
    ensures
        final(store).wf(),
        final(ptr).key@ == old(ptr).key@ + 1,
        final(store)@ == old(store)@.union_prefer_right(packed_cells(*v, old(ptr).key@)),
        final(store).writes() == saturate_inc(old(store).writes()),
        old(store).writes() <= final(store).writes(),
{
    let key = ptr.key;
    ptr.advance_by(1);
    store.set(&key, v.encode());
    proof {
        assert(final(store)@ =~= old(store)@.union_prefer_right(
            packed_cells(*v, old(ptr).key@),
        ));
    }
}

/// Reads the packed value of the cell at the cursor and advances by one.
pub fn forward_pull_packed<T: PackedLayout>(ptr: &mut KeyPtr, store: &CellStore) -> (r: T)
    requires
        old(ptr).key@ + 1 < key_space(),
        store.wf(),
        packed_dec_at::<T>(store@, old(ptr).key@) is Some,
    ensures
        final(ptr).key@ == old(ptr).key@ + 1,
        packed_dec_at::<T>(store@, old(ptr).key@) == Some(r),
{
    let key = ptr.key;
    ptr.advance_by(1);
    let bytes = store.get(&key).unwrap();
    T::decode(bytes.as_slice()).unwrap()
}

/// Deletes the cell at the cursor and advances by one.
pub fn forward_clear_packed<T: PackedLayout>(v: &T, ptr: &mut KeyPtr, store: &mut CellStore)
    requires
        old(ptr).key@ + 1 < key_space(),
        old(store).wf(),
    ensures
        final(store).wf(),
        final(ptr).key@ == old(ptr).key@ + 1,
        final(store)@ == old(store)@.remove_keys(key_range(old(ptr).key@, 1)),
        final(store).writes() == saturate_inc(old(store).writes()),
        old(store).writes() <= final(store).writes(),
{
    let key = ptr.key;
    ptr.advance_by(1);
    store.clear(&key);
    proof {
        assert(final(store)@ =~= old(store)@.remove_keys(key_range(old(ptr).key@, 1)));
    }
}

/// Whether two packed values are equal, decided through their canonical
/// payloads: equal payloads mean equal values.
pub fn packed_value_eq<T: PackedLayout>(a: &T, b: &T) -> (r: bool)
    ensures
        r == (a == b),
{
    let ea = a.encode();
    let eb = b.encode();
    proof {
        T::lemma_enc_dec(*a);
        T::lemma_enc_dec(*b);
    }
    if ea.len() != eb.len() {
        proof {
            assert(a.enc() != b.enc());
        }
        return false;
    }
    let n = ea.len();
    let mut i: usize = 0;
    while i < n
        invariant
            i <= n,
            n == ea@.len(),
            n == eb@.len(),
            ea@ == a.enc(),
            eb@ == b.enc(),
            forall|j: int| 0 <= j < i ==> ea@[j] == eb@[j],
        decreases n - i,
    {
        if ea[i] != eb[i] {
            proof {
                assert(a.enc()[i as int] != b.enc()[i as int]);
            }
            return false;
        }
        i += 1;
    }
    proof {
        assert(a.enc() =~= b.enc());
        assert(T::dec(a.enc()) == T::dec(b.enc()));
    }
    true
}

/// Deletes the `n` cells `[base, base + n)` and advances the cursor by `n`.
pub fn clear_cells_range(base: Key, n: u64, store: &mut CellStore)
    requires
        base@ + n < key_space(),
        old(store).wf(),
    ensures
        final(store).wf(),
        final(store)@ == old(store)@.remove_keys(key_range(base@, n as nat)),
        old(store).writes() <= final(store).writes(),
{
    let mut i: u64 = 0;
    let mut k = base;
    while i < n
        invariant
            i <= n,
            base@ + n < key_space(),
            k@ == base@ + i,
            store.wf(),
            store@ == old(store)@.remove_keys(key_range(base@, i as nat)),
            old(store).writes() <= store.writes(),
        decreases n - i,
    {
        store.clear(&k);
        k = k.add_u64(1);
        i += 1;
        proof {
            assert(store@ =~= old(store)@.remove_keys(key_range(base@, i as nat)));
        }
    }
}

} // verus!
