//! The host cell store, modelled in memory: a mapping from 256-bit keys to
//! byte payloads, together with a counter of the writes issued against it.

use vstd::prelude::*;
use crate::key::Key;

verus! {

/// The mathematical contents of an association list of cells.
pub open spec fn cells_map(s: Seq<(Key, Vec<u8>)>) -> Map<nat, Seq<u8>>
    decreases s.len(),
{
    if s.len() == 0 {
        Map::empty()
    } else {
        cells_map(s.drop_last()).insert(s.last().0@, s.last().1@)
    }
}

/// No two entries of the list address the same cell.
pub open spec fn keys_distinct(s: Seq<(Key, Vec<u8>)>) -> bool {
    forall|i: int, j: int| 0 <= i < j < s.len() ==> s[i].0@ != s[j].0@
}

/// Two keys are structurally equal exactly when their values agree.
pub proof fn lemma_key_value_injective(a: Key, b: Key)
    ensures
        (a@ == b@) <==> (a == b),
{
    if a@ == b@ {
        let c: nat = crate::key::limb_base();
        let xa: nat = a.w1 as nat + c * (a.w2 as nat + c * a.w3 as nat);
        let xb: nat = b.w1 as nat + c * (b.w2 as nat + c * b.w3 as nat);
        assert(a.w0 == b.w0 && xa == xb) by (nonlinear_arith)
            requires
                a.w0 as nat + c * xa == b.w0 as nat + c * xb,
                a.w0 < c,
                b.w0 < c,
        ;
        let ya: nat = a.w2 as nat + c * a.w3 as nat;
        let yb: nat = b.w2 as nat + c * b.w3 as nat;
        assert(a.w1 == b.w1 && ya == yb) by (nonlinear_arith)
            requires
                a.w1 as nat + c * ya == b.w1 as nat + c * yb,
                a.w1 < c,
                b.w1 < c,
        ;
        assert(a.w2 == b.w2 && a.w3 == b.w3) by (nonlinear_arith)
            requires
                a.w2 as nat + c * a.w3 as nat == b.w2 as nat + c * b.w3 as nat,
                a.w2 < c,
                b.w2 < c,
        ;
    }
}

/// A cell with the given key value stands in the list exactly when the map
/// contains that key.
pub proof fn lemma_cells_map_contains(s: Seq<(Key, Vec<u8>)>, k: nat)
    ensures
        cells_map(s).contains_key(k) <==> exists|i: int| 0 <= i < s.len() && s[i].0@ == k,
    decreases s.len(),
{
    if s.len() > 0 {
        lemma_cells_map_contains(s.drop_last(), k);
        let d = s.drop_last();
        assert(forall|i: int| 0 <= i < d.len() ==> d[i] == s[i]);
        if cells_map(s).contains_key(k) {
            if s.last().0@ == k {
                assert(s[s.len() - 1].0@ == k);
            } else {
                let i = choose|i: int| 0 <= i < d.len() && d[i].0@ == k;
                assert(s[i].0@ == k);
            }
        }
        if exists|i: int| 0 <= i < s.len() && s[i].0@ == k {
            let i = choose|i: int| 0 <= i < s.len() && s[i].0@ == k;
            if i < s.len() - 1 {
                assert(d[i].0@ == k);
            }
        }
    }
}

/// With distinct keys, the map sends each listed key value to its payload.
pub proof fn lemma_cells_map_index(s: Seq<(Key, Vec<u8>)>, i: int)
    requires
        keys_distinct(s),
        0 <= i < s.len(),
    ensures
        cells_map(s).contains_key(s[i].0@),
        cells_map(s)[s[i].0@] == s[i].1@,
    decreases s.len(),
{
    let d = s.drop_last();
    assert(forall|j: int| 0 <= j < d.len() ==> d[j] == s[j]);
    if i == s.len() - 1 {
    } else {
        lemma_cells_map_index(d, i);
        assert(s.last().0@ != s[i].0@);
    }
}

/// Removing a listed cell removes exactly its key from the map.
pub proof fn lemma_cells_map_remove(s: Seq<(Key, Vec<u8>)>, i: int)
    requires
        keys_distinct(s),
        0 <= i < s.len(),
    ensures
        cells_map(s.remove(i)) == cells_map(s).remove(s[i].0@),
    decreases s.len(),
{
    let d = s.drop_last();
    let k = s[i].0@;
    assert(forall|j: int| 0 <= j < d.len() ==> d[j] == s[j]);
    if i == s.len() - 1 {
        assert(s.remove(i) =~= d);
        lemma_cells_map_contains(d, k);
        assert(!cells_map(d).contains_key(k));
        assert(cells_map(d) =~= cells_map(s).remove(k));
    } else {
        lemma_cells_map_remove(d, i);
        assert(s.remove(i).drop_last() =~= d.remove(i));
        assert(s.remove(i).last() == s.last());
        assert(s.remove(i).len() == s.len() - 1);
        assert(cells_map(s.remove(i)) == cells_map(d.remove(i)).insert(s.last().0@, s.last().1@));
        assert(s.last().0@ != k);
        assert(cells_map(d.remove(i)).insert(s.last().0@, s.last().1@) =~= cells_map(s).remove(
            k,
        ));
    }
}

/// The host cell store: an in-memory mapping from 256-bit keys to byte
/// payloads. Its view is the mapping from key values to the payloads of the
/// present cells; `writes()` counts the writes and clears issued so far,
/// saturating at `u64::MAX`.
pub struct CellStore {
    cells: Vec<(Key, Vec<u8>)>,
    writes: u64,
}

impl View for CellStore {
    type V = Map<nat, Seq<u8>>;

    closed spec fn view(&self) -> Map<nat, Seq<u8>> {
        cells_map(self.cells@)
    }
}

impl CellStore {
    /// The store's internal representation is sound: no key is listed twice.
    pub closed spec fn wf(self) -> bool {
        keys_distinct(self.cells@)
    }

    /// How many writes (sets and clears) were issued, saturating at
    /// `u64::MAX`.
    pub closed spec fn writes(self) -> nat {
        self.writes as nat
    }

    /// An empty store that has seen no writes.
    pub fn new() -> (r: CellStore)
        ensures
            r.wf(),
            r@ == Map::<nat, Seq<u8>>::empty(),
            r.writes() == 0,
    {
        CellStore { cells: Vec::new(), writes: 0 }
    }

    /// Reports the number of writes issued so far (saturating).
    pub fn write_count(&self) -> (r: u64)
        ensures
            r as nat == self.writes(),
    {
        self.writes
    }

    /// The position of the cell with the given key, if present.
    fn find(&self, key: &Key) -> (r: Option<usize>)
        requires
            self.wf(),
        ensures
            match r {
                Some(i) => i < self.cells@.len() && self.cells@[i as int].0@ == key@,
                None => !self@.contains_key(key@),
            },
    {
        let n = self.cells.len();
        let mut i: usize = 0;
        while i < n
            invariant
                n == self.cells@.len(),
                i <= n,
                forall|j: int| 0 <= j < i ==> self.cells@[j].0@ != key@,
            decreases n - i,
        {
            let cand = self.cells[i].0;
            proof {
                lemma_key_value_injective(cand, *key);
            }
            if cand == *key {
                return Some(i);
            }
            i += 1;
        }
        proof {
            lemma_cells_map_contains(self.cells@, key@);
        }
        None
    }

    /// Whether the cell at the given key is present.
    pub fn contains(&self, key: &Key) -> (r: bool)
        requires
            self.wf(),
        ensures
            r == self@.contains_key(key@),
    {
        proof {
            lemma_cells_map_contains(self.cells@, key@);
        }
        match self.find(key) {
            Some(i) => {
                proof {
                    lemma_cells_map_index(self.cells@, i as int);
                }
                true
            },
            None => false,
        }
    }

    /// Reads the payload of the cell at the given key, if the cell is
    /// present.
    pub fn get(&self, key: &Key) -> (r: Option<&Vec<u8>>)
        requires
            self.wf(),
        ensures
            match r {
                Some(v) => self@.contains_key(key@) && v@ == self@[key@],
                None => !self@.contains_key(key@),
            },
    {
        match self.find(key) {
            Some(i) => {
                proof {
                    lemma_cells_map_index(self.cells@, i as int);
                }
                Some(&self.cells[i].1)
            },
            None => None,
        }
    }

    /// Writes the payload of the cell at the given key, creating or
    /// overwriting it, and counts one write.
    pub fn set(&mut self, key: &Key, value: Vec<u8>)
        requires
            old(self).wf(),
        ensures
            final(self).wf(),
            final(self)@ == old(self)@.insert(key@, value@),
            final(self).writes() == saturate_inc(old(self).writes()),
            old(self).writes() <= final(self).writes(),
    {
        let ghost s0 = self.cells@;
        match self.find(key) {
            Some(i) => {
                proof {
                    lemma_cells_map_remove(s0, i as int);
                }
                self.cells.remove(i);
                proof {
                    assert(keys_distinct(self.cells@)) by {
                        assert(forall|a: int, b: int|
                            0 <= a < b < self.cells@.len() ==> #[trigger] self.cells@[a].0@
                                != #[trigger] self.cells@[b].0@) by {
                            assert(forall|a: int|
                                0 <= a < self.cells@.len() ==> #[trigger] self.cells@[a] == (
                                if a < i {
                                    s0[a]
                                } else {
                                    s0[a + 1]
                                }));
                        }
                    }
                }
            },
            None => {
                proof {
                    lemma_cells_map_contains(s0, key@);
                }
            },
        }
        let ghost s1 = self.cells@;
        proof {
            lemma_cells_map_contains(s1, key@);
            assert(!cells_map(s1).contains_key(key@));
        }
        self.cells.push((*key, value));
        self.writes = self.writes.saturating_add(1);
        proof {
            assert(self.cells@.drop_last() =~= s1);
            assert(keys_distinct(self.cells@)) by {
                lemma_cells_map_contains(s1, key@);
                assert(forall|j: int|
                    0 <= j < s1.len() ==> #[trigger] self.cells@[j] == s1[j]);
                assert(forall|j: int| 0 <= j < s1.len() ==> s1[j].0@ != key@) by {
                    lemma_cells_map_contains(s1, key@);
                }
            }
            assert(final(self)@ =~= old(self)@.insert(key@, value@));
        }
    }

    /// Deletes the cell at the given key if present, and counts one write.
    pub fn clear(&mut self, key: &Key)
        requires
            old(self).wf(),
        ensures
            final(self).wf(),
            final(self)@ == old(self)@.remove(key@),
            final(self).writes() == saturate_inc(old(self).writes()),
            old(self).writes() <= final(self).writes(),
    {
        let ghost s0 = self.cells@;
        match self.find(key) {
            Some(i) => {
                proof {
                    lemma_cells_map_remove(s0, i as int);
                }
                self.cells.remove(i);
                proof {
                    assert(keys_distinct(self.cells@)) by {
                        assert(forall|a: int|
                            0 <= a < self.cells@.len() ==> #[trigger] self.cells@[a] == (
                            if a < i {
                                s0[a]
                            } else {
                                s0[a + 1]
                            }));
                    }
                }
            },
            None => {
                proof {
                    assert(old(self)@ =~= old(self)@.remove(key@));
                }
            },
        }
        self.writes = self.writes.saturating_add(1);
    }
}

/// One more write, saturating at `u64::MAX`.
pub open spec fn saturate_inc(w: nat) -> nat {
    if w + 1 > u64::MAX {
        u64::MAX as nat
    } else {
        w + 1
    }
}

} // verus!
