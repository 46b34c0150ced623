//! The entry cache of a lazy primitive: the set of slots that have been
//! loaded or written, each carrying an [`Entry`].

use vstd::prelude::*;
use crate::entry::{Entry, EntryState};
use crate::key::{key_space, Key};
use crate::layout::PackedLayout;
use crate::store::CellStore;

verus! {

/// The entry cached for slot `at`, if any: the first match in the list.
pub open spec fn cache_find<T>(s: Seq<(u32, Entry<T>)>, at: u32) -> Option<Entry<T>>
    decreases s.len(),
{
    if s.len() == 0 {
        None
    } else if s[0].0 == at {
        Some(s[0].1)
    } else {
        cache_find(s.drop_first(), at)
    }
}

/// No slot index is listed twice.
pub open spec fn idx_distinct<T>(s: Seq<(u32, Entry<T>)>) -> bool {
    forall|i: int, j: int| 0 <= i < j < s.len() ==> s[i].0 != s[j].0
}

/// A found entry stands in the list; a miss means no occurrence at all.
pub proof fn lemma_find_index<T>(s: Seq<(u32, Entry<T>)>, at: u32)
    ensures
        match cache_find(s, at) {
            Some(e) => exists|j: int| 0 <= j < s.len() && s[j] == (at, e),
            None => forall|j: int| 0 <= j < s.len() ==> s[j].0 != at,
        },
    decreases s.len(),
{
    if s.len() > 0 && s[0].0 != at {
        let d = s.drop_first();
        lemma_find_index(d, at);
        assert(cache_find(s, at) == cache_find(d, at));
        match cache_find(s, at) {
            Some(e) => {
                assert(cache_find(d, at) == Some(e));
                assert(exists|j: int| 0 <= j < d.len() && d[j] == (at, e));
                let jd = choose|j: int| 0 <= j < d.len() && d[j] == (at, e);
                assert(d[jd] == s[jd + 1]);
                assert(s[jd + 1] == (at, e));
            },
            None => {
                assert forall|j: int| 0 <= j < s.len() implies s[j].0 != at by {
                    if j > 0 {
                        assert(d[j - 1] == s[j]);
                    }
                }
            },
        }
    }
}

/// With distinct indices, lookup of a listed index yields its entry.
pub proof fn lemma_index_find<T>(s: Seq<(u32, Entry<T>)>, i: int)
    requires
        idx_distinct(s),
        0 <= i < s.len(),
    ensures
        cache_find(s, s[i].0) == Some(s[i].1),
    decreases s.len(),
{
    if i > 0 {
        let d = s.drop_first();
        assert(forall|j: int| 0 <= j < d.len() ==> d[j] == s[j + 1]);
        assert(s[0].0 != s[i].0);
        lemma_index_find(d, i - 1);
    }
}

/// Removing position `i` removes exactly index `s[i].0` from the lookup.
pub proof fn lemma_find_remove<T>(s: Seq<(u32, Entry<T>)>, i: int, x: u32)
    requires
        idx_distinct(s),
        0 <= i < s.len(),
    ensures
        cache_find(s.remove(i), x) == if x == s[i].0 {
            None::<Entry<T>>
        } else {
            cache_find(s, x)
        },
    decreases s.len(),
{
    let t = s.remove(i);
    let d = s.drop_first();
    assert(forall|j: int| 0 <= j < d.len() ==> d[j] == s[j + 1]);
    if i == 0 {
        assert(t =~= d);
        if x == s[0].0 {
            lemma_find_index(d, x);
            if cache_find(d, x) is Some {
                let j = choose|j: int| 0 <= j < d.len() && d[j] == (x, cache_find(d, x).unwrap());
                assert(s[j + 1].0 == x);
                assert(false);
            }
        }
    } else {
        if s[0].0 == x {
            assert(t[0] == s[0]);
        } else {
            lemma_find_remove(d, i - 1, x);
            assert(t.drop_first() =~= d.remove(i - 1));
            assert(t[0] == s[0]);
        }
    }
}

/// Appending a new index adds exactly that index to the lookup.
pub proof fn lemma_find_push<T>(s: Seq<(u32, Entry<T>)>, at: u32, e: Entry<T>, x: u32)
    requires
        cache_find(s, at) is None,
    ensures
        cache_find(s.push((at, e)), x) == if x == at {
            Some(e)
        } else {
            cache_find(s, x)
        },
    decreases s.len(),
{
    let t = s.push((at, e));
    if s.len() == 0 {
        assert(t[0] == (at, e));
        if x != at {
            assert(t.drop_first() =~= Seq::<(u32, Entry<T>)>::empty());
        }
    } else {
        assert(t[0] == s[0]);
        assert(s[0].0 != at);
        if x == s[0].0 {
        } else {
            lemma_find_push(s.drop_first(), at, e, x);
            assert(t.drop_first() =~= s.drop_first().push((at, e)));
        }
    }
}

/// Distinctness survives appending an index that is not yet listed.
pub proof fn lemma_distinct_push<T>(s: Seq<(u32, Entry<T>)>, at: u32, e: Entry<T>)
    requires
        idx_distinct(s),
        cache_find(s, at) is None,
    ensures
        idx_distinct(s.push((at, e))),
{
    let t = s.push((at, e));
    lemma_find_index(s, at);
    assert forall|i: int, j: int| 0 <= i < j < t.len() implies t[i].0 != t[j].0 by {
        if j < s.len() {
            assert(t[i] == s[i] && t[j] == s[j]);
        } else {
            assert(t[i] == s[i] && t[j] == (at, e));
        }
    }
}

/// Distinctness survives removal.
pub proof fn lemma_distinct_remove<T>(s: Seq<(u32, Entry<T>)>, i: int)
    requires
        idx_distinct(s),
        0 <= i < s.len(),
    ensures
        idx_distinct(s.remove(i)),
{
    let t = s.remove(i);
    assert forall|a: int, b: int| 0 <= a < b < t.len() implies t[a].0 != t[b].0 by {
        assert(t[a] == if a < i {
            s[a]
        } else {
            s[a + 1]
        });
        assert(t[b] == if b < i {
            s[b]
        } else {
            s[b + 1]
        });
    }
}

/// Updating position `i` in place changes exactly its index's lookup.
pub proof fn lemma_find_update<T>(s: Seq<(u32, Entry<T>)>, i: int, e2: Entry<T>, x: u32)
    requires
        idx_distinct(s),
        0 <= i < s.len(),
    ensures
        cache_find(s.update(i, (s[i].0, e2)), x) == if x == s[i].0 {
            Some(e2)
        } else {
            cache_find(s, x)
        },
    decreases s.len(),
{
    let t = s.update(i, (s[i].0, e2));
    let d = s.drop_first();
    assert(forall|j: int| 0 <= j < d.len() ==> d[j] == s[j + 1]);
    if i == 0 {
        assert(t[0] == (s[0].0, e2));
        if x != s[0].0 {
            assert(t.drop_first() =~= d);
        }
    } else {
        assert(t[0] == s[0]);
        assert(s[0].0 != s[i].0);
        if x == s[0].0 {
        } else {
            lemma_find_update(d, i - 1, e2, x);
            assert(t.drop_first() =~= d.update(i - 1, (d[i - 1].0, e2)));
        }
    }
}

/// Lookup in a slot list whose entries were all marked preserved, values
/// kept, mirrors lookup in the list before the marking.
pub proof fn lemma_find_preserved<T>(s1: Seq<(u32, Entry<T>)>, s2: Seq<(u32, Entry<T>)>, x: u32)
    requires
        s1.len() == s2.len(),
        forall|j: int| #![trigger s1[j]]
            0 <= j < s1.len() ==> s2[j].0 == s1[j].0 && s2[j].1.value == s1[j].1.value
                && s2[j].1.state == EntryState::Preserved,
    ensures
        cache_find(s2, x) == match cache_find(s1, x) {
            Some(e) => Some(Entry { value: e.value, state: EntryState::Preserved }),
            None => None::<Entry<T>>,
        },
    decreases s1.len(),
{
    if s1.len() > 0 {
        assert(s1[0] == s1[0]);
        if s1[0].0 == x {
            assert(s2[0].1 == Entry { value: s1[0].1.value, state: EntryState::Preserved });
        } else {
            let d1 = s1.drop_first();
            let d2 = s2.drop_first();
            assert(forall|j: int| #![trigger d1[j]]
                0 <= j < d1.len() ==> d1[j] == s1[j + 1] && d2[j] == s2[j + 1]);
            lemma_find_preserved(d1, d2, x);
        }
    }
}

/// The key of slot `idx`, `base + idx * fp`, with slot spacing `fp`.
pub open spec fn slot_key_at(base: nat, fp: nat, idx: u32) -> nat {
    base + idx as nat * fp
}

/// Distinct slot indices occupy distinct cells.
pub proof fn lemma_slot_key_injective(base: nat, fp: nat, i1: u32, i2: u32)
    requires
        fp >= 1,
        i1 != i2,
    ensures
        slot_key_at(base, fp, i1) != slot_key_at(base, fp, i2),
{
    assert(i1 as nat * fp != i2 as nat * fp) by (nonlinear_arith)
        requires
            fp >= 1,
            i1 as nat != i2 as nat,
    ;
}

/// Some cached mutated slot of `s` is backed by the cell at key value `a`.
pub open spec fn writes_key<T>(s: Seq<(u32, Entry<T>)>, base: nat, fp: nat, a: nat) -> bool {
    exists|j: int|
        0 <= j < s.len() && s[j].1.state == EntryState::Mutated && a == slot_key_at(
            base,
            fp,
            s[j].0,
        )
}

/// Instantiates [`untouched_outside`] at one key value.
pub proof fn lemma_untouched_at<T>(
    s: Seq<(u32, Entry<T>)>,
    base: nat,
    fp: nat,
    m0: Map<nat, Seq<u8>>,
    m1: Map<nat, Seq<u8>>,
    a: nat,
)
    requires
        untouched_outside(s, base, fp, m0, m1),
        !writes_key(s, base, fp, a),
    ensures
        m1.contains_key(a) == m0.contains_key(a),
        m0.contains_key(a) ==> m1[a] == m0[a],
{
    assert(m1.contains_key(a) == m0.contains_key(a) && (m0.contains_key(a) ==> m1[a]
        == m0[a]));
}

/// Outside the cells backing the mutated slots of `s`, store contents `m1`
/// agree with `m0`.
pub open spec fn untouched_outside<T>(
    s: Seq<(u32, Entry<T>)>,
    base: nat,
    fp: nat,
    m0: Map<nat, Seq<u8>>,
    m1: Map<nat, Seq<u8>>,
) -> bool {
    forall|a: nat| #![trigger m1.contains_key(a)]
        !writes_key(s, base, fp, a) ==> (m1.contains_key(a) == m0.contains_key(a) && (
        m0.contains_key(a) ==> m1[a] == m0[a]))
}

/// The cache of a lazy primitive: the slots loaded or written so far.
pub struct EntryCache<T> {
    slots: Vec<(u32, Entry<T>)>,
}

impl<T> EntryCache<T> {
    /// The representation lists no slot twice.
    pub open spec fn wf(self) -> bool {
        idx_distinct(self.slots_spec())
    }

    /// The raw slot list.
    pub closed spec fn slots_spec(self) -> Seq<(u32, Entry<T>)> {
        self.slots@
    }

    /// The entry cached for slot `at`, if any.
    pub open spec fn entry_at(self, at: u32) -> Option<Entry<T>> {
        cache_find(self.slots_spec(), at)
    }

    /// An empty cache.
    pub fn new() -> (r: EntryCache<T>)
        ensures
            r.wf(),
            r.slots_spec() == Seq::<(u32, Entry<T>)>::empty(),
            forall|x: u32| r.entry_at(x) is None,
    {
        EntryCache { slots: Vec::new() }
    }

    /// The position of slot `at` in the list, if cached.
    fn position(&self, at: u32) -> (r: Option<usize>)
        requires
            self.wf(),
        ensures
            match r {
                Some(i) => i < self.slots_spec().len() && self.slots_spec()[i as int].0 == at
                    && self.entry_at(at) == Some(self.slots_spec()[i as int].1),
                None => self.entry_at(at) is None,
            },
    {
        let n = self.slots.len();
        let mut i: usize = 0;
        while i < n
            invariant
                self.wf(),
                n == self.slots_spec().len(),
                i <= n,
                forall|j: int| 0 <= j < i ==> self.slots_spec()[j].0 != at,
            decreases n - i,
        {
            if self.slots[i].0 == at {
                proof {
                    lemma_index_find(self.slots@, i as int);
                }
                return Some(i);
            }
            i += 1;
        }
        proof {
            lemma_find_index(self.slots@, at);
        }
        None
    }

    /// Whether slot `at` is cached.
    pub fn is_cached(&self, at: u32) -> (r: bool)
        requires
            self.wf(),
        ensures
            r == (self.entry_at(at) is Some),
    {
        match self.position(at) {
            Some(_) => true,
            None => false,
        }
    }

    /// Caches an entry for a slot that is not yet cached.
    pub fn append(&mut self, at: u32, e: Entry<T>)
        requires
            old(self).wf(),
            old(self).entry_at(at) is None,
        ensures
            final(self).wf(),
            final(self).entry_at(at) == Some(e),
            forall|x: u32| x != at ==> final(self).entry_at(x) == old(self).entry_at(x),
            final(self).slots_spec() == old(self).slots_spec().push((at, e)),
    {
        proof {
            lemma_distinct_push(self.slots@, at, e);
            assert forall|x: u32| true implies cache_find(
                self.slots@.push((at, e)),
                x,
            ) == if x == at {
                Some(e)
            } else {
                cache_find(self.slots@, x)
            } by {
                lemma_find_push(self.slots@, at, e, x);
            }
        }
        self.slots.push((at, e));
    }

    /// Puts a value into slot `at`, marking it mutated, and returns the
    /// previously cached value if any.
    pub fn put(&mut self, at: u32, value: Option<T>) -> (r: Option<T>)
        requires
            old(self).wf(),
        ensures
            final(self).wf(),
            r == match old(self).entry_at(at) {
                Some(e) => e.value,
                None => None::<T>,
            },
            final(self).entry_at(at) == Some(
                Entry { value, state: EntryState::Mutated },
            ),
            forall|x: u32| x != at ==> final(self).entry_at(x) == old(self).entry_at(x),
    {
        let e = Entry::new(value, EntryState::Mutated);
        match self.position(at) {
            Some(i) => {
                proof {
                    assert forall|x: u32| true implies cache_find(
                        self.slots@.remove(i as int),
                        x,
                    ) == if x == at {
                        None::<Entry<T>>
                    } else {
                        cache_find(self.slots@, x)
                    } by {
                        lemma_find_remove(self.slots@, i as int, x);
                    }
                    lemma_distinct_remove(self.slots@, i as int);
                }
                let (_, old_e) = self.slots.remove(i);
                let ghost mid = self.slots@;
                proof {
                    lemma_distinct_push(mid, at, e);
                    assert forall|x: u32| true implies cache_find(
                        mid.push((at, e)),
                        x,
                    ) == if x == at {
                        Some(e)
                    } else {
                        cache_find(mid, x)
                    } by {
                        lemma_find_push(mid, at, e, x);
                    }
                }
                self.slots.push((at, e));
                old_e.value
            },
            None => {
                self.append(at, e);
                None
            },
        }
    }
}

impl<T> EntryCache<T> {
    /// Borrows the entry of slot `at` exclusively, if cached.
    pub fn get_entry_mut(&mut self, at: u32) -> (r: Option<&mut Entry<T>>)
        requires
            old(self).wf(),
        ensures
            match r {
                None => old(self).entry_at(at) is None && *final(self) == *old(self),
                Some(e) => old(self).entry_at(at) == Some(*e) && final(self).wf()
                    && final(self).entry_at(at) == Some(*final(e)) && (forall|x: u32|
                    x != at ==> final(self).entry_at(x) == old(self).entry_at(x)),
            },
    {
        match self.position(at) {
            Some(i) => {
                proof {
                    assert forall|e2: Entry<T>, x: u32| true implies cache_find(
                        self.slots@.update(i as int, (at, e2)),
                        x,
                    ) == (if x == at {
                        Some(e2)
                    } else {
                        cache_find(self.slots@, x)
                    }) by {
                        lemma_find_update(self.slots@, i as int, e2, x);
                    }
                    assert forall|e2: Entry<T>| true implies idx_distinct(
                        self.slots@.update(i as int, (at, e2)),
                    ) by {
                        let t = self.slots@.update(i as int, (at, e2));
                        assert forall|a: int, b: int|
                            0 <= a < b < t.len() implies t[a].0 != t[b].0 by {
                            assert(t[a].0 == self.slots@[a].0 && t[b].0 == self.slots@[b].0);
                        }
                    }
                }
                let p = &mut self.slots[i];
                Some(&mut p.1)
            },
            None => None,
        }
    }
}

impl<T: Copy> EntryCache<T> {
    /// The cached entry's value for slot `at`: `None` when not cached,
    /// `Some(value-or-absence)` when cached.
    pub fn get_value(&self, at: u32) -> (r: Option<Option<T>>)
        requires
            self.wf(),
        ensures
            r == match self.entry_at(at) {
                Some(e) => Some(e.value),
                None => None::<Option<T>>,
            },
    {
        match self.position(at) {
            Some(i) => {
                let p = &self.slots[i];
                Some(p.1.value)
            },
            None => None,
        }
    }
}

impl<T: PackedLayout> EntryCache<T> {
    /// Flushes the cache: every mutated slot writes (or clears) its backing
    /// cell at `base + index * fp` and becomes preserved; preserved slots
    /// issue no write, so an untouched cache leaves the store untouched.
    pub fn flush(&mut self, base: &Key, fp: u64, store: &mut CellStore)
        requires
            old(self).wf(),
            old(store).wf(),
            fp >= 1,
            fp <= 0x1_0000_0000,
            base@ + 0x1_0000_0000 * fp <= key_space(),
        ensures
            final(self).wf(),
            final(store).wf(),
            final(self).slots_spec().len() == old(self).slots_spec().len(),
            forall|j: int| #![trigger old(self).slots_spec()[j]]
                0 <= j < old(self).slots_spec().len() ==> final(self).slots_spec()[j].0 == old(
                    self,
                ).slots_spec()[j].0 && final(self).slots_spec()[j].1.value == old(
                    self,
                ).slots_spec()[j].1.value && final(self).slots_spec()[j].1.state
                    == EntryState::Preserved,
            untouched_outside(
                old(self).slots_spec(),
                base@,
                fp as nat,
                old(store)@,
                final(store)@,
            ),
            forall|j: int| #![trigger old(self).slots_spec()[j]]
                0 <= j < old(self).slots_spec().len() && old(self).slots_spec()[j].1.state
                    == EntryState::Mutated ==> match old(self).slots_spec()[j].1.value {
                    Some(v) => final(store)@.contains_key(
                        slot_key_at(base@, fp as nat, old(self).slots_spec()[j].0),
                    ) && final(store)@[slot_key_at(base@, fp as nat, old(self).slots_spec()[j].0)]
                        == v.enc(),
                    None => !final(store)@.contains_key(
                        slot_key_at(base@, fp as nat, old(self).slots_spec()[j].0),
                    ),
                },
            (forall|j: int|
                0 <= j < old(self).slots_spec().len() ==> old(self).slots_spec()[j].1.state
                    == EntryState::Preserved) ==> *final(store) == *old(store),
            old(store).writes() <= final(store).writes(),
    {
        let ghost s0 = self.slots@;
        let n = self.slots.len();
        let mut j: usize = 0;
        while j < n
            invariant
                idx_distinct(s0),
                store.wf(),
                fp >= 1,
                fp <= 0x1_0000_0000,
                base@ + 0x1_0000_0000 * fp <= key_space(),
                n == self.slots@.len(),
                s0.len() == n,
                j <= n,
                forall|x: int| j <= x < n ==> self.slots@[x] == s0[x],
                forall|x: int|
                    0 <= x < j ==> self.slots@[x].0 == s0[x].0 && self.slots@[x].1.value
                        == s0[x].1.value && self.slots@[x].1.state == EntryState::Preserved,
                untouched_outside(s0.take(j as int), base@, fp as nat, old(store)@, store@),
                forall|x: int| #![trigger s0[x]]
                    0 <= x < j && s0[x].1.state == EntryState::Mutated ==> match s0[x].1.value {
                        Some(v) => store@.contains_key(slot_key_at(base@, fp as nat, s0[x].0))
                            && store@[slot_key_at(base@, fp as nat, s0[x].0)] == v.enc(),
                        None => !store@.contains_key(slot_key_at(base@, fp as nat, s0[x].0)),
                    },
                (forall|x: int| 0 <= x < n ==> s0[x].1.state == EntryState::Preserved) ==> *store == *old(store),
                old(store).writes() <= store.writes(),
            decreases n - j,
        {
            let ghost pre = store@;
            let ghost j0 = j as int;
            let idx = self.slots[j].0;
            let mutated = (&self.slots[j].1).is_mutated();
            proof {
                assert(idx as nat * (fp as nat) <= 0xffff_ffff * (fp as nat)) by (nonlinear_arith)
                    requires
                        idx as nat <= 0xffff_ffff,
                        fp >= 1,
                ;
                assert(0xffff_ffff * (fp as nat) < 0x1_0000_0000 * (fp as nat)) by (nonlinear_arith)
                    requires
                        fp >= 1,
                ;
                assert(0x1_0000_0000 * (fp as nat) <= 0x1_0000_0000 * 0x1_0000_0000)
                    by (nonlinear_arith)
                    requires
                        fp as nat <= 0x1_0000_0000,
                ;
            }
            if mutated {
                let k = base.add_u64((idx as u64) * fp);
                proof {
                    assert(k@ == slot_key_at(base@, fp as nat, idx));
                }
                let bytes: Option<Vec<u8>> = match &self.slots[j].1.value {
                    Some(v) => Some(v.encode()),
                    None => None,
                };
                match bytes {
                    Some(b) => {
                        store.set(&k, b);
                    },
                    None => {
                        store.clear(&k);
                    },
                }
            }
            let p = &mut self.slots[j];
            p.1.state = EntryState::Preserved;
            j += 1;
            proof {
                assert(j as int == j0 + 1);
                assert(s0.take(j0 + 1) =~= s0.take(j0).push(s0[j0]));
                assert(untouched_outside(s0.take(j0), base@, fp as nat, old(store)@, pre));
                assert forall|a: nat| #![trigger store@.contains_key(a)]
                    !writes_key(s0.take(j0 + 1), base@, fp as nat, a) implies (
                store@.contains_key(a) == old(store)@.contains_key(a) && (old(
                store,
                )@.contains_key(a) ==> store@[a] == old(store)@[a])) by {
                    assert(!writes_key(s0.take(j0), base@, fp as nat, a)) by {
                        if writes_key(s0.take(j0), base@, fp as nat, a) {
                            let w = choose|w: int| #![trigger s0.take(j0)[w]]
                                0 <= w < j0 && s0.take(j0)[w].1.state == EntryState::Mutated
                                    && a == slot_key_at(base@, fp as nat, s0.take(j0)[w].0);
                            assert(s0.take(j0 + 1)[w] == s0.take(j0)[w]);
                            assert(writes_key(s0.take(j0 + 1), base@, fp as nat, a));
                        }
                    }
                    lemma_untouched_at(
                        s0.take(j0),
                        base@,
                        fp as nat,
                        old(store)@,
                        pre,
                        a,
                    );
                    if mutated {
                        assert(s0.take(j0 + 1)[j0] == s0[j0]);
                        if a == slot_key_at(base@, fp as nat, idx) {
                            assert(writes_key(s0.take(j0 + 1), base@, fp as nat, a));
                            assert(false);
                        }
                    }
                }
                assert(untouched_outside(
                    s0.take(j as int),
                    base@,
                    fp as nat,
                    old(store)@,
                    store@,
                ));
                assert forall|x: int| #![trigger s0[x]]
                    0 <= x < j && s0[x].1.state == EntryState::Mutated implies match s0[
                    x].1.value {
                    Some(v) => store@.contains_key(slot_key_at(base@, fp as nat, s0[x].0))
                        && store@[slot_key_at(base@, fp as nat, s0[x].0)] == v.enc(),
                    None => !store@.contains_key(slot_key_at(base@, fp as nat, s0[x].0)),
                } by {
                    if x < j0 && mutated {
                        lemma_slot_key_injective(base@, fp as nat, s0[x].0, idx);
                    }
                }
            }
        }
        proof {
            assert(s0.take(n as int) =~= s0);
            assert(idx_distinct(self.slots@)) by {
                assert forall|a: int, b: int|
                    0 <= a < b < self.slots@.len() implies self.slots@[a].0
                    != self.slots@[b].0 by {
                    assert(self.slots@[a].0 == s0[a].0 && self.slots@[b].0 == s0[b].0);
                }
            }
        }
    }
}

} // verus!
