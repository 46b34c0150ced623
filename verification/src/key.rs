//! 256-bit cell keys and the cursor that walks the key space.

use vstd::prelude::*;

verus! {

/// The weight of one limb: `2^64`.
pub open spec fn limb_base() -> nat {
    0x1_0000_0000_0000_0000nat
}

/// The number of distinct 256-bit keys: the size of the cell store's key
/// space, `2^256`.
pub open spec fn key_space() -> nat {
    limb_base() * limb_base() * limb_base() * limb_base()
}

/// A 256-bit key addressing one cell of the store, held as four 64-bit limbs,
/// least significant first. Its view is its numeric value below `key_space()`.
#[derive(Clone, Copy, PartialEq, Eq, Structural, Debug)]
pub struct Key {
    pub w0: u64,
    pub w1: u64,
    pub w2: u64,
    pub w3: u64,
}

impl View for Key {
    type V = nat;

    open spec fn view(&self) -> nat {
        self.w0 as nat + limb_base() * (self.w1 as nat + limb_base() * (self.w2 as nat
            + limb_base() * self.w3 as nat))
    }
}

impl Key {
    /// The key whose value is the given 64-bit number.
    pub fn from_u64(v: u64) -> (r: Key)
        ensures
            r@ == v as nat,
    {
        Key { w0: v, w1: 0, w2: 0, w3: 0 }
    }

    /// Adds a 64-bit offset to the key, carrying into the higher limbs;
    /// the sum wraps modulo `key_space()`.
    pub fn add_u64(&self, offset: u64) -> (r: Key)
        ensures
            r@ == if self@ + offset < key_space() {
                self@ + offset
            } else {
                self@ + offset - key_space()
            },
            self@ + offset < key_space() ==> r@ == self@ + offset,
    {
        let s0 = self.w0.wrapping_add(offset);
        let c0: u64 = if s0 < self.w0 {
            1
        } else {
            0
        };
        let s1 = self.w1.wrapping_add(c0);
        let c1: u64 = if s1 < self.w1 {
            1
        } else {
            0
        };
        let s2 = self.w2.wrapping_add(c1);
        let c2: u64 = if s2 < self.w2 {
            1
        } else {
            0
        };
        let s3 = self.w3.wrapping_add(c2);
        let r = Key { w0: s0, w1: s1, w2: s2, w3: s3 };
        proof {
            let b: nat = limb_base();
            let c3: nat = if self.w3 + c2 >= b {
                1
            } else {
                0
            };
            assert(s0 as nat + c0 as nat * b == self.w0 as nat + offset as nat);
            assert(s1 as nat + c1 as nat * b == self.w1 as nat + c0 as nat);
            assert(s2 as nat + c2 as nat * b == self.w2 as nat + c1 as nat);
            assert(s3 as nat + c3 * b == self.w3 as nat + c2 as nat);
            let a2: nat = s2 as nat + b * s3 as nat;
            let a1: nat = s1 as nat + b * a2;
            let v2: nat = self.w2 as nat + b * self.w3 as nat;
            let v1: nat = self.w1 as nat + b * v2;
            assert(a2 + c3 * (b * b) == v2 + c1 as nat) by (nonlinear_arith)
                requires
                    s2 as nat + c2 as nat * b == self.w2 as nat + c1 as nat,
                    s3 as nat + c3 * b == self.w3 as nat + c2 as nat,
                    a2 == s2 as nat + b * s3 as nat,
                    v2 == self.w2 as nat + b * self.w3 as nat,
            ;
            assert(a1 + c3 * (b * (b * b)) == v1 + c0 as nat) by (nonlinear_arith)
                requires
                    s1 as nat + c1 as nat * b == self.w1 as nat + c0 as nat,
                    a2 + c3 * (b * b) == v2 + c1 as nat,
                    a1 == s1 as nat + b * a2,
                    v1 == self.w1 as nat + b * v2,
            ;
            assert(r@ + c3 * (b * (b * (b * b))) == self@ + offset) by (nonlinear_arith)
                requires
                    s0 as nat + c0 as nat * b == self.w0 as nat + offset as nat,
                    a1 + c3 * (b * (b * b)) == v1 + c0 as nat,
                    r@ == s0 as nat + b * a1,
                    self@ == self.w0 as nat + b * v1,
            ;
            assert(b * (b * (b * b)) == key_space()) by (nonlinear_arith)
                requires
                    b == limb_base(),
                    key_space() == limb_base() * limb_base() * limb_base() * limb_base(),
            ;
            assert(a2 < b * b) by (nonlinear_arith)
                requires
                    a2 == s2 as nat + b * s3 as nat,
                    (s2 as nat) < b,
                    (s3 as nat) < b,
            ;
            assert(a1 < b * (b * b)) by (nonlinear_arith)
                requires
                    a1 == s1 as nat + b * a2,
                    (s1 as nat) < b,
                    a2 < b * b,
            ;
            assert(r@ < b * (b * (b * b))) by (nonlinear_arith)
                requires
                    r@ == s0 as nat + b * a1,
                    (s0 as nat) < b,
                    a1 < b * (b * b),
            ;
        }
        r
    }
}

/// A cursor over the key space: layout operations take the current key and
/// advance the cursor by their footprint.
pub struct KeyPtr {
    pub key: Key,
}

impl KeyPtr {
    /// A cursor standing at the given key.
    pub fn from_key(key: Key) -> (r: KeyPtr)
        ensures
            r.key == key,
    {
        KeyPtr { key }
    }

    /// Moves the cursor forward by `n` cells, wrapping modulo `key_space()`.
    pub fn advance_by(&mut self, n: u64)
        ensures
            final(self).key@ == if old(self).key@ + n < key_space() {
                old(self).key@ + n
            } else {
                old(self).key@ + n - key_space()
            },
            old(self).key@ + n < key_space() ==> final(self).key@ == old(self).key@ + n,
    {
        self.key = self.key.add_u64(n);
    }
}

} // verus!
