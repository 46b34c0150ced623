//! Packed and spread layouts of the primitive cell values: little-endian
//! byte payloads, one cell per value.

use vstd::prelude::*;
use vstd::slice::slice_subrange;
use crate::key::{Key, KeyPtr};
use crate::layout::{
    forward_clear_packed, forward_pull_packed, forward_push_packed, lemma_packed_cells_dom,
    lemma_packed_round_trip, packed_cells, packed_dec_at, PackedLayout, SpreadLayout,
};
use crate::store::CellStore;

verus! {

impl PackedLayout for u8 {
    open spec fn enc(&self) -> Seq<u8> {
        seq![*self]
    }

    open spec fn dec(bytes: Seq<u8>) -> Option<u8> {
        if bytes.len() == 1 {
            Some(bytes[0])
        } else {
            None
        }
    }

    proof fn lemma_enc_dec(v: u8) {
    }

    proof fn lemma_dec_enc(bytes: Seq<u8>) {
        if bytes.len() == 1 {
            assert(bytes[0].enc() =~= bytes);
        }
    }

    fn encode(&self) -> (r: Vec<u8>) {
        let mut r: Vec<u8> = Vec::new();
        r.push(*self);
        proof {
            assert(r@ =~= self.enc());
        }
        r
    }

    fn decode(bytes: &[u8]) -> (r: Option<u8>) {
        if bytes.len() == 1 {
            Some(bytes[0])
        } else {
            None
        }
    }
}

impl SpreadLayout for u8 {
    open spec fn footprint_spec() -> nat {
        1
    }

    fn footprint() -> u64 {
        1
    }

    open spec fn cells(&self, k: nat) -> Map<nat, Seq<u8>> {
        packed_cells(*self, k)
    }

    open spec fn dec_at(m: Map<nat, Seq<u8>>, k: nat) -> Option<u8> {
        packed_dec_at(m, k)
    }

    proof fn lemma_cells_dom(&self, k: nat) {
        lemma_packed_cells_dom(*self, k);
    }

    proof fn lemma_round_trip(&self, k: nat, m: Map<nat, Seq<u8>>) {
        lemma_packed_round_trip(*self, k, m);
    }

    fn push_spread(&self, ptr: &mut KeyPtr, store: &mut CellStore) {
        forward_push_packed(self, ptr, store);
    }

    fn pull_spread(ptr: &mut KeyPtr, store: &CellStore) -> (r: u8) {
        forward_pull_packed(ptr, store)
    }

    fn clear_spread(&self, ptr: &mut KeyPtr, store: &mut CellStore) {
        forward_clear_packed(self, ptr, store);
    }
}

/// The little-endian bytes of a 32-bit word.
pub open spec fn le_bytes_u32(v: u32) -> Seq<u8> {
    seq![
        (v & 0xff) as u8,
        ((v >> 8) & 0xff) as u8,
        ((v >> 16) & 0xff) as u8,
        ((v >> 24) & 0xff) as u8,
    ]
}

/// The 32-bit word with the given little-endian bytes.
pub open spec fn word_of_le_u32(b0: u8, b1: u8, b2: u8, b3: u8) -> u32 {
    (b0 as u32) | ((b1 as u32) << 8) | ((b2 as u32) << 16) | ((b3 as u32) << 24)
}

proof fn lemma_u32_le_round_trip(v: u32)
    ensures
        word_of_le_u32(
            (v & 0xff) as u8,
            ((v >> 8) & 0xff) as u8,
            ((v >> 16) & 0xff) as u8,
            ((v >> 24) & 0xff) as u8,
        ) == v,
{
    let b0 = (v & 0xff) as u8;
    let b1 = ((v >> 8) & 0xff) as u8;
    let b2 = ((v >> 16) & 0xff) as u8;
    let b3 = ((v >> 24) & 0xff) as u8;
    assert((b0 as u32) | ((b1 as u32) << 8) | ((b2 as u32) << 16) | ((b3 as u32) << 24)
        == v) by (bit_vector)
        requires
            b0 == (v & 0xff) as u8,
            b1 == ((v >> 8) & 0xff) as u8,
            b2 == ((v >> 16) & 0xff) as u8,
            b3 == ((v >> 24) & 0xff) as u8,
    ;
}

proof fn lemma_u32_le_canonical(b0: u8, b1: u8, b2: u8, b3: u8)
    ensures
        le_bytes_u32(word_of_le_u32(b0, b1, b2, b3)) == seq![b0, b1, b2, b3],
{
    let w = word_of_le_u32(b0, b1, b2, b3);
    assert((w & 0xff) as u8 == b0 && ((w >> 8) & 0xff) as u8 == b1 && ((w >> 16)
        & 0xff) as u8 == b2 && ((w >> 24) & 0xff) as u8 == b3) by (bit_vector)
        requires
            w == (b0 as u32) | ((b1 as u32) << 8) | ((b2 as u32) << 16) | ((b3 as u32) << 24),
    ;
    assert(le_bytes_u32(w) =~= seq![b0, b1, b2, b3]);
}

impl PackedLayout for u32 {
    open spec fn enc(&self) -> Seq<u8> {
        le_bytes_u32(*self)
    }

    open spec fn dec(bytes: Seq<u8>) -> Option<u32> {
        if bytes.len() == 4 {
            Some(word_of_le_u32(bytes[0], bytes[1], bytes[2], bytes[3]))
        } else {
            None
        }
    }

    proof fn lemma_enc_dec(v: u32) {
        lemma_u32_le_round_trip(v);
    }

    proof fn lemma_dec_enc(bytes: Seq<u8>) {
        if bytes.len() == 4 {
            lemma_u32_le_canonical(bytes[0], bytes[1], bytes[2], bytes[3]);
            assert(seq![bytes[0], bytes[1], bytes[2], bytes[3]] =~= bytes);
        }
    }

    fn encode(&self) -> (r: Vec<u8>) {
        let v = *self;
        let mut r: Vec<u8> = Vec::new();
        r.push((v & 0xff) as u8);
        r.push(((v >> 8) & 0xff) as u8);
        r.push(((v >> 16) & 0xff) as u8);
        r.push(((v >> 24) & 0xff) as u8);
        proof {
            assert(r@ =~= self.enc());
        }
        r
    }

    fn decode(bytes: &[u8]) -> (r: Option<u32>) {
        if bytes.len() == 4 {
            Some(
                (bytes[0] as u32) | ((bytes[1] as u32) << 8) | ((bytes[2] as u32) << 16) | ((
                bytes[3] as u32) << 24),
            )
        } else {
            None
        }
    }
}

impl SpreadLayout for u32 {
    open spec fn footprint_spec() -> nat {
        1
    }

    fn footprint() -> u64 {
        1
    }

    open spec fn cells(&self, k: nat) -> Map<nat, Seq<u8>> {
        packed_cells(*self, k)
    }

    open spec fn dec_at(m: Map<nat, Seq<u8>>, k: nat) -> Option<u32> {
        packed_dec_at(m, k)
    }

    proof fn lemma_cells_dom(&self, k: nat) {
        lemma_packed_cells_dom(*self, k);
    }

    proof fn lemma_round_trip(&self, k: nat, m: Map<nat, Seq<u8>>) {
        lemma_packed_round_trip(*self, k, m);
    }

    fn push_spread(&self, ptr: &mut KeyPtr, store: &mut CellStore) {
        forward_push_packed(self, ptr, store);
    }

    fn pull_spread(ptr: &mut KeyPtr, store: &CellStore) -> (r: u32) {
        forward_pull_packed(ptr, store)
    }

    fn clear_spread(&self, ptr: &mut KeyPtr, store: &mut CellStore) {
        forward_clear_packed(self, ptr, store);
    }
}

/// The unsigned word carrying the two's-complement bits of a signed 32-bit
/// value.
pub open spec fn bits_of_i32(v: i32) -> u32 {
    if v >= 0 {
        v as u32
    } else {
        (v + 0x1_0000_0000) as u32
    }
}

/// The signed 32-bit value whose two's-complement bits are the given word.
pub open spec fn i32_of_bits(w: u32) -> i32 {
    if w < 0x8000_0000 {
        w as i32
    } else {
        (w - 0x1_0000_0000) as i32
    }
}

impl PackedLayout for i32 {
    open spec fn enc(&self) -> Seq<u8> {
        le_bytes_u32(bits_of_i32(*self))
    }

    open spec fn dec(bytes: Seq<u8>) -> Option<i32> {
        if bytes.len() == 4 {
            Some(i32_of_bits(word_of_le_u32(bytes[0], bytes[1], bytes[2], bytes[3])))
        } else {
            None
        }
    }

    proof fn lemma_enc_dec(v: i32) {
        lemma_u32_le_round_trip(bits_of_i32(v));
    }

    proof fn lemma_dec_enc(bytes: Seq<u8>) {
        if bytes.len() == 4 {
            let w = word_of_le_u32(bytes[0], bytes[1], bytes[2], bytes[3]);
            lemma_u32_le_canonical(bytes[0], bytes[1], bytes[2], bytes[3]);
            assert(bits_of_i32(i32_of_bits(w)) == w);
            assert(seq![bytes[0], bytes[1], bytes[2], bytes[3]] =~= bytes);
        }
    }

    fn encode(&self) -> (r: Vec<u8>) {
        let w: u32 = if *self >= 0 {
            *self as u32
        } else {
            ((*self as i64) + 0x1_0000_0000) as u32
        };
        let mut r: Vec<u8> = Vec::new();
        r.push((w & 0xff) as u8);
        r.push(((w >> 8) & 0xff) as u8);
        r.push(((w >> 16) & 0xff) as u8);
        r.push(((w >> 24) & 0xff) as u8);
        proof {
            assert(r@ =~= self.enc());
        }
        r
    }

    fn decode(bytes: &[u8]) -> (r: Option<i32>) {
        if bytes.len() == 4 {
            let w = (bytes[0] as u32) | ((bytes[1] as u32) << 8) | ((bytes[2] as u32) << 16) | ((
            bytes[3] as u32) << 24);
            let v: i32 = if w < 0x8000_0000 {
                w as i32
            } else {
                ((w as i64) - 0x1_0000_0000) as i32
            };
            Some(v)
        } else {
            None
        }
    }
}

impl SpreadLayout for i32 {
    open spec fn footprint_spec() -> nat {
        1
    }

    fn footprint() -> u64 {
        1
    }

    open spec fn cells(&self, k: nat) -> Map<nat, Seq<u8>> {
        packed_cells(*self, k)
    }

    open spec fn dec_at(m: Map<nat, Seq<u8>>, k: nat) -> Option<i32> {
        packed_dec_at(m, k)
    }

    proof fn lemma_cells_dom(&self, k: nat) {
        lemma_packed_cells_dom(*self, k);
    }

    proof fn lemma_round_trip(&self, k: nat, m: Map<nat, Seq<u8>>) {
        lemma_packed_round_trip(*self, k, m);
    }

    fn push_spread(&self, ptr: &mut KeyPtr, store: &mut CellStore) {
        forward_push_packed(self, ptr, store);
    }

    fn pull_spread(ptr: &mut KeyPtr, store: &CellStore) -> (r: i32) {
        forward_pull_packed(ptr, store)
    }

    fn clear_spread(&self, ptr: &mut KeyPtr, store: &mut CellStore) {
        forward_clear_packed(self, ptr, store);
    }
}

impl PackedLayout for bool {
    open spec fn enc(&self) -> Seq<u8> {
        seq![
            if *self {
                1u8
            } else {
                0u8
            },
        ]
    }

    open spec fn dec(bytes: Seq<u8>) -> Option<bool> {
        if bytes.len() == 1 && bytes[0] == 0 {
            Some(false)
        } else if bytes.len() == 1 && bytes[0] == 1 {
            Some(true)
        } else {
            None
        }
    }

    proof fn lemma_enc_dec(v: bool) {
    }

    proof fn lemma_dec_enc(bytes: Seq<u8>) {
        if bytes.len() == 1 && (bytes[0] == 0 || bytes[0] == 1) {
            let w = Self::dec(bytes).unwrap();
            assert(w.enc() =~= bytes);
        }
    }

    fn encode(&self) -> (r: Vec<u8>) {
        let mut r: Vec<u8> = Vec::new();
        r.push(
            if *self {
                1u8
            } else {
                0u8
            },
        );
        proof {
            assert(r@ =~= self.enc());
        }
        r
    }

    fn decode(bytes: &[u8]) -> (r: Option<bool>) {
        if bytes.len() == 1 && bytes[0] == 0 {
            Some(false)
        } else if bytes.len() == 1 && bytes[0] == 1 {
            Some(true)
        } else {
            None
        }
    }
}

impl SpreadLayout for bool {
    open spec fn footprint_spec() -> nat {
        1
    }

    fn footprint() -> u64 {
        1
    }

    open spec fn cells(&self, k: nat) -> Map<nat, Seq<u8>> {
        packed_cells(*self, k)
    }

    open spec fn dec_at(m: Map<nat, Seq<u8>>, k: nat) -> Option<bool> {
        packed_dec_at(m, k)
    }

    proof fn lemma_cells_dom(&self, k: nat) {
        lemma_packed_cells_dom(*self, k);
    }

    proof fn lemma_round_trip(&self, k: nat, m: Map<nat, Seq<u8>>) {
        lemma_packed_round_trip(*self, k, m);
    }

    fn push_spread(&self, ptr: &mut KeyPtr, store: &mut CellStore) {
        forward_push_packed(self, ptr, store);
    }

    fn pull_spread(ptr: &mut KeyPtr, store: &CellStore) -> (r: bool) {
        forward_pull_packed(ptr, store)
    }

    fn clear_spread(&self, ptr: &mut KeyPtr, store: &mut CellStore) {
        forward_clear_packed(self, ptr, store);
    }
}


/// The little-endian bytes of a 16-bit word.
pub open spec fn le_bytes_u16(v: u16) -> Seq<u8> {
    seq![
        (v & 0xff) as u8,
        ((v >> 8) & 0xff) as u8,
    ]
}

/// The 16-bit word with the given little-endian bytes.
pub open spec fn word_of_le_u16(b0: u8, b1: u8) -> u16 {
    (b0 as u16) | ((b1 as u16) << 8)
}

proof fn lemma_u16_le_round_trip(v: u16)
    ensures
        le_bytes_u16(v).len() == 2,
        word_of_le_u16(le_bytes_u16(v)[0], le_bytes_u16(v)[1]) == v,
{
    let b0 = (v & 0xff) as u8;
    let b1 = ((v >> 8) & 0xff) as u8;
    assert((b0 as u16) | ((b1 as u16) << 8) == v) by (bit_vector)
        requires
            b0 == (v & 0xff) as u8,
            b1 == ((v >> 8) & 0xff) as u8,
    ;
}

proof fn lemma_u16_le_canonical(b0: u8, b1: u8)
    ensures
        le_bytes_u16(word_of_le_u16(b0, b1)) == seq![b0, b1],
{
    let w = word_of_le_u16(b0, b1);
    assert((w & 0xff) as u8 == b0 && ((w >> 8) & 0xff) as u8 == b1) by (bit_vector)
        requires
            w == (b0 as u16) | ((b1 as u16) << 8),
    ;
    assert(le_bytes_u16(w) =~= seq![b0, b1]);
}

impl PackedLayout for u16 {
    open spec fn enc(&self) -> Seq<u8> {
        le_bytes_u16(*self)
    }

    open spec fn dec(bytes: Seq<u8>) -> Option<u16> {
        if bytes.len() == 2 {
            Some(word_of_le_u16(bytes[0], bytes[1]))
        } else {
            None
        }
    }

    proof fn lemma_enc_dec(v: u16) {
        lemma_u16_le_round_trip(v);
    }

    proof fn lemma_dec_enc(bytes: Seq<u8>) {
        if bytes.len() == 2 {
            lemma_u16_le_canonical(bytes[0], bytes[1]);
            assert(seq![bytes[0], bytes[1]] =~= bytes);
        }
    }

    fn encode(&self) -> (r: Vec<u8>) {
        let v = *self;
        let mut r: Vec<u8> = Vec::new();
        r.push((v & 0xff) as u8);
        r.push(((v >> 8) & 0xff) as u8);
        proof {
            assert(r@ =~= self.enc());
        }
        r
    }

    fn decode(bytes: &[u8]) -> (r: Option<u16>) {
        if bytes.len() == 2 {
            Some((bytes[0] as u16) | ((bytes[1] as u16) << 8))
        } else {
            None
        }
    }
}

impl SpreadLayout for u16 {
    open spec fn footprint_spec() -> nat {
        1
    }

    fn footprint() -> u64 {
        1
    }

    open spec fn cells(&self, k: nat) -> Map<nat, Seq<u8>> {
        packed_cells(*self, k)
    }

    open spec fn dec_at(m: Map<nat, Seq<u8>>, k: nat) -> Option<u16> {
        packed_dec_at(m, k)
    }

    proof fn lemma_cells_dom(&self, k: nat) {
        lemma_packed_cells_dom(*self, k);
    }

    proof fn lemma_round_trip(&self, k: nat, m: Map<nat, Seq<u8>>) {
        lemma_packed_round_trip(*self, k, m);
    }

    fn push_spread(&self, ptr: &mut KeyPtr, store: &mut CellStore) {
        forward_push_packed(self, ptr, store);
    }

    fn pull_spread(ptr: &mut KeyPtr, store: &CellStore) -> (r: u16) {
        forward_pull_packed(ptr, store)
    }

    fn clear_spread(&self, ptr: &mut KeyPtr, store: &mut CellStore) {
        forward_clear_packed(self, ptr, store);
    }
}

/// The little-endian bytes of a 64-bit word.
pub open spec fn le_bytes_u64(v: u64) -> Seq<u8> {
    seq![
        (v & 0xff) as u8,
        ((v >> 8) & 0xff) as u8,
        ((v >> 16) & 0xff) as u8,
        ((v >> 24) & 0xff) as u8,
        ((v >> 32) & 0xff) as u8,
        ((v >> 40) & 0xff) as u8,
        ((v >> 48) & 0xff) as u8,
        ((v >> 56) & 0xff) as u8,
    ]
}

/// The 64-bit word with the given little-endian bytes.
pub open spec fn word_of_le_u64(b0: u8, b1: u8, b2: u8, b3: u8, b4: u8, b5: u8, b6: u8, b7: u8) -> u64 {
    (b0 as u64) | ((b1 as u64) << 8) | ((b2 as u64) << 16) | ((b3 as u64) << 24) | ((b4 as u64) << 32) | ((b5 as u64) << 40) | ((b6 as u64) << 48) | ((b7 as u64) << 56)
}

proof fn lemma_u64_le_round_trip(v: u64)
    ensures
        le_bytes_u64(v).len() == 8,
        word_of_le_u64(le_bytes_u64(v)[0], le_bytes_u64(v)[1], le_bytes_u64(v)[2], le_bytes_u64(v)[3], le_bytes_u64(v)[4], le_bytes_u64(v)[5], le_bytes_u64(v)[6], le_bytes_u64(v)[7]) == v,
{
    let b0 = (v & 0xff) as u8;
    let b1 = ((v >> 8) & 0xff) as u8;
    let b2 = ((v >> 16) & 0xff) as u8;
    let b3 = ((v >> 24) & 0xff) as u8;
    let b4 = ((v >> 32) & 0xff) as u8;
    let b5 = ((v >> 40) & 0xff) as u8;
    let b6 = ((v >> 48) & 0xff) as u8;
    let b7 = ((v >> 56) & 0xff) as u8;
    assert((b0 as u64) | ((b1 as u64) << 8) | ((b2 as u64) << 16) | ((b3 as u64) << 24) | ((b4 as u64) << 32) | ((b5 as u64) << 40) | ((b6 as u64) << 48) | ((b7 as u64) << 56) == v) by (bit_vector)
        requires
            b0 == (v & 0xff) as u8,
            b1 == ((v >> 8) & 0xff) as u8,
            b2 == ((v >> 16) & 0xff) as u8,
            b3 == ((v >> 24) & 0xff) as u8,
            b4 == ((v >> 32) & 0xff) as u8,
            b5 == ((v >> 40) & 0xff) as u8,
            b6 == ((v >> 48) & 0xff) as u8,
            b7 == ((v >> 56) & 0xff) as u8,
    ;
}

proof fn lemma_u64_le_canonical(b0: u8, b1: u8, b2: u8, b3: u8, b4: u8, b5: u8, b6: u8, b7: u8)
    ensures
        le_bytes_u64(word_of_le_u64(b0, b1, b2, b3, b4, b5, b6, b7)) == seq![b0, b1, b2, b3, b4, b5, b6, b7],
{
    let w = word_of_le_u64(b0, b1, b2, b3, b4, b5, b6, b7);
    assert((w & 0xff) as u8 == b0 && ((w >> 8) & 0xff) as u8 == b1 && ((w >> 16) & 0xff) as u8 == b2 && ((w >> 24) & 0xff) as u8 == b3 && ((w >> 32) & 0xff) as u8 == b4 && ((w >> 40) & 0xff) as u8 == b5 && ((w >> 48) & 0xff) as u8 == b6 && ((w >> 56) & 0xff) as u8 == b7) by (bit_vector)
        requires
            w == (b0 as u64) | ((b1 as u64) << 8) | ((b2 as u64) << 16) | ((b3 as u64) << 24) | ((b4 as u64) << 32) | ((b5 as u64) << 40) | ((b6 as u64) << 48) | ((b7 as u64) << 56),
    ;
    assert(le_bytes_u64(w) =~= seq![b0, b1, b2, b3, b4, b5, b6, b7]);
}

impl PackedLayout for u64 {
    open spec fn enc(&self) -> Seq<u8> {
        le_bytes_u64(*self)
    }

    open spec fn dec(bytes: Seq<u8>) -> Option<u64> {
        if bytes.len() == 8 {
            Some(word_of_le_u64(bytes[0], bytes[1], bytes[2], bytes[3], bytes[4], bytes[5], bytes[6], bytes[7]))
        } else {
            None
        }
    }

    proof fn lemma_enc_dec(v: u64) {
        lemma_u64_le_round_trip(v);
    }

    proof fn lemma_dec_enc(bytes: Seq<u8>) {
        if bytes.len() == 8 {
            lemma_u64_le_canonical(bytes[0], bytes[1], bytes[2], bytes[3], bytes[4], bytes[5], bytes[6], bytes[7]);
            assert(seq![bytes[0], bytes[1], bytes[2], bytes[3], bytes[4], bytes[5], bytes[6], bytes[7]] =~= bytes);
        }
    }

    fn encode(&self) -> (r: Vec<u8>) {
        let v = *self;
        let mut r: Vec<u8> = Vec::new();
        r.push((v & 0xff) as u8);
        r.push(((v >> 8) & 0xff) as u8);
        r.push(((v >> 16) & 0xff) as u8);
        r.push(((v >> 24) & 0xff) as u8);
        r.push(((v >> 32) & 0xff) as u8);
        r.push(((v >> 40) & 0xff) as u8);
        r.push(((v >> 48) & 0xff) as u8);
        r.push(((v >> 56) & 0xff) as u8);
        proof {
            assert(r@ =~= self.enc());
        }
        r
    }

    fn decode(bytes: &[u8]) -> (r: Option<u64>) {
        if bytes.len() == 8 {
            Some((bytes[0] as u64) | ((bytes[1] as u64) << 8) | ((bytes[2] as u64) << 16) | ((bytes[3] as u64) << 24) | ((bytes[4] as u64) << 32) | ((bytes[5] as u64) << 40) | ((bytes[6] as u64) << 48) | ((bytes[7] as u64) << 56))
        } else {
            None
        }
    }
}

impl SpreadLayout for u64 {
    open spec fn footprint_spec() -> nat {
        1
    }

    fn footprint() -> u64 {
        1
    }

    open spec fn cells(&self, k: nat) -> Map<nat, Seq<u8>> {
        packed_cells(*self, k)
    }

    open spec fn dec_at(m: Map<nat, Seq<u8>>, k: nat) -> Option<u64> {
        packed_dec_at(m, k)
    }

    proof fn lemma_cells_dom(&self, k: nat) {
        lemma_packed_cells_dom(*self, k);
    }

    proof fn lemma_round_trip(&self, k: nat, m: Map<nat, Seq<u8>>) {
        lemma_packed_round_trip(*self, k, m);
    }

    fn push_spread(&self, ptr: &mut KeyPtr, store: &mut CellStore) {
        forward_push_packed(self, ptr, store);
    }

    fn pull_spread(ptr: &mut KeyPtr, store: &CellStore) -> (r: u64) {
        forward_pull_packed(ptr, store)
    }

    fn clear_spread(&self, ptr: &mut KeyPtr, store: &mut CellStore) {
        forward_clear_packed(self, ptr, store);
    }
}

/// The little-endian bytes of a 128-bit word.
pub open spec fn le_bytes_u128(v: u128) -> Seq<u8> {
    seq![
        (v & 0xff) as u8,
        ((v >> 8) & 0xff) as u8,
        ((v >> 16) & 0xff) as u8,
        ((v >> 24) & 0xff) as u8,
        ((v >> 32) & 0xff) as u8,
        ((v >> 40) & 0xff) as u8,
        ((v >> 48) & 0xff) as u8,
        ((v >> 56) & 0xff) as u8,
        ((v >> 64) & 0xff) as u8,
        ((v >> 72) & 0xff) as u8,
        ((v >> 80) & 0xff) as u8,
        ((v >> 88) & 0xff) as u8,
        ((v >> 96) & 0xff) as u8,
        ((v >> 104) & 0xff) as u8,
        ((v >> 112) & 0xff) as u8,
        ((v >> 120) & 0xff) as u8,
    ]
}

/// The 128-bit word with the given little-endian bytes.
pub open spec fn word_of_le_u128(b0: u8, b1: u8, b2: u8, b3: u8, b4: u8, b5: u8, b6: u8, b7: u8, b8: u8, b9: u8, b10: u8, b11: u8, b12: u8, b13: u8, b14: u8, b15: u8) -> u128 {
    (b0 as u128) | ((b1 as u128) << 8) | ((b2 as u128) << 16) | ((b3 as u128) << 24) | ((b4 as u128) << 32) | ((b5 as u128) << 40) | ((b6 as u128) << 48) | ((b7 as u128) << 56) | ((b8 as u128) << 64) | ((b9 as u128) << 72) | ((b10 as u128) << 80) | ((b11 as u128) << 88) | ((b12 as u128) << 96) | ((b13 as u128) << 104) | ((b14 as u128) << 112) | ((b15 as u128) << 120)
}

proof fn lemma_u128_le_round_trip(v: u128)
    ensures
        le_bytes_u128(v).len() == 16,
        word_of_le_u128(le_bytes_u128(v)[0], le_bytes_u128(v)[1], le_bytes_u128(v)[2], le_bytes_u128(v)[3], le_bytes_u128(v)[4], le_bytes_u128(v)[5], le_bytes_u128(v)[6], le_bytes_u128(v)[7], le_bytes_u128(v)[8], le_bytes_u128(v)[9], le_bytes_u128(v)[10], le_bytes_u128(v)[11], le_bytes_u128(v)[12], le_bytes_u128(v)[13], le_bytes_u128(v)[14], le_bytes_u128(v)[15]) == v,
{
    let b0 = (v & 0xff) as u8;
    let b1 = ((v >> 8) & 0xff) as u8;
    let b2 = ((v >> 16) & 0xff) as u8;
    let b3 = ((v >> 24) & 0xff) as u8;
    let b4 = ((v >> 32) & 0xff) as u8;
    let b5 = ((v >> 40) & 0xff) as u8;
    let b6 = ((v >> 48) & 0xff) as u8;
    let b7 = ((v >> 56) & 0xff) as u8;
    let b8 = ((v >> 64) & 0xff) as u8;
    let b9 = ((v >> 72) & 0xff) as u8;
    let b10 = ((v >> 80) & 0xff) as u8;
    let b11 = ((v >> 88) & 0xff) as u8;
    let b12 = ((v >> 96) & 0xff) as u8;
    let b13 = ((v >> 104) & 0xff) as u8;
    let b14 = ((v >> 112) & 0xff) as u8;
    let b15 = ((v >> 120) & 0xff) as u8;
    assert((b0 as u128) | ((b1 as u128) << 8) | ((b2 as u128) << 16) | ((b3 as u128) << 24) | ((b4 as u128) << 32) | ((b5 as u128) << 40) | ((b6 as u128) << 48) | ((b7 as u128) << 56) | ((b8 as u128) << 64) | ((b9 as u128) << 72) | ((b10 as u128) << 80) | ((b11 as u128) << 88) | ((b12 as u128) << 96) | ((b13 as u128) << 104) | ((b14 as u128) << 112) | ((b15 as u128) << 120) == v) by (bit_vector)
        requires
            b0 == (v & 0xff) as u8,
            b1 == ((v >> 8) & 0xff) as u8,
            b2 == ((v >> 16) & 0xff) as u8,
            b3 == ((v >> 24) & 0xff) as u8,
            b4 == ((v >> 32) & 0xff) as u8,
            b5 == ((v >> 40) & 0xff) as u8,
            b6 == ((v >> 48) & 0xff) as u8,
            b7 == ((v >> 56) & 0xff) as u8,
            b8 == ((v >> 64) & 0xff) as u8,
            b9 == ((v >> 72) & 0xff) as u8,
            b10 == ((v >> 80) & 0xff) as u8,
            b11 == ((v >> 88) & 0xff) as u8,
            b12 == ((v >> 96) & 0xff) as u8,
            b13 == ((v >> 104) & 0xff) as u8,
            b14 == ((v >> 112) & 0xff) as u8,
            b15 == ((v >> 120) & 0xff) as u8,
    ;
}

proof fn lemma_u128_le_canonical(b0: u8, b1: u8, b2: u8, b3: u8, b4: u8, b5: u8, b6: u8, b7: u8, b8: u8, b9: u8, b10: u8, b11: u8, b12: u8, b13: u8, b14: u8, b15: u8)
    ensures
        le_bytes_u128(word_of_le_u128(b0, b1, b2, b3, b4, b5, b6, b7, b8, b9, b10, b11, b12, b13, b14, b15)) == seq![b0, b1, b2, b3, b4, b5, b6, b7, b8, b9, b10, b11, b12, b13, b14, b15],
{
    let w = word_of_le_u128(b0, b1, b2, b3, b4, b5, b6, b7, b8, b9, b10, b11, b12, b13, b14, b15);
    assert((w & 0xff) as u8 == b0 && ((w >> 8) & 0xff) as u8 == b1 && ((w >> 16) & 0xff) as u8 == b2 && ((w >> 24) & 0xff) as u8 == b3 && ((w >> 32) & 0xff) as u8 == b4 && ((w >> 40) & 0xff) as u8 == b5 && ((w >> 48) & 0xff) as u8 == b6 && ((w >> 56) & 0xff) as u8 == b7 && ((w >> 64) & 0xff) as u8 == b8 && ((w >> 72) & 0xff) as u8 == b9 && ((w >> 80) & 0xff) as u8 == b10 && ((w >> 88) & 0xff) as u8 == b11 && ((w >> 96) & 0xff) as u8 == b12 && ((w >> 104) & 0xff) as u8 == b13 && ((w >> 112) & 0xff) as u8 == b14 && ((w >> 120) & 0xff) as u8 == b15) by (bit_vector)
        requires
            w == (b0 as u128) | ((b1 as u128) << 8) | ((b2 as u128) << 16) | ((b3 as u128) << 24) | ((b4 as u128) << 32) | ((b5 as u128) << 40) | ((b6 as u128) << 48) | ((b7 as u128) << 56) | ((b8 as u128) << 64) | ((b9 as u128) << 72) | ((b10 as u128) << 80) | ((b11 as u128) << 88) | ((b12 as u128) << 96) | ((b13 as u128) << 104) | ((b14 as u128) << 112) | ((b15 as u128) << 120),
    ;
    assert(le_bytes_u128(w) =~= seq![b0, b1, b2, b3, b4, b5, b6, b7, b8, b9, b10, b11, b12, b13, b14, b15]);
}

impl PackedLayout for u128 {
    open spec fn enc(&self) -> Seq<u8> {
        le_bytes_u128(*self)
    }

    open spec fn dec(bytes: Seq<u8>) -> Option<u128> {
        if bytes.len() == 16 {
            Some(word_of_le_u128(bytes[0], bytes[1], bytes[2], bytes[3], bytes[4], bytes[5], bytes[6], bytes[7], bytes[8], bytes[9], bytes[10], bytes[11], bytes[12], bytes[13], bytes[14], bytes[15]))
        } else {
            None
        }
    }

    proof fn lemma_enc_dec(v: u128) {
        lemma_u128_le_round_trip(v);
    }

    proof fn lemma_dec_enc(bytes: Seq<u8>) {
        if bytes.len() == 16 {
            lemma_u128_le_canonical(bytes[0], bytes[1], bytes[2], bytes[3], bytes[4], bytes[5], bytes[6], bytes[7], bytes[8], bytes[9], bytes[10], bytes[11], bytes[12], bytes[13], bytes[14], bytes[15]);
            assert(seq![bytes[0], bytes[1], bytes[2], bytes[3], bytes[4], bytes[5], bytes[6], bytes[7], bytes[8], bytes[9], bytes[10], bytes[11], bytes[12], bytes[13], bytes[14], bytes[15]] =~= bytes);
        }
    }

    fn encode(&self) -> (r: Vec<u8>) {
        let v = *self;
        let mut r: Vec<u8> = Vec::new();
        r.push((v & 0xff) as u8);
        r.push(((v >> 8) & 0xff) as u8);
        r.push(((v >> 16) & 0xff) as u8);
        r.push(((v >> 24) & 0xff) as u8);
        r.push(((v >> 32) & 0xff) as u8);
        r.push(((v >> 40) & 0xff) as u8);
        r.push(((v >> 48) & 0xff) as u8);
        r.push(((v >> 56) & 0xff) as u8);
        r.push(((v >> 64) & 0xff) as u8);
        r.push(((v >> 72) & 0xff) as u8);
        r.push(((v >> 80) & 0xff) as u8);
        r.push(((v >> 88) & 0xff) as u8);
        r.push(((v >> 96) & 0xff) as u8);
        r.push(((v >> 104) & 0xff) as u8);
        r.push(((v >> 112) & 0xff) as u8);
        r.push(((v >> 120) & 0xff) as u8);
        proof {
            assert(r@ =~= self.enc());
        }
        r
    }

    fn decode(bytes: &[u8]) -> (r: Option<u128>) {
        if bytes.len() == 16 {
            Some((bytes[0] as u128) | ((bytes[1] as u128) << 8) | ((bytes[2] as u128) << 16) | ((bytes[3] as u128) << 24) | ((bytes[4] as u128) << 32) | ((bytes[5] as u128) << 40) | ((bytes[6] as u128) << 48) | ((bytes[7] as u128) << 56) | ((bytes[8] as u128) << 64) | ((bytes[9] as u128) << 72) | ((bytes[10] as u128) << 80) | ((bytes[11] as u128) << 88) | ((bytes[12] as u128) << 96) | ((bytes[13] as u128) << 104) | ((bytes[14] as u128) << 112) | ((bytes[15] as u128) << 120))
        } else {
            None
        }
    }
}

impl SpreadLayout for u128 {
    open spec fn footprint_spec() -> nat {
        1
    }

    fn footprint() -> u64 {
        1
    }

    open spec fn cells(&self, k: nat) -> Map<nat, Seq<u8>> {
        packed_cells(*self, k)
    }

    open spec fn dec_at(m: Map<nat, Seq<u8>>, k: nat) -> Option<u128> {
        packed_dec_at(m, k)
    }

    proof fn lemma_cells_dom(&self, k: nat) {
        lemma_packed_cells_dom(*self, k);
    }

    proof fn lemma_round_trip(&self, k: nat, m: Map<nat, Seq<u8>>) {
        lemma_packed_round_trip(*self, k, m);
    }

    fn push_spread(&self, ptr: &mut KeyPtr, store: &mut CellStore) {
        forward_push_packed(self, ptr, store);
    }

    fn pull_spread(ptr: &mut KeyPtr, store: &CellStore) -> (r: u128) {
        forward_pull_packed(ptr, store)
    }

    fn clear_spread(&self, ptr: &mut KeyPtr, store: &mut CellStore) {
        forward_clear_packed(self, ptr, store);
    }
}

/// The unsigned word carrying the two's-complement bits of a signed
/// 8-bit value.
pub open spec fn bits_of_i8(v: i8) -> u8 {
    if v >= 0 {
        v as u8
    } else {
        (v + 0x100) as u8
    }
}

/// The signed 8-bit value whose two's-complement bits are the given
/// word.
pub open spec fn i8_of_bits(w: u8) -> i8 {
    if w < 0x80 {
        w as i8
    } else {
        (w - 0x100) as i8
    }
}

impl PackedLayout for i8 {
    open spec fn enc(&self) -> Seq<u8> {
        seq![bits_of_i8(*self)]
    }

    open spec fn dec(bytes: Seq<u8>) -> Option<i8> {
        match <u8 as PackedLayout>::dec(bytes) {
            Some(w) => Some(i8_of_bits(w)),
            None => None,
        }
    }

    proof fn lemma_enc_dec(v: i8) {
        <u8 as PackedLayout>::lemma_enc_dec(bits_of_i8(v));
        assert(seq![bits_of_i8(v)] =~= bits_of_i8(v).enc());
    }

    proof fn lemma_dec_enc(bytes: Seq<u8>) {
        <u8 as PackedLayout>::lemma_dec_enc(bytes);
        if bytes.len() == 1 {
            let w = <u8 as PackedLayout>::dec(bytes).unwrap();
            assert(bits_of_i8(i8_of_bits(w)) == w);
        }
    }

    fn encode(&self) -> (r: Vec<u8>) {
        let w: u8 = if *self >= 0 {
            *self as u8
        } else {
            ((*self as i16) + 0x100) as u8
        };
        let r = w.encode();
        proof {
            assert(w == bits_of_i8(*self));
        }
        r
    }

    fn decode(bytes: &[u8]) -> (r: Option<i8>) {
        match <u8 as PackedLayout>::decode(bytes) {
            Some(w) => {
                let v: i8 = if w < 0x80 {
                w as i8
            } else {
                ((w as i16) - 0x100) as i8
            };
                proof {
                    assert(v == i8_of_bits(w));
                }
                Some(v)
            },
            None => None,
        }
    }
}

impl SpreadLayout for i8 {
    open spec fn footprint_spec() -> nat {
        1
    }

    fn footprint() -> u64 {
        1
    }

    open spec fn cells(&self, k: nat) -> Map<nat, Seq<u8>> {
        packed_cells(*self, k)
    }

    open spec fn dec_at(m: Map<nat, Seq<u8>>, k: nat) -> Option<i8> {
        packed_dec_at(m, k)
    }

    proof fn lemma_cells_dom(&self, k: nat) {
        lemma_packed_cells_dom(*self, k);
    }

    proof fn lemma_round_trip(&self, k: nat, m: Map<nat, Seq<u8>>) {
        lemma_packed_round_trip(*self, k, m);
    }

    fn push_spread(&self, ptr: &mut KeyPtr, store: &mut CellStore) {
        forward_push_packed(self, ptr, store);
    }

    fn pull_spread(ptr: &mut KeyPtr, store: &CellStore) -> (r: i8) {
        forward_pull_packed(ptr, store)
    }

    fn clear_spread(&self, ptr: &mut KeyPtr, store: &mut CellStore) {
        forward_clear_packed(self, ptr, store);
    }
}

/// The unsigned word carrying the two's-complement bits of a signed
/// 16-bit value.
pub open spec fn bits_of_i16(v: i16) -> u16 {
    if v >= 0 {
        v as u16
    } else {
        (v + 0x1_0000) as u16
    }
}

/// The signed 16-bit value whose two's-complement bits are the given
/// word.
pub open spec fn i16_of_bits(w: u16) -> i16 {
    if w < 0x8000 {
        w as i16
    } else {
        (w - 0x1_0000) as i16
    }
}

impl PackedLayout for i16 {
    open spec fn enc(&self) -> Seq<u8> {
        le_bytes_u16(bits_of_i16(*self))
    }

    open spec fn dec(bytes: Seq<u8>) -> Option<i16> {
        match <u16 as PackedLayout>::dec(bytes) {
            Some(w) => Some(i16_of_bits(w)),
            None => None,
        }
    }

    proof fn lemma_enc_dec(v: i16) {
        lemma_u16_le_round_trip(bits_of_i16(v));
        <u16 as PackedLayout>::lemma_enc_dec(bits_of_i16(v));
    }

    proof fn lemma_dec_enc(bytes: Seq<u8>) {
        <u16 as PackedLayout>::lemma_dec_enc(bytes);
        if bytes.len() == 2 {
            let w = <u16 as PackedLayout>::dec(bytes).unwrap();
            assert(bits_of_i16(i16_of_bits(w)) == w);
        }
    }

    fn encode(&self) -> (r: Vec<u8>) {
        let w: u16 = if *self >= 0 {
            *self as u16
        } else {
            ((*self as i32) + 0x1_0000) as u16
        };
        let r = w.encode();
        proof {
            assert(w == bits_of_i16(*self));
        }
        r
    }

    fn decode(bytes: &[u8]) -> (r: Option<i16>) {
        match <u16 as PackedLayout>::decode(bytes) {
            Some(w) => {
                let v: i16 = if w < 0x8000 {
                w as i16
            } else {
                ((w as i32) - 0x1_0000) as i16
            };
                proof {
                    assert(v == i16_of_bits(w));
                }
                Some(v)
            },
            None => None,
        }
    }
}

impl SpreadLayout for i16 {
    open spec fn footprint_spec() -> nat {
        1
    }

    fn footprint() -> u64 {
        1
    }

    open spec fn cells(&self, k: nat) -> Map<nat, Seq<u8>> {
        packed_cells(*self, k)
    }

    open spec fn dec_at(m: Map<nat, Seq<u8>>, k: nat) -> Option<i16> {
        packed_dec_at(m, k)
    }

    proof fn lemma_cells_dom(&self, k: nat) {
        lemma_packed_cells_dom(*self, k);
    }

    proof fn lemma_round_trip(&self, k: nat, m: Map<nat, Seq<u8>>) {
        lemma_packed_round_trip(*self, k, m);
    }

    fn push_spread(&self, ptr: &mut KeyPtr, store: &mut CellStore) {
        forward_push_packed(self, ptr, store);
    }

    fn pull_spread(ptr: &mut KeyPtr, store: &CellStore) -> (r: i16) {
        forward_pull_packed(ptr, store)
    }

    fn clear_spread(&self, ptr: &mut KeyPtr, store: &mut CellStore) {
        forward_clear_packed(self, ptr, store);
    }
}

/// The unsigned word carrying the two's-complement bits of a signed
/// 64-bit value.
pub open spec fn bits_of_i64(v: i64) -> u64 {
    if v >= 0 {
        v as u64
    } else {
        (v + 0x1_0000_0000_0000_0000) as u64
    }
}

/// The signed 64-bit value whose two's-complement bits are the given
/// word.
pub open spec fn i64_of_bits(w: u64) -> i64 {
    if w < 0x8000_0000_0000_0000 {
        w as i64
    } else {
        (w - 0x1_0000_0000_0000_0000) as i64
    }
}

impl PackedLayout for i64 {
    open spec fn enc(&self) -> Seq<u8> {
        le_bytes_u64(bits_of_i64(*self))
    }

    open spec fn dec(bytes: Seq<u8>) -> Option<i64> {
        match <u64 as PackedLayout>::dec(bytes) {
            Some(w) => Some(i64_of_bits(w)),
            None => None,
        }
    }

    proof fn lemma_enc_dec(v: i64) {
        lemma_u64_le_round_trip(bits_of_i64(v));
        <u64 as PackedLayout>::lemma_enc_dec(bits_of_i64(v));
    }

    proof fn lemma_dec_enc(bytes: Seq<u8>) {
        <u64 as PackedLayout>::lemma_dec_enc(bytes);
        if bytes.len() == 8 {
            let w = <u64 as PackedLayout>::dec(bytes).unwrap();
            assert(bits_of_i64(i64_of_bits(w)) == w);
        }
    }

    fn encode(&self) -> (r: Vec<u8>) {
        let w: u64 = if *self >= 0 {
            *self as u64
        } else {
            ((*self as i128) + 0x1_0000_0000_0000_0000) as u64
        };
        let r = w.encode();
        proof {
            assert(w == bits_of_i64(*self));
        }
        r
    }

    fn decode(bytes: &[u8]) -> (r: Option<i64>) {
        match <u64 as PackedLayout>::decode(bytes) {
            Some(w) => {
                let v: i64 = if w < 0x8000_0000_0000_0000 {
                w as i64
            } else {
                ((w as i128) - 0x1_0000_0000_0000_0000) as i64
            };
                proof {
                    assert(v == i64_of_bits(w));
                }
                Some(v)
            },
            None => None,
        }
    }
}

impl SpreadLayout for i64 {
    open spec fn footprint_spec() -> nat {
        1
    }

    fn footprint() -> u64 {
        1
    }

    open spec fn cells(&self, k: nat) -> Map<nat, Seq<u8>> {
        packed_cells(*self, k)
    }

    open spec fn dec_at(m: Map<nat, Seq<u8>>, k: nat) -> Option<i64> {
        packed_dec_at(m, k)
    }

    proof fn lemma_cells_dom(&self, k: nat) {
        lemma_packed_cells_dom(*self, k);
    }

    proof fn lemma_round_trip(&self, k: nat, m: Map<nat, Seq<u8>>) {
        lemma_packed_round_trip(*self, k, m);
    }

    fn push_spread(&self, ptr: &mut KeyPtr, store: &mut CellStore) {
        forward_push_packed(self, ptr, store);
    }

    fn pull_spread(ptr: &mut KeyPtr, store: &CellStore) -> (r: i64) {
        forward_pull_packed(ptr, store)
    }

    fn clear_spread(&self, ptr: &mut KeyPtr, store: &mut CellStore) {
        forward_clear_packed(self, ptr, store);
    }
}

/// The unsigned word carrying the two's-complement bits of a signed
/// 128-bit value.
pub open spec fn bits_of_i128(v: i128) -> u128 {
    if v >= 0 {
        v as u128
    } else {
        (v + 0x1_0000_0000_0000_0000_0000_0000_0000_0000) as u128
    }
}

/// The signed 128-bit value whose two's-complement bits are the given
/// word.
pub open spec fn i128_of_bits(w: u128) -> i128 {
    if w < 0x8000_0000_0000_0000_0000_0000_0000_0000 {
        w as i128
    } else {
        (w - 0x1_0000_0000_0000_0000_0000_0000_0000_0000) as i128
    }
}

impl PackedLayout for i128 {
    open spec fn enc(&self) -> Seq<u8> {
        le_bytes_u128(bits_of_i128(*self))
    }

    open spec fn dec(bytes: Seq<u8>) -> Option<i128> {
        match <u128 as PackedLayout>::dec(bytes) {
            Some(w) => Some(i128_of_bits(w)),
            None => None,
        }
    }

    proof fn lemma_enc_dec(v: i128) {
        lemma_u128_le_round_trip(bits_of_i128(v));
        <u128 as PackedLayout>::lemma_enc_dec(bits_of_i128(v));
    }

    proof fn lemma_dec_enc(bytes: Seq<u8>) {
        <u128 as PackedLayout>::lemma_dec_enc(bytes);
        if bytes.len() == 16 {
            let w = <u128 as PackedLayout>::dec(bytes).unwrap();
            assert(bits_of_i128(i128_of_bits(w)) == w);
        }
    }

    fn encode(&self) -> (r: Vec<u8>) {
        let w: u128 = if *self >= 0 {
            *self as u128
        } else {
            u128::MAX - ((-(*self + 1)) as u128)
        };
        let r = w.encode();
        proof {
            assert(w == bits_of_i128(*self));
        }
        r
    }

    fn decode(bytes: &[u8]) -> (r: Option<i128>) {
        match <u128 as PackedLayout>::decode(bytes) {
            Some(w) => {
                let v: i128 = if w < 0x8000_0000_0000_0000_0000_0000_0000_0000 {
                w as i128
            } else {
                -((u128::MAX - w) as i128) - 1
            };
                proof {
                    assert(v == i128_of_bits(w));
                }
                Some(v)
            },
            None => None,
        }
    }
}

impl SpreadLayout for i128 {
    open spec fn footprint_spec() -> nat {
        1
    }

    fn footprint() -> u64 {
        1
    }

    open spec fn cells(&self, k: nat) -> Map<nat, Seq<u8>> {
        packed_cells(*self, k)
    }

    open spec fn dec_at(m: Map<nat, Seq<u8>>, k: nat) -> Option<i128> {
        packed_dec_at(m, k)
    }

    proof fn lemma_cells_dom(&self, k: nat) {
        lemma_packed_cells_dom(*self, k);
    }

    proof fn lemma_round_trip(&self, k: nat, m: Map<nat, Seq<u8>>) {
        lemma_packed_round_trip(*self, k, m);
    }

    fn push_spread(&self, ptr: &mut KeyPtr, store: &mut CellStore) {
        forward_push_packed(self, ptr, store);
    }

    fn pull_spread(ptr: &mut KeyPtr, store: &CellStore) -> (r: i128) {
        forward_pull_packed(ptr, store)
    }

    fn clear_spread(&self, ptr: &mut KeyPtr, store: &mut CellStore) {
        forward_clear_packed(self, ptr, store);
    }
}


impl PackedLayout for Key {
    open spec fn enc(&self) -> Seq<u8> {
        le_bytes_u64(self.w0) + le_bytes_u64(self.w1) + le_bytes_u64(self.w2) + le_bytes_u64(
            self.w3,
        )
    }

    open spec fn dec(bytes: Seq<u8>) -> Option<Key> {
        if bytes.len() == 32 {
            Some(
                Key {
                    w0: word_of_le_u64(
                        bytes[0],
                        bytes[1],
                        bytes[2],
                        bytes[3],
                        bytes[4],
                        bytes[5],
                        bytes[6],
                        bytes[7],
                    ),
                    w1: word_of_le_u64(
                        bytes[8],
                        bytes[9],
                        bytes[10],
                        bytes[11],
                        bytes[12],
                        bytes[13],
                        bytes[14],
                        bytes[15],
                    ),
                    w2: word_of_le_u64(
                        bytes[16],
                        bytes[17],
                        bytes[18],
                        bytes[19],
                        bytes[20],
                        bytes[21],
                        bytes[22],
                        bytes[23],
                    ),
                    w3: word_of_le_u64(
                        bytes[24],
                        bytes[25],
                        bytes[26],
                        bytes[27],
                        bytes[28],
                        bytes[29],
                        bytes[30],
                        bytes[31],
                    ),
                },
            )
        } else {
            None
        }
    }

    proof fn lemma_enc_dec(v: Key) {
        lemma_u64_le_round_trip(v.w0);
        lemma_u64_le_round_trip(v.w1);
        lemma_u64_le_round_trip(v.w2);
        lemma_u64_le_round_trip(v.w3);
        let e = v.enc();
        assert forall|i: int| 0 <= i < 32 implies e[i] == (if i < 8 {
            le_bytes_u64(v.w0)[i]
        } else if i < 16 {
            le_bytes_u64(v.w1)[i - 8]
        } else if i < 24 {
            le_bytes_u64(v.w2)[i - 16]
        } else {
            le_bytes_u64(v.w3)[i - 24]
        }) by {}
    }

    proof fn lemma_dec_enc(bytes: Seq<u8>) {
        if bytes.len() == 32 {
            let k = Self::dec(bytes).unwrap();
            lemma_u64_le_canonical(
                bytes[0],
                bytes[1],
                bytes[2],
                bytes[3],
                bytes[4],
                bytes[5],
                bytes[6],
                bytes[7],
            );
            lemma_u64_le_canonical(
                bytes[8],
                bytes[9],
                bytes[10],
                bytes[11],
                bytes[12],
                bytes[13],
                bytes[14],
                bytes[15],
            );
            lemma_u64_le_canonical(
                bytes[16],
                bytes[17],
                bytes[18],
                bytes[19],
                bytes[20],
                bytes[21],
                bytes[22],
                bytes[23],
            );
            lemma_u64_le_canonical(
                bytes[24],
                bytes[25],
                bytes[26],
                bytes[27],
                bytes[28],
                bytes[29],
                bytes[30],
                bytes[31],
            );
            assert(k.enc() =~= bytes);
        }
    }

    fn encode(&self) -> (r: Vec<u8>) {
        let mut r = self.w0.encode();
        let mut r1 = self.w1.encode();
        let mut r2 = self.w2.encode();
        let mut r3 = self.w3.encode();
        r.append(&mut r1);
        r.append(&mut r2);
        r.append(&mut r3);
        proof {
            assert(r@ =~= self.enc());
        }
        r
    }

    fn decode(bytes: &[u8]) -> (r: Option<Key>) {
        if bytes.len() == 32 {
            let w0 = match <u64 as PackedLayout>::decode(slice_subrange(bytes, 0, 8)) {
                Some(w) => w,
                None => vstd::pervasive::unreached(),
            };
            let w1 = match <u64 as PackedLayout>::decode(slice_subrange(bytes, 8, 16)) {
                Some(w) => w,
                None => vstd::pervasive::unreached(),
            };
            let w2 = match <u64 as PackedLayout>::decode(slice_subrange(bytes, 16, 24)) {
                Some(w) => w,
                None => vstd::pervasive::unreached(),
            };
            let w3 = match <u64 as PackedLayout>::decode(slice_subrange(bytes, 24, 32)) {
                Some(w) => w,
                None => vstd::pervasive::unreached(),
            };
            proof {
                assert(Self::dec(bytes@) == Some(Key { w0, w1, w2, w3 })) by {
                    assert(bytes@.subrange(0, 8) =~= seq![
                        bytes@[0], bytes@[1], bytes@[2], bytes@[3], bytes@[4], bytes@[5],
                        bytes@[6], bytes@[7],
                    ]);
                    assert(bytes@.subrange(8, 16) =~= seq![
                        bytes@[8], bytes@[9], bytes@[10], bytes@[11], bytes@[12], bytes@[13],
                        bytes@[14], bytes@[15],
                    ]);
                    assert(bytes@.subrange(16, 24) =~= seq![
                        bytes@[16], bytes@[17], bytes@[18], bytes@[19], bytes@[20], bytes@[21],
                        bytes@[22], bytes@[23],
                    ]);
                    assert(bytes@.subrange(24, 32) =~= seq![
                        bytes@[24], bytes@[25], bytes@[26], bytes@[27], bytes@[28], bytes@[29],
                        bytes@[30], bytes@[31],
                    ]);
                }
            }
            Some(Key { w0, w1, w2, w3 })
        } else {
            None
        }
    }
}

impl SpreadLayout for Key {
    open spec fn footprint_spec() -> nat {
        1
    }

    fn footprint() -> u64 {
        1
    }

    open spec fn cells(&self, k: nat) -> Map<nat, Seq<u8>> {
        packed_cells(*self, k)
    }

    open spec fn dec_at(m: Map<nat, Seq<u8>>, k: nat) -> Option<Key> {
        packed_dec_at(m, k)
    }

    proof fn lemma_cells_dom(&self, k: nat) {
        lemma_packed_cells_dom(*self, k);
    }

    proof fn lemma_round_trip(&self, k: nat, m: Map<nat, Seq<u8>>) {
        lemma_packed_round_trip(*self, k, m);
    }

    fn push_spread(&self, ptr: &mut KeyPtr, store: &mut CellStore) {
        forward_push_packed(self, ptr, store);
    }

    fn pull_spread(ptr: &mut KeyPtr, store: &CellStore) -> (r: Key) {
        forward_pull_packed(ptr, store)
    }

    fn clear_spread(&self, ptr: &mut KeyPtr, store: &mut CellStore) {
        forward_clear_packed(self, ptr, store);
    }
}

} // verus!
