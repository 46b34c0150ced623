//! Cryptographic hash utilities: each digest is named by an uninterpreted
//! function of the input bytes, and computed by an outside implementation.

use vstd::prelude::*;
use sha2::{Digest, Sha256};
use tiny_keccak::{Hasher, Keccak};

verus! {

pub uninterp spec fn blake2_256_of(input: Seq<u8>) -> Seq<u8>;

pub uninterp spec fn blake2_128_of(input: Seq<u8>) -> Seq<u8>;

pub uninterp spec fn keccak_256_of(input: Seq<u8>) -> Seq<u8>;

pub uninterp spec fn sha2_256_of(input: Seq<u8>) -> Seq<u8>;

/// Conducts the BLAKE2b 256-bit hash and places the digest into `output`.
///
/// Relies on `blake2_rfc::blake2b::blake2b`: the digest depends on the
/// requested length and the input bytes alone.
#[verifier::external_body]
pub fn blake2_256(input: &[u8], output: &mut [u8; 32])
    ensures
        final(output)@ == blake2_256_of(input@),
{
    output.copy_from_slice(blake2_rfc::blake2b::blake2b(32, &[], input).as_bytes());
}

/// Conducts the BLAKE2b 128-bit hash and places the digest into `output`.
///
/// Relies on `blake2_rfc::blake2b::blake2b`: the digest depends on the
/// requested length and the input bytes alone.
#[verifier::external_body]
pub fn blake2_128(input: &[u8], output: &mut [u8; 16])
    ensures
        final(output)@ == blake2_128_of(input@),
{
    output.copy_from_slice(blake2_rfc::blake2b::blake2b(16, &[], input).as_bytes());
}

/// Conducts the Keccak 256-bit hash and places the digest into `output`.
///
/// Relies on `tiny_keccak::Keccak`: the digest depends on the input bytes
/// alone.
#[verifier::external_body]
pub fn keccak_256(input: &[u8], output: &mut [u8; 32])
    ensures
        final(output)@ == keccak_256_of(input@),
{
    let mut keccak = Keccak::v256();
    keccak.update(input);
    keccak.finalize(output)
}

/// Conducts the SHA-2 256-bit hash and places the digest into `output`.
///
/// Relies on `sha2::Sha256`: the digest depends on the input bytes alone.
#[verifier::external_body]
pub fn sha2_256(input: &[u8], output: &mut [u8; 32])
    ensures
        final(output)@ == sha2_256_of(input@),
{
    let mut hasher = Sha256::new();
    hasher.input(input);
    output.copy_from_slice(&hasher.result());
}

} // verus!
