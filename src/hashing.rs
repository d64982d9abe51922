//! The seeded 64-bit digest that both filters place keys with.
use vstd::prelude::*;

verus! {

/// A deterministic digest of a byte sequence under a numeric seed, for
/// sequences whose length fits an `i32`.
///
/// The filters are generic over it; `spec_digest` names the value that
/// `digest` returns, so that a filter's contracts can speak of positions.
pub trait SeededHash {
    spec fn spec_digest(seed: u32, bytes: Seq<u8>) -> u64;

    fn digest(seed: u32, bytes: &[u8]) -> (r: u64)
        requires
            bytes@.len() <= i32::MAX,
        ensures
            r == Self::spec_digest(seed, bytes@),
    ;
}

/// fasthash's buffered MurmurHash3 hasher, declared so that it can implement `SeededHash`.
#[verifier::external_type_specification]
#[verifier::external_body]
pub struct ExMurmur3Hasher32(fasthash::murmur3::Hasher32);

/// fasthash's buffered MetroHash hasher, declared so that it can implement `SeededHash`.
#[verifier::external_type_specification]
#[verifier::external_body]
pub struct ExMetroHasher64(fasthash::metro::Hasher64_1);

/// The 32-bit MurmurHash3 (x86 variant) of `bytes` under `seed`.
pub uninterp spec fn murmur3_x86_32(seed: u32, bytes: Seq<u8>) -> u32;

/// The 64-bit MetroHash (variant 1) of `bytes` under `seed`.
pub uninterp spec fn metro_64_1(seed: u32, bytes: Seq<u8>) -> u64;

/// Relies on fasthash::murmur3::Hash32::hash_with_seed: a function of the bytes and seed alone.
/// The length reaches the C code as an `i32`, hence the bound on it.
#[verifier::external_body]
fn murmur3_digest(seed: u32, bytes: &[u8]) -> (r: u32)
    requires
        bytes@.len() <= i32::MAX,
    ensures
        r == murmur3_x86_32(seed, bytes@),
{
    <fasthash::murmur3::Hash32 as fasthash::FastHash>::hash_with_seed(bytes, seed)
}

/// Relies on fasthash::metro::Hash64_1::hash_with_seed: a function of the bytes and seed alone.
#[verifier::external_body]
fn metro_digest(seed: u32, bytes: &[u8]) -> (r: u64)
    ensures
        r == metro_64_1(seed, bytes@),
{
    <fasthash::metro::Hash64_1 as fasthash::FastHash>::hash_with_seed(bytes, seed)
}

impl SeededHash for fasthash::murmur3::Hasher32 {
    open spec fn spec_digest(seed: u32, bytes: Seq<u8>) -> u64 {
        murmur3_x86_32(seed, bytes) as u64
    }

    fn digest(seed: u32, bytes: &[u8]) -> (r: u64) {
        murmur3_digest(seed, bytes) as u64
    }
}

impl SeededHash for fasthash::metro::Hasher64_1 {
    open spec fn spec_digest(seed: u32, bytes: Seq<u8>) -> u64 {
        metro_64_1(seed, bytes)
    }

    fn digest(seed: u32, bytes: &[u8]) -> (r: u64) {
        metro_digest(seed, bytes)
    }
}

} // verus!
