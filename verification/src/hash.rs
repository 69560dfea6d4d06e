//! Hashing of strings, and a hasher that hands back the number it was fed.

use vstd::prelude::*;
use vstd::bytes::spec_u64_from_le_bytes;
use std::hash::Hasher;
use byteorder::{ByteOrder, NativeEndian};

verus! {

/// The hash of `bytes`: what a hasher made by `ahash::AHasher::default()`
/// gives after one `write` of the bytes. The number depends on how the
/// hasher was built and on the machine, so nothing is claimed of it.
#[verifier::external_body]
pub(crate) fn hash_bytes(bytes: &[u8]) -> (hash: u64) {
    let mut hasher = ahash::AHasher::default();
    hasher.write(bytes);
    hasher.finish()
}

/// The number that the first eight bytes of `bytes` form in the byte order
/// of the machine, by `byteorder::NativeEndian::read_u64`. The machine's
/// order is one of two: least significant byte first, or last.
#[verifier::external_body]
pub(crate) fn read_native_u64(bytes: &[u8]) -> (value: u64)
    requires
        bytes@.len() >= 8,
    ensures
        value == spec_u64_from_le_bytes(bytes@.take(8)) || value == spec_u64_from_le_bytes(
            bytes@.take(8).reverse(),
        ),
{
    NativeEndian::read_u64(bytes)
}

/// The hash that the cache stores `string` under.
pub fn string_hash(string: &str) -> (hash: u64) {
    hash_bytes(string.as_bytes())
}

/// A hasher for keys that carry their hash: it keeps the last number of
/// eight bytes that it was fed and hands it back.
pub struct IdentityHasher {
    hash: u64,
}

impl Default for IdentityHasher {
    /// A hasher that holds zero.
    fn default() -> (hasher: IdentityHasher)
        ensures
            hasher.spec_hash() == 0,
    {
        IdentityHasher { hash: 0 }
    }
}

impl IdentityHasher {
    /// The number that `finish` returns.
    pub closed spec fn spec_hash(&self) -> u64 {
        self.hash
    }

    /// A hasher that holds `hash`.
    pub fn with_hash(hash: u64) -> (hasher: IdentityHasher)
        ensures
            hasher.spec_hash() == hash,
    {
        IdentityHasher { hash }
    }

    /// Takes the number that `bytes` form in the byte order of the machine
    /// if there are exactly eight of them, and ignores them otherwise.
    pub fn write(&mut self, bytes: &[u8])
        ensures
            bytes@.len() != 8 ==> final(self).spec_hash() == old(self).spec_hash(),
            bytes@.len() == 8 ==> final(self).spec_hash() == spec_u64_from_le_bytes(bytes@)
                || final(self).spec_hash() == spec_u64_from_le_bytes(bytes@.reverse()),
    {
        if bytes.len() == 8 {
            proof {
                assert(bytes@.take(8) =~= bytes@);
            }
            self.hash = read_native_u64(bytes);
        }
    }

    /// The number that the hasher holds.
    pub fn finish(&self) -> (hash: u64)
        ensures
            hash == self.spec_hash(),
    {
        self.hash
    }
}

} // verus!
