//! The record that holds one interned string inside an arena.
//!
//! A record is laid out as: the 64-bit hash, the length of the string as a
//! 64-bit number, the bytes of the string, one zero byte, and padding up to
//! the next multiple of eight. Both numbers are little-endian. The string is
//! addressed by the offset of its first byte, sixteen bytes after the start
//! of the record.

use vstd::prelude::*;
use vstd::bytes::*;
use vstd::string::StringSliceAdditionalSpecFns;
use crate::align::{lemma_clear_is_round_down, lemma_eight_is_pow2, spec_round_down, spec_round_up};
use crate::bumpalloc::{spec_write, LeakyBumpAlloc};

verus! {

/// Size of the header of a record: the hash and the length.
pub const HEADER_SIZE: usize = 16;

/// Alignment of every record.
pub const ENTRY_ALIGN: usize = 8;

/// What identifies an interned string: its hash and its bytes.
pub ghost struct Key {
    pub hash: u64,
    pub bytes: Seq<u8>,
}

/// The hash stored in the record at `off`.
pub open spec fn hash_at(mem: Seq<u8>, off: int) -> u64 {
    spec_u64_from_le_bytes(mem.subrange(off, off + 8))
}

/// The length stored in the record at `off`.
pub open spec fn len_at(mem: Seq<u8>, off: int) -> u64 {
    spec_u64_from_le_bytes(mem.subrange(off + 8, off + 16))
}

/// The key that the record at `off` holds.
pub open spec fn key_at(mem: Seq<u8>, off: int) -> Key {
    Key { hash: hash_at(mem, off), bytes: mem.subrange(off + 16, off + 16 + len_at(mem, off)) }
}

/// The bytes from `off` on are a complete record for `key`.
pub open spec fn stored_at(mem: Seq<u8>, off: int, key: Key) -> bool {
    &&& 0 <= off
    &&& off + 17 + key.bytes.len() <= mem.len()
    &&& key.bytes.len() <= u64::MAX
    &&& hash_at(mem, off) == key.hash
    &&& len_at(mem, off) == key.bytes.len()
    &&& mem.subrange(off + 16, off + 16 + key.bytes.len()) == key.bytes
    &&& mem[off + 16 + key.bytes.len()] == 0
}

/// Bytes that a request for a string of `len` bytes asks of the arena.
pub open spec fn request_size(len: int) -> int {
    len + 17
}

/// Distance from the start of a record for a string of `len` bytes to the
/// start of the record above it.
pub open spec fn footprint(len: int) -> int {
    16 + spec_round_up(len + 1, 8)
}

/// A record is untouched by writes outside its bytes.
pub proof fn lemma_stored_frame(mem: Seq<u8>, mem2: Seq<u8>, off: int, key: Key)
    requires
        stored_at(mem, off, key),
        mem2.len() == mem.len(),
        forall|i: int| off <= i < off + 17 + key.bytes.len() ==> mem2[i] == mem[i],
    ensures
        stored_at(mem2, off, key),
        key_at(mem2, off) == key,
{
    assert(mem2.subrange(off, off + 8) =~= mem.subrange(off, off + 8));
    assert(mem2.subrange(off + 8, off + 16) =~= mem.subrange(off + 8, off + 16));
    assert(mem2.subrange(off + 16, off + 16 + key.bytes.len()) =~= mem.subrange(
        off + 16,
        off + 16 + key.bytes.len(),
    ));
}

/// A cursor that was a multiple of eight, moved down for a string of `len`
/// bytes, lies one footprint below where it was.
pub proof fn lemma_footprint(cursor: int, len: int)
    requires
        0 <= len,
        request_size(len) <= cursor,
    ensures
        cursor % 8 == 0 ==> spec_round_down(cursor - request_size(len), 8) + footprint(len)
            == cursor,
        cursor == request_size(len) ==> spec_round_down(cursor - request_size(len), 8) == 0
            && cursor <= footprint(len) < cursor + 8,
        spec_round_down(cursor - request_size(len), 8) % 8 == 0,
        0 <= spec_round_down(cursor - request_size(len), 8) <= cursor - request_size(len),
        footprint(len) >= request_size(len),
{
}

/// The header of a record: the hash of the string and its length in bytes.
#[derive(Clone, Copy, Debug, PartialEq, Eq, Structural)]
pub struct StringCacheEntry {
    pub hash: u64,
    pub len: usize,
}

impl StringCacheEntry {
    /// The header of the record that starts at `at`.
    pub fn read(arena: &LeakyBumpAlloc, at: usize) -> (sce: StringCacheEntry)
        requires
            arena.wf(),
            stored_at(arena@, at as int, key_at(arena@, at as int)),
        ensures
            sce.hash == key_at(arena@, at as int).hash,
            sce.len == key_at(arena@, at as int).bytes.len(),
    {
        proof {
            arena.lemma_bounds();
        }
        let hash = arena.read_u64(at);
        let len = arena.read_u64(at + 8) as usize;
        StringCacheEntry { hash, len }
    }

    /// The position of the string of the record that starts at `at`.
    pub fn char_ptr(at: usize) -> (p: usize)
        requires
            at + HEADER_SIZE <= usize::MAX,
        ensures
            p == at + HEADER_SIZE,
    {
        at + HEADER_SIZE
    }

    /// Where the record above the record at `at` starts: one footprint
    /// further up.
    pub fn next_entry(&self, at: usize) -> (next: usize)
        requires
            at + footprint(self.len as int) <= usize::MAX,
        ensures
            next == at + footprint(self.len as int),
    {
        proof {
            lemma_eight_is_pow2();
        }
        StringCacheEntry::char_ptr(at) + round_up_to(self.len + 1, ENTRY_ALIGN)
    }
}

/// `n` rounded up to a multiple of the power of two `align`.
pub fn round_up_to(n: usize, align: usize) -> (r: usize)
    requires
        vstd::arithmetic::power2::is_pow2(align as int),
        n + align <= usize::MAX,
    ensures
        r == spec_round_up(n as int, align as int),
{
    proof {
        lemma_clear_is_round_down((n + align - 1) as usize, align);
    }
    (n + align - 1) & !(align - 1)
}

/// Writes the record for `bytes` with hash `hash` at offset `at` of `arena`.
pub fn write_record(arena: &mut LeakyBumpAlloc, at: usize, hash: u64, bytes: &[u8])
    requires
        old(arena).wf(),
        old(arena).spec_ptr() <= at,
        at + request_size(bytes@.len() as int) <= old(arena).spec_capacity(),
    ensures
        final(arena).wf(),
        final(arena).spec_ptr() == old(arena).spec_ptr(),
        final(arena).spec_capacity() == old(arena).spec_capacity(),
        final(arena).spec_align() == old(arena).spec_align(),
        final(arena)@.len() == old(arena)@.len(),
        stored_at(final(arena)@, at as int, Key { hash, bytes: bytes@ }),
        forall|i: int|
            0 <= i < old(arena)@.len() && !(at <= i < at + request_size(bytes@.len() as int))
                ==> final(arena)@[i] == old(arena)@[i],
{
    let len = bytes.len();
    let ghost m0 = arena@;
    proof {
        arena.lemma_bounds();
        lemma_auto_spec_u64_to_from_le_bytes();
    }
    arena.write_u64(at, hash);
    let ghost m1 = arena@;
    arena.write_u64(at + 8, len as u64);
    let ghost m2 = arena@;
    arena.write(at + 16, bytes);
    let ghost m3 = arena@;
    let nul: [u8; 1] = [0u8];
    arena.write(at + 16 + len, nul.as_slice());
    let ghost m4 = arena@;
    proof {
        let off = at as int;
        assert(m4.subrange(off, off + 8) =~= spec_u64_to_le_bytes(hash));
        assert(m4.subrange(off + 8, off + 16) =~= spec_u64_to_le_bytes(len as u64));
        assert(m4.subrange(off + 16, off + 16 + len) =~= bytes@);
        assert(m4[off + 16 + len] == nul@[0]);
    }
}

/// The string that `bytes` encode, by `std::str::from_utf8`. The standard
/// library returns the string exactly when the bytes are valid UTF-8, and
/// the string then has those bytes.
#[verifier::external_body]
pub(crate) fn str_from_utf8(bytes: &[u8]) -> (r: Option<&str>)
    ensures
        r is Some <==> vstd::utf8::valid_utf8(bytes@),
        r matches Some(s) ==> s.spec_bytes() == bytes@,
{
    std::str::from_utf8(bytes).ok()
}

} // verus!
