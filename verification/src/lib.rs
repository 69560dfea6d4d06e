//! String interning: byte-identical strings are stored once, inside bump
//! arenas owned by a sharded open-addressed cache, and are denoted by small
//! copyable handles.
//!
//! A [`Bins`] value is the whole cache. A [`Ustr`] is a handle into one
//! cache; everything that is read through a handle is read from the cache
//! that issued it.

use vstd::prelude::*;
use vstd::string::StringSliceAdditionalSpecFns;
use crate::cache::interned;
use crate::entry::Key;
use crate::stringcache::key_of_str;

pub mod align;
pub mod bumpalloc;
pub mod cache;
pub mod entry;
pub mod hash;
pub mod shard_inv;
pub mod iter;
pub mod lex;
pub mod order;
pub mod probe;
pub mod serialization;
pub mod stringcache;
pub mod table;

pub use cache::{
    _clear_cache, cache, num_entries, num_entries_per_bin, string_cache_iter, total_allocated,
    total_capacity, Bins,
};
pub use hash::{string_hash, IdentityHasher};
pub use iter::StringCacheIterator;
pub use serialization::{BinsVisitor, DeserializedCache, UstrVisitor};
pub use stringcache::{StringCache, BIN_SHIFT, NUM_BINS, TOP_SHIFT};
pub use table::Ptr;

verus! {

/// A handle to an interned string: the shard that holds the string and the
/// position of its first byte in the arenas of that shard.
#[derive(Clone, Copy, Debug, PartialEq, Eq, Structural, Hash)]
pub struct Ustr {
    bin: usize,
    char_ptr: Ptr,
}

impl Ustr {
    /// Index of the shard that holds the string.
    pub closed spec fn spec_bin(&self) -> usize {
        self.bin
    }

    /// Position of the first byte of the string.
    pub closed spec fn spec_char_ptr(&self) -> Ptr {
        self.char_ptr
    }

    /// The handle for the position `char_ptr` in shard `bin`.
    pub fn new(bin: usize, char_ptr: Ptr) -> (u: Ustr)
        ensures
            u.spec_bin() == bin,
            u.spec_char_ptr() == char_ptr,
            u == spec_handle(bin, char_ptr),
    {
        Ustr { bin, char_ptr }
    }

    /// The position of the string: of its first byte, which is also where
    /// the zero-terminated form of the string starts.
    pub fn as_char_ptr(&self) -> (p: Ptr)
        ensures
            p == self.spec_char_ptr(),
    {
        self.char_ptr
    }

    /// Index of the shard that holds the string.
    pub fn bin(&self) -> (b: usize)
        ensures
            b == self.spec_bin(),
    {
        self.bin
    }
}

/// The handle for the position `char_ptr` in shard `bin`.
pub closed spec fn spec_handle(bin: usize, char_ptr: Ptr) -> Ustr {
    Ustr { bin, char_ptr }
}

/// What a lookup gives when `string` hashes to `hash`: the handle that the
/// cache has for the string under that hash, or nothing if it has none.
pub open spec fn looked_up(cache: Bins, string: &str, hash: u64, r: Option<Ustr>) -> bool {
    &&& r is Some <==> cache@.contains_key(key_of_str(string, hash))
    &&& r matches Some(u) ==> u == cache@[key_of_str(string, hash)]
}

/// The shard that a hash selects: the number that its top six bits form.
pub open spec fn spec_whichbin(hash: u64) -> usize {
    ((hash >> 58) % 64) as usize
}

/// The shard that a hash selects.
pub fn whichbin(hash: u64) -> (bin: usize)
    ensures
        bin == spec_whichbin(hash),
        bin < NUM_BINS,
{
    ((hash >> (TOP_SHIFT as u64)) % (NUM_BINS as u64)) as usize
}

impl Ustr {
    /// The handle of `string` in `cache`. The string is stored first if the
    /// cache does not hold it yet.
    pub fn from(cache: &mut Bins, string: &str) -> (u: Ustr)
        requires
            old(cache).wf(),
            old(cache).can_intern(string.spec_bytes().len() as int),
        ensures
            final(cache).wf(),
            final(cache).holds(u),
            final(cache).key_of(u).bytes == string.spec_bytes(),
            u.spec_bin() == spec_whichbin(final(cache).key_of(u).hash),
            interned(*old(cache), *final(cache), final(cache).key_of(u), u),
    {
        let hash = string_hash(string);
        let u = cache.insert(string, hash);
        proof {
            cache.lemma_handle(key_of_str(string, hash));
        }
        u
    }

    /// The handle of `string` in `cache`, if the cache holds the string.
    /// Nothing is stored.
    pub fn from_existing(cache: &Bins, string: &str) -> (r: Option<Ustr>)
        requires
            cache.wf(),
        ensures
            r matches Some(u) ==> cache.holds(u) && cache.key_of(u).bytes == string.spec_bytes(),
            exists|hash: u64| looked_up(*cache, string, hash, r),
    {
        let hash = string_hash(string);
        let r = cache.get_existing(string, hash);
        proof {
            if r is Some {
                cache.lemma_handle(key_of_str(string, hash));
            }
            assert(looked_up(*cache, string, hash, r));
        }
        r
    }

    /// The string that the handle denotes.
    pub fn as_str<'a>(&self, cache: &'a Bins) -> (string: &'a str)
        requires
            cache.wf(),
            cache.holds(*self),
        ensures
            string.spec_bytes() == cache.key_of(*self).bytes,
    {
        cache.shard(self.bin).str_of(self.char_ptr)
    }

    /// The bytes of the string and the zero byte that ends them in the
    /// arena: the string as foreign code reads it from its first byte on.
    pub fn as_cstr<'a>(&self, cache: &'a Bins) -> (bytes: &'a [u8])
        requires
            cache.wf(),
            cache.holds(*self),
        ensures
            bytes@ == cache.key_of(*self).bytes.push(0),
    {
        cache.shard(self.bin).c_bytes_of(self.char_ptr)
    }

    /// Length of the string in bytes, read from its record.
    pub fn len(&self, cache: &Bins) -> (n: usize)
        requires
            cache.wf(),
            cache.holds(*self),
        ensures
            n == cache.key_of(*self).bytes.len(),
    {
        cache.shard(self.bin).len_of(self.char_ptr)
    }

    /// Whether the string has no bytes.
    pub fn is_empty(&self, cache: &Bins) -> (b: bool)
        requires
            cache.wf(),
            cache.holds(*self),
        ensures
            b == (cache.key_of(*self).bytes.len() == 0),
    {
        self.len(cache) == 0
    }

    /// The hash that the string was stored with, read from its record.
    pub fn precomputed_hash(&self, cache: &Bins) -> (hash: u64)
        requires
            cache.wf(),
            cache.holds(*self),
        ensures
            hash == cache.key_of(*self).hash,
    {
        cache.shard(self.bin).hash_of(self.char_ptr)
    }

    /// A copy of the string that the caller owns.
    pub fn to_owned(&self, cache: &Bins) -> (string: String)
        requires
            cache.wf(),
            cache.holds(*self),
        ensures
            string@ == vstd::utf8::decode_utf8(cache.key_of(*self).bytes),
    {
        let s = self.as_str(cache);
        proof {
            vstd::utf8::encode_utf8_decode_utf8(s@);
        }
        s.to_owned()
    }
}

/// The handle of `s` in `cache`. The string is stored first if the cache
/// does not hold it yet.
pub fn ustr(cache: &mut Bins, s: &str) -> (u: Ustr)
    requires
        old(cache).wf(),
        old(cache).can_intern(s.spec_bytes().len() as int),
    ensures
        final(cache).wf(),
        final(cache).holds(u),
        final(cache).key_of(u).bytes == s.spec_bytes(),
        u.spec_bin() == spec_whichbin(final(cache).key_of(u).hash),
        interned(*old(cache), *final(cache), final(cache).key_of(u), u),
{
    Ustr::from(cache, s)
}

/// The handle of `s` in `cache`, if the cache holds the string. Nothing is
/// stored.
pub fn existing_ustr(cache: &Bins, s: &str) -> (r: Option<Ustr>)
    requires
        cache.wf(),
    ensures
        r matches Some(u) ==> cache.holds(u) && cache.key_of(u).bytes == s.spec_bytes(),
        exists|hash: u64| looked_up(*cache, s, hash, r),
{
    Ustr::from_existing(cache, s)
}

/// What `try_ustr` does: it interns `s` where the string is there or the
/// machine can hold it, and leaves the cache as it was where it cannot.
pub open spec fn tried(before: Bins, after: Bins, s: &str, r: Option<Ustr>) -> bool {
    match r {
        Some(u) => {
            &&& after.holds(u)
            &&& after.key_of(u).bytes == s.spec_bytes()
            &&& u.spec_bin() == spec_whichbin(after.key_of(u).hash)
            &&& interned(before, after, after.key_of(u), u)
        },
        None => {
            &&& after == before
            &&& exists|hash: u64|
                !before@.contains_key(key_of_str(s, hash)) && !before.can_admit(
                    s.spec_bytes().len() as int,
                    hash,
                )
        },
    }
}

/// The handle of `s` in `cache`, which is stored first if the cache does
/// not hold it yet; or nothing, with the cache unchanged, if the string is
/// new and the machine cannot hold what storing it asks for.
pub fn try_ustr(cache: &mut Bins, s: &str) -> (r: Option<Ustr>)
    requires
        old(cache).wf(),
    ensures
        final(cache).wf(),
        tried(*old(cache), *final(cache), s, r),
{
    let bytes = s.as_bytes();
    let hash = string_hash(s);
    let found = cache.get_existing(s, hash);
    if found.is_some() || cache.has_room(bytes.len(), hash) {
        let u = cache.insert(s, hash);
        proof {
            cache.lemma_handle(key_of_str(s, hash));
        }
        Some(u)
    } else {
        proof {
            assert(!cache@.contains_key(key_of_str(s, hash)));
        }
        None
    }
}

} // verus!
