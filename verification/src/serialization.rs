//! The cache as a flat sequence of strings, and back: what a serialised
//! cache consists of, and how one is replayed into a cache.

use vstd::prelude::*;
use vstd::string::StringSliceAdditionalSpecFns;
use crate::cache::Bins;
use crate::entry::Key;
use crate::iter::walk_shards;
use crate::cache::string_cache_iter;
use crate::{try_ustr, Ustr};

verus! {

/// `strings` are the strings of `keys`, one for one.
pub open spec fn spells(strings: Seq<&str>, keys: Seq<Key>) -> bool {
    &&& strings.len() == keys.len()
    &&& forall|i: int| 0 <= i < keys.len() ==> (#[trigger] strings[i]).spec_bytes() == keys[i].bytes
}

/// `cache` holds a string with the bytes `bytes`.
pub open spec fn has_string(cache: Bins, bytes: Seq<u8>) -> bool {
    exists|u: Ustr| #[trigger] cache.holds(u) && cache.key_of(u).bytes == bytes
}

impl Bins {
    /// The strings of the cache, one for each string that it holds, in the
    /// order in which an iterator visits them.
    pub fn serialize<'a>(&'a self) -> (strings: Vec<&'a str>)
        requires
            self.wf(),
        ensures
            spells(strings@, walk_shards(self.shards())),
            walk_shards(self.shards()).to_set() == self@.dom(),
            walk_shards(self.shards()).no_duplicates(),
    {
        let mut it = string_cache_iter(self);
        let ghost keys = it@;
        let mut strings: Vec<&'a str> = Vec::new();
        let mut next = it.next();
        while next.is_some()
            invariant
                it.wf(),
                strings@.len() + it@.len() + (if next is Some {
                    1int
                } else {
                    0int
                }) == keys.len(),
                next matches Some(s) ==> s.spec_bytes() == keys[strings@.len() as int].bytes,
                next is None ==> it@.len() == 0,
                it@ == keys.skip(strings@.len() + (if next is Some {
                    1int
                } else {
                    0int
                })),
                forall|i: int|
                    0 <= i < strings@.len() ==> (#[trigger] strings@[i]).spec_bytes()
                        == keys[i].bytes,
            decreases it@.len() + (if next is Some {
                1int
            } else {
                0int
            }),
        {
            let s = next.unwrap();
            strings.push(s);
            let ghost before = it@;
            next = it.next();
            proof {
                if next is Some {
                    assert(before[0] == keys[strings@.len() as int]);
                    assert(it@ =~= keys.skip(strings@.len() as int + 1));
                }
            }
        }
        proof {
            assert(spells(strings@, keys));
        }
        strings
    }
}

/// What replaying a serialised cache gives: nothing but the fact that it
/// was done. The strings are in the cache.
pub struct DeserializedCache {}

/// Replays a sequence of strings into a cache.
pub struct BinsVisitor {}

impl BinsVisitor {
    /// A visitor. It holds nothing.
    pub fn new() -> (v: Self) {
        BinsVisitor {  }
    }

    /// Interns the strings of `strings` one after the other. Stops at the
    /// first string that the machine cannot hold, and returns its index.
    pub fn visit_seq(self, cache: &mut Bins, strings: &Vec<String>) -> (r: Result<
        DeserializedCache,
        usize,
    >)
        requires
            old(cache).wf(),
        ensures
            final(cache).wf(),
            old(cache)@.submap_of(final(cache)@),
            match r {
                Ok(_) => forall|i: int|
                    0 <= i < strings@.len() ==> has_string(
                        *final(cache),
                        vstd::utf8::encode_utf8((#[trigger] strings@[i])@),
                    ),
                Err(at) => {
                    &&& at < strings@.len()
                    &&& forall|i: int|
                        0 <= i < at ==> has_string(
                            *final(cache),
                            vstd::utf8::encode_utf8((#[trigger] strings@[i])@),
                        )
                    &&& exists|hash: u64|
                        !final(cache).can_admit(
                            vstd::utf8::encode_utf8(strings@[at as int]@).len() as int,
                            hash,
                        )
                },
            },
    {
        let mut i: usize = 0;
        while i < strings.len()
            invariant
                cache.wf(),
                i <= strings@.len(),
                old(cache)@.submap_of(cache@),
                forall|j: int|
                    0 <= j < i ==> has_string(
                        *cache,
                        vstd::utf8::encode_utf8((#[trigger] strings@[j])@),
                    ),
            decreases strings@.len() - i,
        {
            let ghost before = *cache;
            match try_ustr(cache, strings[i].as_str()) {
                Some(u) => {
                    proof {
                        let key = cache.key_of(u);
                        assert(before@.submap_of(cache@)) by {
                            assert forall|k: Key| #[trigger]
                                before@.dom().contains(k) implies cache@.dom().contains(k)
                                && before@[k] == cache@[k] by {}
                        }
                        assert forall|j: int| 0 <= j < i + 1 implies has_string(
                            *cache,
                            vstd::utf8::encode_utf8((#[trigger] strings@[j])@),
                        ) by {
                            if j < i {
                                let bytes = vstd::utf8::encode_utf8(strings@[j]@);
                                let h = choose|h: Ustr| #[trigger]
                                    before.holds(h) && before.key_of(h).bytes == bytes;
                                before.lemma_stable(cache, h);
                                assert(cache.holds(h) && cache.key_of(h).bytes == bytes);
                            } else {
                                assert(cache.holds(u));
                            }
                        }
                    }
                },
                None => {
                    return Err(i);
                },
            }
            i += 1;
        }
        Ok(DeserializedCache {  })
    }
}

/// Reads one handle back from its string.
pub struct UstrVisitor {}

impl UstrVisitor {
    /// A visitor. It holds nothing.
    pub fn new() -> (v: Self) {
        UstrVisitor {  }
    }

    /// The handle of `s` in `cache`, or nothing if the string is new and the
    /// machine cannot hold it.
    pub fn visit_str(self, cache: &mut Bins, s: &str) -> (r: Option<Ustr>)
        requires
            old(cache).wf(),
        ensures
            final(cache).wf(),
            crate::tried(*old(cache), *final(cache), s, r),
    {
        try_ustr(cache, s)
    }
}

} // verus!
