//! One shard of the cache: an open-addressed table of record positions over
//! a chain of bump arenas.
//!
//! The shard owns the arena it currently allocates from and every arena it
//! has retired. Records are never moved or changed once written, so a
//! position that the shard has handed out denotes the same string for as
//! long as the shard is not cleared.

use vstd::prelude::*;
use vstd::arithmetic::power2::{lemma_pow2_pos, lemma_pow2_unfold, pow2};
use vstd::string::StringSliceAdditionalSpecFns;
use vstd::utf8::valid_utf8;
use crate::align::{lemma_eight_is_pow2, lemma_mask_is_mod, spec_round_down};
use crate::shard_inv::{
    chain_ok, header_of, index_ok, lemma_absent, lemma_admit_chain, lemma_admit_index,
    lemma_admit_placed, lemma_admit_slots, lemma_grown_placed, lemma_key, lemma_not_last,
    lemma_record, lemma_retire_chain, lemma_retire_index, lemma_retire_slots,
    lemma_sum_capacity_last, lemma_sum_nonnegative, lemma_sum_prefix, lemma_sum_push,
    lemma_sum_take, lemma_sum_take_bound, log_with, packed, placed_ok, record_ok, slots_ok,
    sum_allocated, sum_capacity, wrote, Rec,
};
use crate::bumpalloc::LeakyBumpAlloc;
use crate::entry::{
    key_at, lemma_stored_frame, request_size, stored_at, str_from_utf8, write_record, Key,
    StringCacheEntry, ENTRY_ALIGN, HEADER_SIZE,
};
use crate::probe::{lemma_probe_next, probe};
use crate::table::{
    empty_table, lemma_occupied_bound, lemma_occupied_fill, lemma_occupied_take,
    lemma_placed_stays, lemma_probe_finds_vacancy, occupied, placed, placed_at, Ptr,
};

verus! {

/// Slots of the table of a new shard.
pub const INITIAL_CAPACITY: usize = 1048576;

/// Bytes of arena storage of all new shards together.
pub const INITIAL_ALLOC: usize = 4194304;

/// Number of bits of a hash that select the shard.
pub const BIN_SHIFT: usize = 6;

/// Number of shards.
pub const NUM_BINS: usize = 64;

/// Number of bits that a hash is shifted down by to select the shard.
pub const TOP_SHIFT: usize = 58;

/// The key of a string that hashes to `hash`.
pub open spec fn key_of_str(string: &str, hash: u64) -> Key {
    Key { hash, bytes: string.spec_bytes() }
}

/// One shard: a table of record positions, the arena that new records are
/// written to, and the arenas that are full.
pub struct StringCache {
    alloc: LeakyBumpAlloc,
    old_allocs: Vec<LeakyBumpAlloc>,
    entries: Vec<Option<Ptr>>,
    num_entries: usize,
    mask: usize,
    total_allocated: usize,
    bits: Ghost<nat>,
    map: Ghost<Map<Key, Ptr>>,
    loc: Ghost<Map<Key, int>>,
    log: Ghost<Seq<Seq<Rec>>>,
}

impl View for StringCache {
    type V = Map<Key, Ptr>;

    /// The strings of the shard, each with the position of its first byte.
    closed spec fn view(&self) -> Map<Key, Ptr> {
        self.map@
    }
}

impl StringCache {
    /// The chain of arenas, oldest first; the last one is allocated from.
    pub closed spec fn arenas(&self) -> Seq<LeakyBumpAlloc> {
        self.old_allocs@.push(self.alloc)
    }

    /// The records of each arena, in the order in which they were written.
    pub closed spec fn records(&self) -> Seq<Seq<Rec>> {
        self.log@
    }

    /// Number of occupied slots.
    pub closed spec fn spec_num_entries(&self) -> nat {
        self.num_entries as nat
    }

    /// Number of slots, less one.
    pub closed spec fn spec_mask(&self) -> nat {
        self.mask as nat
    }

    /// The key that the record in front of the string position `p` holds.
    pub open spec fn key_of(&self, p: Ptr) -> Key {
        key_at(self.arenas()[p.arena as int]@, p.offset - 16)
    }

    /// `p` is the position of a string of this shard.
    pub open spec fn holds(&self, p: Ptr) -> bool {
        &&& p.arena < self.arenas().len()
        &&& p.offset >= 16
        &&& self@.contains_key(self.key_of(p))
        &&& self@[self.key_of(p)] == p
    }

    /// The slot array has `2^bits` slots, and positions in it can be added.
    pub closed spec fn shape_wf(&self) -> bool {
        &&& self.entries@.len() == self.mask + 1
        &&& self.mask + 1 == pow2(self.bits@)
        &&& 1 <= self.mask <= usize::MAX / 2
    }

    /// Capacity of the arena that is allocated from.
    pub closed spec fn spec_arena_capacity(&self) -> nat {
        self.alloc.spec_capacity()
    }

    /// Bytes handed out by the arena that is allocated from.
    pub closed spec fn spec_arena_allocated(&self) -> int {
        self.alloc.spec_allocated()
    }

    /// Capacity of the arena that replaces the current one when a request of
    /// `request` bytes does not fit: twice the current capacity, or the
    /// request if that is more.
    pub open spec fn next_capacity(&self, request: int) -> int {
        if 2 * self.spec_arena_capacity() >= request {
            2 * self.spec_arena_capacity() as int
        } else {
            request
        }
    }

    /// A request of `request` bytes does not fit the current arena.
    pub open spec fn must_retire(&self, request: int) -> bool {
        request + self.spec_arena_allocated() > self.spec_arena_capacity()
    }

    /// The machine can hold what admitting a new string of `len` bytes asks
    /// for: the sizes of the request, of a new arena if one is needed, and of
    /// a doubled table if one is needed, all fit the machine word.
    pub open spec fn can_admit(&self, len: int) -> bool {
        let request = request_size(len);
        &&& request + self.spec_arena_allocated() <= usize::MAX
        &&& self.must_retire(request) ==> {
            &&& 2 * self.spec_arena_capacity() <= usize::MAX
            &&& self.next_capacity(request) + 7 <= isize::MAX
            &&& sum_capacity(self.arenas()) + self.next_capacity(request) <= usize::MAX
        }
        &&& (self.spec_num_entries() + 1) * 2 > self.spec_mask() ==> 2 * self.spec_mask() + 1
            <= usize::MAX / 2
    }

    /// The invariant of a shard, but for the bound on how full the table is.
    pub closed spec fn loose_wf(&self) -> bool {
        &&& chain_ok(self.arenas(), self.log@)
        &&& index_ok(self.map@, self.loc@, self.log@)
        &&& self.shape_wf()
        &&& slots_ok(self.arenas(), self.map@, self.entries@)
        &&& placed_ok(self.map@, self.entries@)
        &&& self.num_entries == occupied(self.entries@)
        &&& self.num_entries == self.map@.dom().len()
        &&& self.total_allocated <= sum_capacity(self.arenas())
    }

    /// The invariant of a shard.
    pub closed spec fn wf(&self) -> bool {
        &&& self.loose_wf()
        &&& self.num_entries * 2 <= self.mask
    }
}

/// What `insert` does: the shard `after` is the shard `before` once the
/// string `key` has been asked for, and `p` is the position of the string.
/// A string that was there is found, and nothing changes. A new string gets
/// a record below the cursor of the current arena, or at the end of a new
/// arena if the current one has no room, and the table doubles when the new
/// string fills more than half of it.
pub open spec fn inserted(before: StringCache, after: StringCache, key: Key, p: Ptr) -> bool {
    let request = request_size(key.bytes.len() as int);
    let retire = before.must_retire(request);
    if before@.contains_key(key) {
        &&& p == before@[key]
        &&& after == before
    } else {
        &&& after@ == before@.insert(key, p)
        &&& after.spec_num_entries() == before.spec_num_entries() + 1
        &&& after.arenas().drop_last() == if retire {
            before.arenas()
        } else {
            before.arenas().drop_last()
        }
        &&& after.records() == log_with(
            if retire {
                before.records().push(Seq::empty())
            } else {
                before.records()
            },
            p.offset - 16,
            key,
        )
        &&& after.arenas().len() == before.arenas().len() + if retire {
            1int
        } else {
            0int
        }
        &&& p.arena == after.arenas().len() - 1
        &&& p.offset - 16 == spec_round_down(
            (if retire {
                before.next_capacity(request)
            } else {
                before.spec_arena_capacity() - before.spec_arena_allocated()
            }) - request,
            8,
        )
        &&& after.spec_arena_capacity() == if retire {
            before.next_capacity(request)
        } else {
            before.spec_arena_capacity() as int
        }
        &&& after.spec_arena_allocated() == after.spec_arena_capacity() - (p.offset - 16)
        &&& after.spec_mask() == if (before.spec_num_entries() + 1) * 2 > before.spec_mask() {
            2 * before.spec_mask() + 1
        } else {
            before.spec_mask()
        }
    }
}

impl StringCache {
    /// A shard with an empty table and one empty arena.
    pub fn new() -> (sc: StringCache)
        ensures
            sc.wf(),
            sc@ == Map::<Key, Ptr>::empty(),
            sc.arenas().len() == 1,
            sc.arenas()[0].spec_capacity() == INITIAL_ALLOC / NUM_BINS,
            sc.arenas()[0].spec_allocated() == 0,
            sc.records() == Seq::<Seq<Rec>>::empty().push(Seq::empty()),
            sc.spec_mask() + 1 == INITIAL_CAPACITY / NUM_BINS,
            sc.spec_num_entries() == 0,
            sc.spec_arena_capacity() == INITIAL_ALLOC / NUM_BINS,
            sc.spec_arena_allocated() == 0,
    {
        let capacity = INITIAL_CAPACITY / NUM_BINS;
        proof {
            lemma_eight_is_pow2();
            vstd::arithmetic::power2::lemma2_to64();
        }
        let alloc = LeakyBumpAlloc::new(INITIAL_ALLOC / NUM_BINS, ENTRY_ALIGN);
        let entries = empty_table(capacity);
        let sc = StringCache {
            alloc,
            old_allocs: Vec::with_capacity(16),
            entries,
            num_entries: 0,
            mask: capacity - 1,
            total_allocated: capacity,
            bits: Ghost(14),
            map: Ghost(Map::empty()),
            loc: Ghost(Map::empty()),
            log: Ghost(Seq::<Seq<Rec>>::empty().push(Seq::empty())),
        };
        proof {
            reveal(chain_ok);
            reveal(index_ok);
            reveal(slots_ok);
            reveal(placed_ok);
            reveal_with_fuel(sum_capacity, 2);
            assert(sc.arenas() =~= seq![sc.alloc]);
            assert(sc.arenas().drop_last() =~= Seq::empty());
            assert(sum_capacity(sc.arenas()) == sc.alloc.spec_capacity());
            assert(sc.log@[0] =~= Seq::<Rec>::empty());
        }
        sc
    }

    /// The position of `string` if the shard holds it with hash `hash`.
    pub fn get_existing(&self, string: &str, hash: u64) -> (r: Option<Ptr>)
        requires
            self.wf(),
        ensures
            r is Some <==> self@.contains_key(key_of_str(string, hash)),
            r matches Some(p) ==> p == self@[key_of_str(string, hash)],
    {
        let found = self.find(string.as_bytes(), hash);
        found.0
    }

    /// The position of `string`, which is stored first if the shard does not
    /// hold it with hash `hash` yet. A new string is written into the
    /// current arena, or into a new arena if the current one has no room for
    /// it, and the table is doubled when this fills more than half of it.
    pub fn insert(&mut self, string: &str, hash: u64) -> (p: Ptr)
        requires
            old(self).wf(),
            old(self)@.contains_key(key_of_str(string, hash)) || old(self).can_admit(
                string.spec_bytes().len() as int,
            ),
        ensures
            final(self).wf(),
            inserted(*old(self), *final(self), key_of_str(string, hash), p),
    {
        let bytes = string.as_bytes();
        let found = self.find(bytes, hash);
        match found.0 {
            Some(p) => p,
            None => {
                proof {
                    vstd::utf8::encode_utf8_valid_utf8(string@);
                    self.lemma_current();
                    self.alloc.lemma_bounds();
                }
                let alloc_size = HEADER_SIZE + bytes.len() + 1;
                self.make_room(alloc_size);
                proof {
                    assert(self.arenas().drop_last() =~= if old(self).must_retire(
                        alloc_size as int,
                    ) {
                        old(self).arenas()
                    } else {
                        old(self).arenas().drop_last()
                    });
                }
                let ghost mid = *self;
                let p = self.place_new(bytes, hash, found.1, found.2);
                proof {
                    assert(self.arenas().drop_last() =~= mid.arenas().drop_last());
                    assert(self.arenas().len() == mid.arenas().len());
                    old(self).lemma_current();
                }
                if self.num_entries * 2 > self.mask {
                    self.grow();
                }
                p
            },
        }
    }

    /// Doubles the slot array and puts every position of the old array where
    /// probing the new one finds it. The records stay where they are.
    pub fn grow(&mut self)
        requires
            old(self).loose_wf(),
            2 * old(self).spec_mask() + 1 <= usize::MAX / 2,
        ensures
            final(self).loose_wf(),
            final(self).spec_mask() == 2 * old(self).spec_mask() + 1,
            final(self).spec_num_entries() == old(self).spec_num_entries(),
            final(self)@ == old(self)@,
            final(self).arenas() == old(self).arenas(),
            final(self).records() == old(self).records(),
    {
        let new_mask = self.mask * 2 + 1;
        let mut new_entries = empty_table(new_mask + 1);
        let ghost new_bits = self.bits@ + 1;
        let ghost new_size = (new_mask + 1) as nat;
        proof {
            lemma_pow2_unfold(new_bits);
            lemma_pow2_pos(new_bits);
            crate::align::lemma_pow2_fits(new_bits);
            lemma_occupied_take(self.entries@, 0);
            reveal(slots_ok);
        }
        let n = self.entries.len();
        let mut i: usize = 0;
        while i < n
            invariant
                i <= n,
                n == self.entries@.len(),
                n == self.mask + 1,
                *self == *old(self),
                self.loose_wf(),
                new_mask == self.mask * 2 + 1,
                new_mask <= usize::MAX / 2,
                new_size == new_mask + 1,
                new_size == pow2(new_bits),
                new_bits < 64,
                new_entries@.len() == new_size,
                occupied(new_entries@) == occupied(self.entries@.take(i as int)),
                slots_ok(self.arenas(), self.map@, new_entries@),
                forall|s: int|
                    0 <= s < i && (#[trigger] self.entries@[s]) is Some ==> placed(
                        new_entries@,
                        key_at(
                            self.arenas()[self.entries@[s]->0.arena as int]@,
                            self.entries@[s]->0.offset as int,
                        ).hash,
                        self.entries@[s]->0,
                    ),
            decreases n - i,
        {
            proof {
                lemma_occupied_take(self.entries@, i as int);
                lemma_occupied_bound(self.entries@.take(i as int));
            }
            match self.entries[i] {
                None => {},
                Some(e) => {
                    proof {
                        reveal(slots_ok);
                        assert(record_ok(self.arenas(), self.map@, self.entries@[i as int]->0));
                        lemma_record(self.arenas(), self.log@, self.map@, self.loc@, e);
                        self.arenas()[e.arena as int].lemma_bounds();
                    }
                    let hash = StringCacheEntry::read(self.arena_ref(e.arena), e.offset).hash;
                    let ghost before = new_entries@;
                    proof {
                        lemma_probe_next(hash, 0, new_size);
                        vstd::bits::lemma_u64_low_bits_mask_is_mod(hash, new_bits);
                        assert(vstd::bits::low_bits_mask(new_bits) == new_mask);
                    }
                    let mut pos: usize = (hash & (new_mask as u64)) as usize;
                    let mut dist: usize = 0;
                    while new_entries[pos].is_some()
                        invariant
                            new_entries@ == before,
                            new_entries@.len() == new_size,
                            new_size == new_mask + 1,
                            new_size == pow2(new_bits),
                            new_mask <= usize::MAX / 2,
                            occupied(new_entries@) < new_size,
                            dist < new_size,
                            pos == probe(hash, dist as nat, new_size),
                            pos < new_size,
                            forall|earlier: nat|
                                earlier < dist ==> (#[trigger] new_entries@[probe(
                                    hash,
                                    earlier,
                                    new_size,
                                ) as int]) is Some,
                        decreases new_size - dist,
                    {
                        proof {
                            lemma_not_last(new_entries@, hash, dist as nat, new_bits);
                            lemma_probe_next(hash, dist as nat, new_size);
                            lemma_mask_is_mod((pos + dist + 1) as usize, new_mask, new_bits);
                        }
                        dist += 1;
                        pos = (pos + dist) & new_mask;
                    }
                    new_entries[pos] = Some(e);
                    proof {
                        let after = new_entries@;
                        lemma_occupied_fill(before, pos as int, e);
                        assert(placed_at(after, hash, e, dist as nat)) by {
                            assert forall|earlier: nat| earlier < dist implies (#[trigger] after[probe(
                                hash,
                                earlier,
                                new_size,
                            ) as int]) is Some by {
                                lemma_probe_next(hash, earlier, new_size);
                                assert(before[probe(hash, earlier, new_size) as int] is Some);
                            }
                        }
                        assert forall|s: int|
                            0 <= s < i && (#[trigger] self.entries@[s]) is Some implies placed(
                            after,
                            key_at(
                                self.arenas()[self.entries@[s]->0.arena as int]@,
                                self.entries@[s]->0.offset as int,
                            ).hash,
                            self.entries@[s]->0,
                        ) by {
                            lemma_placed_stays(
                                before,
                                after,
                                key_at(
                                    self.arenas()[self.entries@[s]->0.arena as int]@,
                                    self.entries@[s]->0.offset as int,
                                ).hash,
                                self.entries@[s]->0,
                            );
                        }
                    }
                },
            }
            i += 1;
        }
        proof {
            lemma_occupied_take(self.entries@, 0);
            assert(self.entries@.take(n as int) =~= self.entries@);
            lemma_grown_placed(
                self.arenas(),
                self.log@,
                self.map@,
                self.loc@,
                self.entries@,
                new_entries@,
            );
        }
        self.entries = new_entries;
        self.mask = new_mask;
        self.bits = Ghost(new_bits);
    }

    /// Gives up every arena, empties the table, and installs a new first
    /// arena. Every position handed out before is void afterwards.
    pub fn clear(&mut self)
        requires
            old(self).wf(),
        ensures
            final(self).wf(),
            final(self)@ == Map::<Key, Ptr>::empty(),
            final(self).arenas().len() == 1,
            final(self).spec_arena_capacity() == INITIAL_ALLOC / NUM_BINS,
            final(self).spec_arena_allocated() == 0,
            final(self).records() == Seq::<Seq<Rec>>::empty().push(Seq::empty()),
            final(self).spec_mask() == old(self).spec_mask(),
            final(self).spec_num_entries() == 0,
    {
        proof {
            self.lemma_current();
            reveal(chain_ok);
            assert forall|k: int| 0 <= k < self.old_allocs@.len() implies (
            #[trigger] self.old_allocs@[k]).wf() by {
                assert(packed(self.arenas()[k], self.log@[k]));
            }
        }
        self.entries = empty_table(self.mask + 1);
        self.num_entries = 0;
        self.total_allocated = 0;
        let mut i: usize = 0;
        while i < self.old_allocs.len()
            invariant
                forall|k: int| 0 <= k < self.old_allocs@.len() ==> (#[trigger] self.old_allocs@[k]).wf(),
                self.alloc.wf(),
                self.mask == old(self).mask,
                self.bits@ == old(self).bits@,
                self.entries@.len() == self.mask + 1,
                self.num_entries == 0,
                self.total_allocated == 0,
                occupied(self.entries@) == 0,
                forall|j: int| 0 <= j < self.entries@.len() ==> self.entries@[j] is None,
            decreases self.old_allocs@.len() - i,
        {
            self.old_allocs[i].clear();
            i += 1;
        }
        self.old_allocs = Vec::new();
        self.alloc.clear();
        proof {
            lemma_eight_is_pow2();
        }
        self.alloc = LeakyBumpAlloc::new(INITIAL_ALLOC / NUM_BINS, ENTRY_ALIGN);
        self.map = Ghost(Map::empty());
        self.loc = Ghost(Map::empty());
        self.log = Ghost(Seq::<Seq<Rec>>::empty().push(Seq::empty()));
        proof {
            reveal(chain_ok);
            reveal(index_ok);
            reveal(slots_ok);
            reveal(placed_ok);
            reveal_with_fuel(sum_capacity, 2);
            assert(self.arenas() =~= seq![self.alloc]);
            assert(self.arenas().drop_last() =~= Seq::empty());
            assert(self.log@[0] =~= Seq::<Rec>::empty());
            assert(self.map@.dom() =~= Set::empty());
        }
    }

    /// Whether the machine can hold what admitting a new string of `len`
    /// bytes asks for.
    pub fn has_room(&self, len: usize) -> (b: bool)
        requires
            self.wf(),
        ensures
            b == self.can_admit(len as int),
    {
        proof {
            self.lemma_current();
            self.alloc.lemma_bounds();
        }
        if len > usize::MAX - 17 {
            return false;
        }
        let request = len + 17;
        let allocated = self.alloc.allocated();
        let capacity = self.alloc.capacity();
        if request > usize::MAX - allocated {
            return false;
        }
        if request + allocated > capacity {
            if capacity > usize::MAX / 2 {
                return false;
            }
            let doubled = capacity * 2;
            let new_capacity = if doubled >= request {
                doubled
            } else {
                request
            };
            if new_capacity > (isize::MAX as usize) - 7 {
                return false;
            }
            let total = self.total_capacity();
            if new_capacity > usize::MAX - total {
                return false;
            }
        }
        if (self.num_entries + 1) * 2 > self.mask {
            if self.mask > (usize::MAX / 2 - 1) / 2 {
                return false;
            }
        }
        true
    }

    /// The capacity of the arena that admitting a new string of `len` bytes
    /// would install, if it would install one.
    pub fn retire_capacity(&self, len: usize) -> (r: Option<usize>)
        requires
            self.wf(),
            self.can_admit(len as int),
        ensures
            r == if self.must_retire(request_size(len as int)) {
                Some(self.next_capacity(request_size(len as int)) as usize)
            } else {
                None
            },
            r matches Some(n) ==> n == self.next_capacity(request_size(len as int)),
    {
        proof {
            self.lemma_current();
            self.alloc.lemma_bounds();
        }
        let request = len + 17;
        let allocated = self.alloc.allocated();
        let capacity = self.alloc.capacity();
        if request + allocated > capacity {
            let doubled = capacity * 2;
            Some(if doubled >= request {
                doubled
            } else {
                request
            })
        } else {
            None
        }
    }

    /// Bytes handed out by all arenas of the shard, padding included.
    pub fn total_allocated(&self) -> (n: usize)
        requires
            self.wf(),
        ensures
            n == sum_allocated(self.arenas()),
    {
        proof {
            self.lemma_current();
            reveal(chain_ok);
        }
        let ghost arenas = self.arenas();
        let mut sum: usize = 0;
        let mut i: usize = 0;
        while i < self.old_allocs.len()
            invariant
                i <= self.old_allocs@.len(),
                arenas == self.arenas(),
                arenas.len() == self.old_allocs@.len() + 1,
                forall|k: int| 0 <= k < arenas.len() ==> (#[trigger] arenas[k]).wf(),
                sum_capacity(arenas) <= usize::MAX,
                sum == sum_allocated(arenas.take(i as int)),
            decreases self.old_allocs@.len() - i,
        {
            proof {
                lemma_sum_take(arenas, i as int);
                lemma_sum_take_bound(arenas, i as int + 1);
                assert(arenas[i as int] == self.old_allocs@[i as int]);
            }
            sum = sum + self.old_allocs[i].allocated();
            i += 1;
        }
        proof {
            lemma_sum_take(arenas, i as int);
            lemma_sum_take_bound(arenas, i as int + 1);
            assert(arenas.take(i as int + 1) =~= arenas);
            assert(arenas[i as int] == self.alloc);
        }
        self.alloc.allocated() + sum
    }

    /// Capacity of all arenas of the shard together.
    pub fn total_capacity(&self) -> (n: usize)
        requires
            self.wf(),
        ensures
            n == sum_capacity(self.arenas()),
    {
        proof {
            self.lemma_current();
            reveal(chain_ok);
        }
        let ghost arenas = self.arenas();
        let mut sum: usize = 0;
        let mut i: usize = 0;
        while i < self.old_allocs.len()
            invariant
                i <= self.old_allocs@.len(),
                arenas == self.arenas(),
                arenas.len() == self.old_allocs@.len() + 1,
                forall|k: int| 0 <= k < arenas.len() ==> (#[trigger] arenas[k]).wf(),
                sum_capacity(arenas) <= usize::MAX,
                sum == sum_capacity(arenas.take(i as int)),
            decreases self.old_allocs@.len() - i,
        {
            proof {
                lemma_sum_take(arenas, i as int);
                lemma_sum_take_bound(arenas, i as int + 1);
                assert(arenas[i as int] == self.old_allocs@[i as int]);
            }
            sum = sum + self.old_allocs[i].capacity();
            i += 1;
        }
        proof {
            lemma_sum_take(arenas, i as int);
            lemma_sum_take_bound(arenas, i as int + 1);
            assert(arenas.take(i as int + 1) =~= arenas);
            assert(arenas[i as int] == self.alloc);
        }
        self.alloc.capacity() + sum
    }

    /// Number of strings of the shard.
    pub fn num_entries(&self) -> (n: usize)
        requires
            self.wf(),
        ensures
            n == self.spec_num_entries(),
            n == self@.dom().len(),
    {
        self.num_entries
    }

    /// Number of arenas of the shard.
    pub fn num_arenas(&self) -> (n: usize)
        requires
            self.wf(),
        ensures
            n == self.arenas().len(),
    {
        proof {
            self.lemma_current();
        }
        self.old_allocs.len() + 1
    }

    /// The arena at position `k` of the chain, counted from the oldest.
    pub fn arena(&self, k: usize) -> (a: &LeakyBumpAlloc)
        requires
            k < self.arenas().len(),
        ensures
            *a == self.arenas()[k as int],
    {
        self.arena_ref(k)
    }

    /// Length in bytes of the string at `p`, read from its record.
    pub fn len_of(&self, p: Ptr) -> (n: usize)
        requires
            self.wf(),
            self.holds(p),
        ensures
            n == self.key_of(p).bytes.len(),
    {
        proof {
            self.lemma_readable(p);
        }
        StringCacheEntry::read(self.arena_ref(p.arena), p.offset - HEADER_SIZE).len
    }

    /// Hash of the string at `p`, read from its record.
    pub fn hash_of(&self, p: Ptr) -> (h: u64)
        requires
            self.wf(),
            self.holds(p),
        ensures
            h == self.key_of(p).hash,
    {
        proof {
            self.lemma_readable(p);
        }
        StringCacheEntry::read(self.arena_ref(p.arena), p.offset - HEADER_SIZE).hash
    }

    /// The bytes of the string at `p`.
    pub fn bytes_of(&self, p: Ptr) -> (bytes: &[u8])
        requires
            self.wf(),
            self.holds(p),
        ensures
            bytes@ == self.key_of(p).bytes,
    {
        let len = self.len_of(p);
        proof {
            self.lemma_readable(p);
        }
        self.arena_ref(p.arena).read(p.offset, len)
    }

    /// The bytes of the string at `p` and the zero byte that follows them.
    pub fn c_bytes_of(&self, p: Ptr) -> (bytes: &[u8])
        requires
            self.wf(),
            self.holds(p),
        ensures
            bytes@ == self.key_of(p).bytes.push(0),
    {
        let len = self.len_of(p);
        proof {
            self.lemma_readable(p);
        }
        let bytes = self.arena_ref(p.arena).read(p.offset, len + 1);
        proof {
            assert(bytes@ =~= self.key_of(p).bytes.push(0));
        }
        bytes
    }

    /// The string at `p`.
    pub fn str_of(&self, p: Ptr) -> (string: &str)
        requires
            self.wf(),
            self.holds(p),
        ensures
            string.spec_bytes() == self.key_of(p).bytes,
    {
        let bytes = self.bytes_of(p);
        proof {
            self.lemma_readable(p);
        }
        match str_from_utf8(bytes) {
            Some(string) => string,
            None => "",
        }
    }

    /// The arena at position `k` of the chain.
    fn arena_ref(&self, k: usize) -> (a: &LeakyBumpAlloc)
        requires
            k < self.arenas().len(),
        ensures
            *a == self.arenas()[k as int],
    {
        if k < self.old_allocs.len() {
            &self.old_allocs[k]
        } else {
            &self.alloc
        }
    }

    /// Whether the record at `e` holds the string `bytes` with hash `hash`.
    fn matches(&self, e: Ptr, bytes: &[u8], hash: u64) -> (same: bool)
        requires
            chain_ok(self.arenas(), self.log@),
            index_ok(self.map@, self.loc@, self.log@),
            record_ok(self.arenas(), self.map@, e),
        ensures
            same == (key_at(self.arenas()[e.arena as int]@, e.offset as int) == Key {
                hash,
                bytes: bytes@,
            }),
    {
        proof {
            lemma_record(self.arenas(), self.log@, self.map@, self.loc@, e);
            self.arenas()[e.arena as int].lemma_bounds();
        }
        let a = self.arena_ref(e.arena);
        let sce = StringCacheEntry::read(a, e.offset);
        if sce.hash != hash || sce.len != bytes.len() {
            return false;
        }
        let stored = a.read(StringCacheEntry::char_ptr(e.offset), sce.len);
        bytes_equal(stored, bytes)
    }

    /// Follows the probe sequence of `hash` to the record of the string, or
    /// to the first empty slot. Returns the position of the string if it is
    /// there, and the slot and the step at which the search ended.
    fn find(&self, bytes: &[u8], hash: u64) -> (r: (Option<Ptr>, usize, Ghost<nat>))
        requires
            self.wf(),
        ensures
            ({
                let key = Key { hash, bytes: bytes@ };
                match r.0 {
                    Some(p) => self@.contains_key(key) && self@[key] == p,
                    None => {
                        &&& !self@.contains_key(key)
                        &&& r.1 < self.entries@.len()
                        &&& self.entries@[r.1 as int] is None
                        &&& r.2@ < self.entries@.len()
                        &&& r.1 == probe(hash, r.2@, self.entries@.len())
                        &&& forall|earlier: nat|
                            earlier < r.2@ ==> (#[trigger] self.entries@[probe(
                                hash,
                                earlier,
                                self.entries@.len(),
                            ) as int]) is Some
                    },
                }
            }),
    {
        let ghost key = Key { hash, bytes: bytes@ };
        let ghost size = self.entries@.len();
        proof {
            lemma_pow2_pos(self.bits@);
            lemma_probe_next(hash, 0, size);
            crate::align::lemma_pow2_fits(self.bits@);
            vstd::bits::lemma_u64_low_bits_mask_is_mod(hash, self.bits@);
            assert(vstd::bits::low_bits_mask(self.bits@) == self.mask);
        }
        let mut pos: usize = (hash & (self.mask as u64)) as usize;
        let mut dist: usize = 0;
        loop
            invariant
                self.wf(),
                size == self.entries@.len(),
                key == (Key { hash, bytes: bytes@ }),
                dist <= self.mask,
                pos == probe(hash, dist as nat, size),
                pos < size,
                forall|earlier: nat|
                    earlier < dist ==> {
                        let e = #[trigger] self.entries@[probe(hash, earlier, size) as int];
                        &&& e is Some
                        &&& key_at(self.arenas()[e->0.arena as int]@, e->0.offset as int) != key
                    },
            decreases self.mask - dist,
        {
            match self.entries[pos] {
                None => {
                    proof {
                        lemma_absent(
                            self.arenas(),
                            self.log@,
                            self.map@,
                            self.loc@,
                            self.entries@,
                            key,
                            dist as nat,
                        );
                    }
                    return (None, pos, Ghost(dist as nat));
                },
                Some(e) => {
                    proof {
                        reveal(slots_ok);
                        assert(record_ok(self.arenas(), self.map@, self.entries@[pos as int]->0));
                    }
                    if self.matches(e, bytes, hash) {
                        return (
                            Some(Ptr { arena: e.arena, offset: e.offset + HEADER_SIZE }),
                            pos,
                            Ghost(dist as nat),
                        );
                    }
                },
            }
            proof {
                lemma_not_last(self.entries@, hash, dist as nat, self.bits@);
                lemma_probe_next(hash, dist as nat, size);
                lemma_mask_is_mod((pos + dist + 1) as usize, self.mask, self.bits@);
            }
            dist += 1;
            pos = (pos + dist) & self.mask;
        }
    }

    /// Retires the current arena if `alloc_size` more bytes do not fit it,
    /// and installs one that is twice as large, or as large as the request
    /// if that is more.
    fn make_room(&mut self, alloc_size: usize)
        requires
            old(self).wf(),
            alloc_size >= 1,
            alloc_size + old(self).spec_arena_allocated() <= usize::MAX,
            old(self).must_retire(alloc_size as int) ==> {
                &&& 2 * old(self).spec_arena_capacity() <= usize::MAX
                &&& old(self).next_capacity(alloc_size as int) + 7 <= isize::MAX
                &&& sum_capacity(old(self).arenas()) + old(self).next_capacity(alloc_size as int)
                    <= usize::MAX
            },
        ensures
            final(self).wf(),
            final(self).map@ == old(self).map@,
            final(self).loc@ == old(self).loc@,
            final(self).entries@ == old(self).entries@,
            final(self).mask == old(self).mask,
            final(self).bits@ == old(self).bits@,
            final(self).num_entries == old(self).num_entries,
            alloc_size <= final(self).alloc.spec_ptr(),
            !old(self).must_retire(alloc_size as int) ==> *final(self) == *old(self),
            old(self).must_retire(alloc_size as int) ==> {
                &&& final(self).arenas() == old(self).arenas().push(final(self).alloc)
                &&& final(self).alloc.spec_capacity() == old(self).next_capacity(alloc_size as int)
                &&& final(self).alloc.spec_allocated() == 0
                &&& final(self).log@ == old(self).log@.push(Seq::empty())
            },
    {
        proof {
            self.lemma_current();
            self.alloc.lemma_bounds();
        }
        let capacity = self.alloc.capacity();
        let allocated = self.alloc.allocated();
        if alloc_size + allocated > capacity {
            let doubled = capacity * 2;
            let new_capacity = if doubled >= alloc_size {
                doubled
            } else {
                alloc_size
            };
            proof {
                lemma_eight_is_pow2();
            }
            let mut fresh = LeakyBumpAlloc::new(new_capacity, ENTRY_ALIGN);
            proof {
                lemma_retire_chain(self.arenas(), self.log@, fresh);
                lemma_retire_index(self.map@, self.loc@, self.log@);
                lemma_retire_slots(self.arenas(), self.map@, self.entries@, fresh);
                lemma_sum_push(self.arenas(), fresh);
            }
            std::mem::swap(&mut self.alloc, &mut fresh);
            self.old_allocs.push(fresh);
            self.total_allocated += new_capacity;
            self.log = Ghost(self.log@.push(Seq::empty()));
            proof {
                assert(self.arenas() =~= old(self).arenas().push(self.alloc));
            }
        }
    }

    /// Writes the record of a new string into the current arena and puts its
    /// position into the empty slot `pos`, which the probe sequence of the
    /// string reached at step `step`.
    fn place_new(&mut self, bytes: &[u8], hash: u64, pos: usize, Ghost(step): Ghost<nat>) -> (p: Ptr)
        requires
            old(self).wf(),
            !old(self).map@.contains_key(Key { hash, bytes: bytes@ }),
            valid_utf8(bytes@),
            request_size(bytes@.len() as int) <= old(self).alloc.spec_ptr(),
            pos < old(self).entries@.len(),
            old(self).entries@[pos as int] is None,
            step < old(self).entries@.len(),
            pos == probe(hash, step, old(self).entries@.len()),
            forall|earlier: nat|
                earlier < step ==> (#[trigger] old(self).entries@[probe(
                    hash,
                    earlier,
                    old(self).entries@.len(),
                ) as int]) is Some,
        ensures
            final(self).loose_wf(),
            final(self).map@ == old(self).map@.insert(Key { hash, bytes: bytes@ }, p),
            final(self).mask == old(self).mask,
            final(self).bits@ == old(self).bits@,
            final(self).num_entries == old(self).num_entries + 1,
            final(self).old_allocs@ == old(self).old_allocs@,
            final(self).alloc.spec_capacity() == old(self).alloc.spec_capacity(),
            p.arena == old(self).arenas().len() - 1,
            p.offset >= 16,
            p.offset - 16 == spec_round_down(
                old(self).alloc.spec_ptr() - request_size(bytes@.len() as int),
                8,
            ),
            final(self).alloc.spec_ptr() == p.offset - 16,
            final(self).log@ == log_with(
                old(self).log@,
                p.offset - 16,
                Key { hash, bytes: bytes@ },
            ),
    {
        let ghost key = Key { hash, bytes: bytes@ };
        let ghost arenas = self.arenas();
        proof {
            self.lemma_current();
            self.alloc.lemma_bounds();
        }
        let alloc_size = HEADER_SIZE + bytes.len() + 1;
        let off = self.alloc.allocate(alloc_size);
        write_record(&mut self.alloc, off, hash, bytes);
        let hdr = Ptr { arena: self.old_allocs.len(), offset: off };
        proof {
            self.alloc.lemma_bounds();
            old(self).alloc.lemma_bounds();
            assert(wrote(old(self).alloc, self.alloc, off as int, key));
            assert(self.arenas() =~= arenas.update(arenas.len() - 1, self.alloc));
            lemma_admit_chain(arenas, self.log@, self.alloc, off as int, key);
            lemma_admit_slots(
                arenas,
                self.log@,
                self.map@,
                self.loc@,
                self.entries@,
                self.alloc,
                off as int,
                key,
                pos as int,
            );
        }
        let p = Ptr { arena: hdr.arena, offset: off + HEADER_SIZE };
        proof {
            lemma_admit_index(self.map@, self.loc@, self.log@, off as int, key, p);
            lemma_admit_placed(self.map@, self.entries@, key, p, pos as int, step);
            lemma_occupied_fill(self.entries@, pos as int, hdr);
            lemma_occupied_bound(self.entries@);
            reveal(index_ok);
            lemma_sum_capacity_last(arenas, self.alloc);
        }
        self.loc = Ghost(self.loc@.insert(key, self.log@.last().len() as int));
        self.log = Ghost(log_with(self.log@, off as int, key));
        self.map = Ghost(self.map@.insert(key, p));
        self.entries[pos] = Some(hdr);
        self.num_entries += 1;
        proof {
            assert(header_of(p) == hdr);
        }
        p
    }
}

impl Default for StringCache {
    /// A shard with an empty table and one empty arena.
    fn default() -> (sc: StringCache)
        ensures
            sc.wf(),
            sc@ == Map::<Key, Ptr>::empty(),
    {
        StringCache::new()
    }
}

/// Whether two byte strings are equal.
pub fn bytes_equal(a: &[u8], b: &[u8]) -> (same: bool)
    ensures
        same == (a@ == b@),
{
    if a.len() != b.len() {
        return false;
    }
    let n = a.len();
    let mut i: usize = 0;
    while i < n
        invariant
            i <= n,
            n == a@.len(),
            n == b@.len(),
            forall|j: int| 0 <= j < i ==> a@[j] == b@[j],
        decreases n - i,
    {
        if a[i] != b[i] {
            return false;
        }
        i += 1;
    }
    assert(a@ =~= b@);
    true
}

impl StringCache {
    /// The string position of a key of the shard denotes that key.
    pub proof fn lemma_handle(&self, key: Key)
        requires
            self.wf(),
            self@.contains_key(key),
        ensures
            self.holds(self@[key]),
            self.key_of(self@[key]) == key,
            valid_utf8(key.bytes),
    {
        lemma_key(self.arenas(), self.log@, self.map@, self.loc@, key);
    }

    /// Two keys of the shard with the same string position are the same key.
    pub proof fn lemma_injective(&self, a: Key, b: Key)
        requires
            self.wf(),
            self@.contains_key(a),
            self@.contains_key(b),
            self@[a] == self@[b],
        ensures
            a == b,
    {
        self.lemma_handle(a);
        self.lemma_handle(b);
    }

    /// The bytes of a string of the shard lie inside its arena, are valid
    /// UTF-8, and are followed by a zero byte.
    pub proof fn lemma_terminated(&self, p: Ptr)
        requires
            self.wf(),
            self.holds(p),
        ensures
            p.offset + self.key_of(p).bytes.len() < self.arenas()[p.arena as int]@.len(),
            self.arenas()[p.arena as int]@.subrange(
                p.offset as int,
                p.offset + self.key_of(p).bytes.len(),
            ) == self.key_of(p).bytes,
            self.arenas()[p.arena as int]@[p.offset + self.key_of(p).bytes.len()] == 0,
            valid_utf8(self.key_of(p).bytes),
    {
        lemma_key(self.arenas(), self.log@, self.map@, self.loc@, self.key_of(p));
    }

    /// A position that a shard holds denotes the same key in every later
    /// state of the shard that still has the strings of the earlier one.
    pub proof fn lemma_stable(&self, later: &StringCache, p: Ptr)
        requires
            self.wf(),
            later.wf(),
            self@.submap_of(later@),
            self.holds(p),
        ensures
            later.holds(p),
            later.key_of(p) == self.key_of(p),
    {
        let key = self.key_of(p);
        assert(self@.dom().contains(key));
        assert(later@.contains_key(key) && later@[key] == p);
        later.lemma_handle(key);
    }

    /// The table of a shard is at most half full, and holds as many
    /// positions as the shard has strings.
    pub proof fn lemma_load(&self)
        requires
            self.wf(),
        ensures
            self@.dom().finite(),
            self.spec_num_entries() == self@.dom().len(),
            self.spec_num_entries() * 2 <= self.spec_mask(),
    {
        reveal(index_ok);
    }

    /// A shard in order is in order for `grow`, and a shard in order for
    /// `grow` whose table is at most half full is in order.
    pub proof fn lemma_loose(&self)
        ensures
            self.wf() <==> self.loose_wf() && self.spec_num_entries() * 2 <= self.spec_mask(),
    {
    }

    /// The arena that is allocated from is the last of the chain, and every
    /// arena of the chain is well formed.
    pub proof fn lemma_arena(&self)
        requires
            self.wf(),
        ensures
            self.arenas().len() >= 1,
            self.records().len() == self.arenas().len(),
            self.arenas().last().spec_capacity() == self.spec_arena_capacity(),
            self.arenas().last().spec_allocated() == self.spec_arena_allocated(),
            forall|k: int|
                0 <= k < self.arenas().len() ==> packed(
                    #[trigger] self.arenas()[k],
                    self.records()[k],
                ),
            0 <= sum_allocated(self.arenas()) <= sum_capacity(self.arenas()) <= usize::MAX,
    {
        self.lemma_current();
        reveal(chain_ok);
        lemma_sum_prefix(self.arenas());
    }

    /// Every record that the shard remembers belongs to a string of the
    /// shard, whose position is sixteen bytes above the record.
    pub proof fn lemma_record_key(&self, k: int, i: int)
        requires
            self.wf(),
            0 <= k < self.records().len(),
            0 <= i < self.records()[k].len(),
        ensures
            self@.contains_key(self.records()[k][i].key),
            self@[self.records()[k][i].key].arena == k,
            self@[self.records()[k][i].key].offset == self.records()[k][i].off + 16,
            valid_utf8(self.records()[k][i].key.bytes),
    {
        reveal(index_ok);
        let key = self.log@[k][i].key;
        assert(self.map@.contains_key(key));
    }

    /// No two records of the shard hold the same key.
    pub proof fn lemma_record_unique(&self, k: int, i: int, l: int, j: int)
        requires
            self.wf(),
            0 <= k < self.records().len(),
            0 <= i < self.records()[k].len(),
            0 <= l < self.records().len(),
            0 <= j < self.records()[l].len(),
            self.records()[k][i].key == self.records()[l][j].key,
        ensures
            k == l,
            i == j,
    {
        reveal(index_ok);
        let key = self.log@[k][i].key;
        assert(self.loc@[self.log@[k][i].key] == i);
        assert(self.loc@[self.log@[l][j].key] == j);
    }

    /// Every string of the shard has a record in the arena of its position.
    pub proof fn lemma_key_record(&self, key: Key)
        requires
            self.wf(),
            self@.contains_key(key),
        ensures
            self@[key].arena < self.records().len(),
            exists|i: int|
                0 <= i < self.records()[self@[key].arena as int].len() && (
                #[trigger] self.records()[self@[key].arena as int][i]).key == key,
    {
        reveal(index_ok);
        let i = self.loc@[key];
        assert(self.log@[self.map@[key].arena as int][i].key == key);
    }

    /// The arena that is allocated from is the last of a chain in order.
    proof fn lemma_current(&self)
        requires
            chain_ok(self.arenas(), self.log@),
        ensures
            self.alloc.wf(),
            self.alloc.spec_align() == 8,
            self.arenas().len() == self.old_allocs@.len() + 1,
            self.arenas().last() == self.alloc,
            self.log@.len() == self.arenas().len(),
            packed(self.alloc, self.log@.last()),
            self.alloc.spec_capacity() <= sum_capacity(self.arenas()) <= usize::MAX,
            self.arenas().len() <= usize::MAX,
    {
        reveal(chain_ok);
        assert(packed(self.arenas()[self.old_allocs@.len() as int], self.log@.last()));
        lemma_sum_push(self.old_allocs@, self.alloc);
        lemma_sum_nonnegative(self.old_allocs@);
    }

    /// What a position that the shard holds needs to be read.
    proof fn lemma_readable(&self, p: Ptr)
        requires
            self.wf(),
            self.holds(p),
        ensures
            p.arena < self.arenas().len(),
            self.arenas()[p.arena as int].wf(),
            stored_at(self.arenas()[p.arena as int]@, p.offset - 16, self.key_of(p)),
            self.arenas()[p.arena as int]@.len() == self.arenas()[p.arena as int].spec_capacity(),
            self.arenas()[p.arena as int].spec_capacity() <= usize::MAX,
            valid_utf8(self.key_of(p).bytes),
    {
        lemma_key(self.arenas(), self.log@, self.map@, self.loc@, self.key_of(p));
        self.arenas()[p.arena as int].lemma_bounds();
    }
}

} // verus!
