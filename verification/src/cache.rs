//! The cache: a fixed array of shards, and the hash bits that select one.

use vstd::prelude::*;
use vstd::string::StringSliceAdditionalSpecFns;
use crate::entry::{request_size, Key};
use crate::iter::{all_wf, disjoint, held_by, walk_shards, StringCacheIterator};
use crate::shard_inv::{sum_allocated, sum_capacity};
use crate::stringcache::{inserted, key_of_str, StringCache, INITIAL_ALLOC, NUM_BINS};
use crate::table::Ptr;
use crate::{spec_handle, spec_whichbin, whichbin, Ustr};

verus! {

/// Number of strings of the shards together.
pub open spec fn sum_entries(shards: Seq<StringCache>) -> int
    decreases shards.len(),
{
    if shards.len() == 0 {
        0
    } else {
        sum_entries(shards.drop_last()) + shards.last().spec_num_entries()
    }
}

/// Capacity of the arenas of the shards together.
pub open spec fn sum_capacities(shards: Seq<StringCache>) -> int
    decreases shards.len(),
{
    if shards.len() == 0 {
        0
    } else {
        sum_capacities(shards.drop_last()) + sum_capacity(shards.last().arenas())
    }
}

/// Bytes handed out by the arenas of the shards together.
pub open spec fn sum_allocations(shards: Seq<StringCache>) -> int
    decreases shards.len(),
{
    if shards.len() == 0 {
        0
    } else {
        sum_allocations(shards.drop_last()) + sum_allocated(shards.last().arenas())
    }
}

/// The sums over one shard more.
pub proof fn lemma_sums_take(shards: Seq<StringCache>, i: int)
    requires
        0 <= i < shards.len(),
    ensures
        sum_entries(shards.take(0)) == 0,
        sum_capacities(shards.take(0)) == 0,
        sum_allocations(shards.take(0)) == 0,
        sum_entries(shards.take(i + 1)) == sum_entries(shards.take(i))
            + shards[i].spec_num_entries(),
        sum_capacities(shards.take(i + 1)) == sum_capacities(shards.take(i)) + sum_capacity(
            shards[i].arenas(),
        ),
        sum_allocations(shards.take(i + 1)) == sum_allocations(shards.take(i)) + sum_allocated(
            shards[i].arenas(),
        ),
        shards.take(shards.len() as int) == shards,
{
    assert(shards.take(i + 1).drop_last() =~= shards.take(i));
    assert(shards.take(shards.len() as int) =~= shards);
}

/// The sums over shards in order grow with the number of shards, and what
/// was handed out is no more than the capacity.
pub proof fn lemma_sums_monotone(shards: Seq<StringCache>, i: int)
    requires
        0 <= i <= shards.len(),
        forall|b: int| 0 <= b < shards.len() ==> (#[trigger] shards[b]).wf(),
    ensures
        0 <= sum_entries(shards.take(i)) <= sum_entries(shards),
        0 <= sum_allocations(shards.take(i)) <= sum_capacities(shards.take(i)) <= sum_capacities(
            shards,
        ),
    decreases shards.len() - i,
{
    lemma_sums_wf(shards.take(i));
    if i < shards.len() {
        lemma_sums_monotone(shards, i + 1);
        lemma_sums_take(shards, i);
        shards[i].lemma_arena();
    } else {
        assert(shards.take(i) =~= shards);
    }
}

/// Over shards in order, what was handed out is no more than the capacity.
pub proof fn lemma_sums_wf(shards: Seq<StringCache>)
    requires
        forall|b: int| 0 <= b < shards.len() ==> (#[trigger] shards[b]).wf(),
    ensures
        0 <= sum_entries(shards),
        0 <= sum_allocations(shards) <= sum_capacities(shards),
    decreases shards.len(),
{
    if shards.len() > 0 {
        lemma_sums_wf(shards.drop_last());
        shards.last().lemma_arena();
    }
}

/// Replacing one shard changes each sum by what that shard's part changed.
pub proof fn lemma_sums_update(shards: Seq<StringCache>, b: int, shard: StringCache)
    requires
        0 <= b < shards.len(),
    ensures
        sum_entries(shards.update(b, shard)) == sum_entries(shards) - shards[b].spec_num_entries()
            + shard.spec_num_entries(),
        sum_capacities(shards.update(b, shard)) == sum_capacities(shards) - sum_capacity(
            shards[b].arenas(),
        ) + sum_capacity(shard.arenas()),
        sum_allocations(shards.update(b, shard)) == sum_allocations(shards) - sum_allocated(
            shards[b].arenas(),
        ) + sum_allocated(shard.arenas()),
    decreases shards.len(),
{
    let next = shards.update(b, shard);
    if b == shards.len() - 1 {
        assert(next.drop_last() =~= shards.drop_last());
    } else {
        assert(next.drop_last() =~= shards.drop_last().update(b, shard));
        lemma_sums_update(shards.drop_last(), b, shard);
    }
}

/// The cache: `NUM_BINS` shards. A string lives in the shard that the top
/// bits of its hash select.
pub struct Bins(pub(crate) Vec<StringCache>);

impl View for Bins {
    type V = Map<Key, Ustr>;

    /// The strings of the cache, each with its handle.
    closed spec fn view(&self) -> Map<Key, Ustr> {
        Map::new(
            |key: Key| self.0@[spec_whichbin(key.hash) as int]@.contains_key(key),
            |key: Key|
                spec_handle(
                    spec_whichbin(key.hash),
                    self.0@[spec_whichbin(key.hash) as int]@[key],
                ),
        )
    }
}

impl Bins {
    /// The shards.
    pub closed spec fn shards(&self) -> Seq<StringCache> {
        self.0@
    }

    /// There are `NUM_BINS` shards, each is in order, and each holds only
    /// strings whose hash selects it.
    pub closed spec fn wf(&self) -> bool {
        &&& self.0@.len() == NUM_BINS
        &&& forall|b: int| 0 <= b < NUM_BINS ==> (#[trigger] self.0@[b]).wf()
        &&& forall|b: int, key: Key|
            0 <= b < NUM_BINS && (#[trigger] self.0@[b]@.contains_key(key)) ==> spec_whichbin(
                key.hash,
            ) == b
        &&& sum_entries(self.0@) <= usize::MAX
        &&& sum_capacities(self.0@) <= usize::MAX
    }

    /// `u` is the handle of a string of this cache.
    pub open spec fn holds(&self, u: Ustr) -> bool {
        &&& u.spec_bin() < NUM_BINS
        &&& u.spec_bin() < self.shards().len()
        &&& self.shards()[u.spec_bin() as int].holds(u.spec_char_ptr())
    }

    /// The key of the string that the handle `u` denotes.
    pub open spec fn key_of(&self, u: Ustr) -> Key {
        self.shards()[u.spec_bin() as int].key_of(u.spec_char_ptr())
    }
}

/// What interning does: the cache `after` is the cache `before` once the
/// string `key` has been asked for, and `u` is the handle of the string. A
/// string that was there keeps its handle and nothing is added; a new string
/// is added with the handle `u`, and nothing else changes.
pub open spec fn interned(before: Bins, after: Bins, key: Key, u: Ustr) -> bool {
    &&& after.wf()
    &&& after@.contains_key(key)
    &&& after@[key] == u
    &&& after@ == if before@.contains_key(key) {
        before@
    } else {
        before@.insert(key, u)
    }
}

impl Bins {
    /// The view, spelled out.
    pub proof fn lemma_view(&self, key: Key)
        ensures
            self@.contains_key(key) == self.shards()[spec_whichbin(
                key.hash,
            ) as int]@.contains_key(key),
            self@.contains_key(key) ==> self@[key] == spec_handle(
                spec_whichbin(key.hash),
                self.shards()[spec_whichbin(key.hash) as int]@[key],
            ),
    {
    }

    /// The machine can hold what admitting a new string of `len` bytes with
    /// hash `hash` asks for: its shard can admit it, and the capacity of all
    /// arenas and the number of all strings still fit the machine word.
    pub open spec fn can_admit(&self, len: int, hash: u64) -> bool {
        self.can_admit_in(len, spec_whichbin(hash) as int)
    }

    /// The machine can hold what admitting a new string of `len` bytes to
    /// shard `bin` asks for.
    pub open spec fn can_admit_in(&self, len: int, bin: int) -> bool {
        let shard = self.shards()[bin];
        &&& shard.can_admit(len)
        &&& shard.must_retire(request_size(len)) ==> sum_capacities(self.shards())
            + shard.next_capacity(request_size(len)) <= usize::MAX
        &&& sum_entries(self.shards()) + 1 <= usize::MAX
    }

    /// The machine can hold what admitting a new string of `len` bytes asks
    /// for, whichever shard its hash selects.
    pub open spec fn can_intern(&self, len: int) -> bool {
        forall|bin: int| 0 <= bin < NUM_BINS ==> self.can_admit_in(len, bin)
    }

    /// A cache of `NUM_BINS` empty shards.
    pub fn new() -> (bins: Bins)
        ensures
            bins.wf(),
            bins@ == Map::<Key, Ustr>::empty(),
            sum_entries(bins.shards()) == 0,
            sum_capacities(bins.shards()) == INITIAL_ALLOC,
            sum_allocations(bins.shards()) == 0,
    {
        let mut shards: Vec<StringCache> = Vec::with_capacity(NUM_BINS);
        let mut i: usize = 0;
        while i < NUM_BINS
            invariant
                i <= NUM_BINS,
                shards@.len() == i,
                forall|b: int| 0 <= b < i ==> (#[trigger] shards@[b]).wf(),
                forall|b: int| 0 <= b < i ==> (#[trigger] shards@[b])@ == Map::<Key, Ptr>::empty(),
                sum_entries(shards@) == 0,
                sum_capacities(shards@) == i * 65536,
                sum_allocations(shards@) == 0,
            decreases NUM_BINS - i,
        {
            let shard = StringCache::new();
            proof {
                shard.lemma_load();
                shard.lemma_arena();
                assert(shards@.push(shard).drop_last() =~= shards@);
                assert(shard.arenas().drop_last() =~= Seq::empty());
                assert(sum_capacity(shard.arenas()) == INITIAL_ALLOC / NUM_BINS) by {
                    reveal_with_fuel(sum_capacity, 2);
                }
                assert(sum_allocated(shard.arenas()) == 0) by {
                    reveal_with_fuel(sum_allocated, 2);
                }
                assert(shard@.dom().len() == 0);
            }
            shards.push(shard);
            i += 1;
        }
        let bins = Bins(shards);
        proof {
            assert(bins@ =~= Map::<Key, Ustr>::empty());
        }
        bins
    }

    /// The handle of `string`, which is stored first if the cache does not
    /// hold it with hash `hash` yet. The string goes to the shard that the
    /// hash selects.
    pub fn insert(&mut self, string: &str, hash: u64) -> (u: Ustr)
        requires
            old(self).wf(),
            old(self)@.contains_key(key_of_str(string, hash)) || old(self).can_admit(
                string.spec_bytes().len() as int,
                hash,
            ),
        ensures
            final(self).wf(),
            interned(*old(self), *final(self), key_of_str(string, hash), u),
            final(self).holds(u),
            final(self).key_of(u) == key_of_str(string, hash),
            u.spec_bin() == spec_whichbin(hash),
            final(self).shards() == old(self).shards().update(
                u.spec_bin() as int,
                final(self).shards()[u.spec_bin() as int],
            ),
            inserted(
                old(self).shards()[u.spec_bin() as int],
                final(self).shards()[u.spec_bin() as int],
                key_of_str(string, hash),
                u.spec_char_ptr(),
            ),
    {
        let bin = whichbin(hash);
        let ghost key = key_of_str(string, hash);
        let ghost before = self.0@[bin as int];
        proof {
            old(self).lemma_view(key);
        }
        let p = self.0[bin].insert(string, hash);
        let u = Ustr::new(bin, p);
        proof {
            let after = self.0@[bin as int];
            assert(self.0@ =~= old(self).0@.update(bin as int, after));
            lemma_sums_update(old(self).0@, bin as int, after);
            before.lemma_arena();
            after.lemma_arena();
            before.lemma_load();
            after.lemma_load();
            assert forall|b: int, k: Key|
                0 <= b < NUM_BINS && (#[trigger] self.0@[b]@.contains_key(k)) implies spec_whichbin(
                k.hash,
            ) == b by {
                if b == bin && k != key {
                    assert(old(self).0@[b]@.contains_key(k));
                } else if b != bin {
                    assert(old(self).0@[b]@.contains_key(k));
                }
            }
            if !before@.contains_key(key) {
                assert(after.arenas().drop_last() == if before.must_retire(
                    request_size(key.bytes.len() as int),
                ) {
                    before.arenas()
                } else {
                    before.arenas().drop_last()
                });
            }
            assert(self@ =~= if old(self)@.contains_key(key) {
                old(self)@
            } else {
                old(self)@.insert(key, u)
            });
            after.lemma_handle(key);
        }
        u
    }

    /// The handle of `string` if the cache holds it with hash `hash`.
    /// Nothing is stored.
    pub fn get_existing(&self, string: &str, hash: u64) -> (r: Option<Ustr>)
        requires
            self.wf(),
        ensures
            r is Some <==> self@.contains_key(key_of_str(string, hash)),
            r matches Some(u) ==> u == self@[key_of_str(string, hash)],
    {
        let bin = whichbin(hash);
        match self.0[bin].get_existing(string, hash) {
            Some(p) => Some(Ustr::new(bin, p)),
            None => None,
        }
    }
}

impl Bins {
    /// The strings of the shards below `n`.
    pub closed spec fn keys_below(&self, n: int) -> Set<Key> {
        Set::new(
            |key: Key|
                spec_whichbin(key.hash) < n && self.0@[spec_whichbin(
                    key.hash,
                ) as int]@.contains_key(key),
        )
    }

    /// The shards below `n` hold as many strings together as their counts
    /// add up to.
    proof fn lemma_keys_below(&self, n: int)
        requires
            self.wf(),
            0 <= n <= NUM_BINS,
        ensures
            self.keys_below(n).finite(),
            self.keys_below(n).len() == sum_entries(self.0@.take(n)),
        decreases n,
    {
        if n == 0 {
            assert(self.keys_below(0) =~= Set::empty());
            assert(self.0@.take(0) =~= Seq::empty());
        } else {
            self.lemma_keys_below(n - 1);
            let shard = self.0@[n - 1];
            shard.lemma_load();
            let below = self.keys_below(n - 1);
            assert(self.keys_below(n) =~= below + shard@.dom()) by {
                assert forall|key: Key| (below + shard@.dom()).contains(key) implies self.keys_below(
                    n,
                ).contains(key) by {
                    if shard@.dom().contains(key) {
                        assert(self.0@[n - 1]@.contains_key(key));
                    }
                }
            }
            assert(below.disjoint(shard@.dom())) by {
                assert forall|key: Key| !(below.contains(key) && shard@.dom().contains(key)) by {
                    if shard@.dom().contains(key) {
                        assert(self.0@[n - 1]@.contains_key(key));
                    }
                }
            }
            vstd::set_lib::lemma_set_disjoint_lens(below, shard@.dom());
            vstd::set_lib::lemma_set_union_finite_iff(below, shard@.dom());
            lemma_sums_take(self.0@, n - 1);
        }
    }

    /// The cache holds as many strings as the counts of its shards add up to.
    pub proof fn lemma_count(&self)
        requires
            self.wf(),
        ensures
            self@.dom().finite(),
            self@.dom().len() == sum_entries(self.shards()),
            sum_entries(self.shards()) <= usize::MAX,
    {
        self.lemma_keys_below(NUM_BINS as int);
        assert(self@.dom() =~= self.keys_below(NUM_BINS as int));
        assert(self.0@.take(NUM_BINS as int) =~= self.0@);
    }

    /// A string of the cache lives in the shard that its hash selects, and
    /// in no other; its handle names that shard.
    pub proof fn lemma_routing(&self, key: Key, bin: int)
        requires
            self.wf(),
            0 <= bin < NUM_BINS,
        ensures
            self.shards()[bin]@.contains_key(key) ==> bin == spec_whichbin(key.hash)
                && self@.contains_key(key),
            self@.contains_key(key) ==> self@[key].spec_bin() == spec_whichbin(key.hash)
                && self.shards()[spec_whichbin(key.hash) as int]@.contains_key(key),
    {
        if self.0@[bin]@.contains_key(key) {
        }
    }

    /// The handle of a string of the cache denotes that string.
    pub proof fn lemma_handle(&self, key: Key)
        requires
            self.wf(),
            self@.contains_key(key),
        ensures
            self.holds(self@[key]),
            self.key_of(self@[key]) == key,
    {
        self.0@[spec_whichbin(key.hash) as int].lemma_handle(key);
    }

    /// A handle that the cache holds is the handle of the string it denotes.
    pub proof fn lemma_held(&self, u: Ustr)
        requires
            self.wf(),
            self.holds(u),
        ensures
            self@.contains_key(self.key_of(u)),
            self@[self.key_of(u)] == u,
    {
        let key = self.key_of(u);
        assert(self.0@[u.spec_bin() as int]@.contains_key(key));
    }

    /// Two strings of the cache with the same handle are the same string.
    pub proof fn lemma_injective(&self, a: Key, b: Key)
        requires
            self.wf(),
            self@.contains_key(a),
            self@.contains_key(b),
            self@[a] == self@[b],
        ensures
            a == b,
    {
        self.lemma_handle(a);
        self.lemma_handle(b);
    }

    /// A handle that a cache holds denotes the same string in every later
    /// state of the cache that still has the strings of the earlier one.
    pub proof fn lemma_stable(&self, later: &Bins, u: Ustr)
        requires
            self.wf(),
            later.wf(),
            self@.submap_of(later@),
            self.holds(u),
        ensures
            later.holds(u),
            later.key_of(u) == self.key_of(u),
    {
        self.lemma_held(u);
        let key = self.key_of(u);
        assert(self@.contains_key(key));
        assert(self@.dom().contains(key));
        assert(later@.dom().contains(key));
        assert(later@[key] == self@[key]);
        later.lemma_handle(key);
    }

    /// The bytes of a string of the cache lie in the arena that its handle
    /// names, from the position of the handle on, and a zero byte follows
    /// them.
    pub proof fn lemma_terminated(&self, u: Ustr)
        requires
            self.wf(),
            self.holds(u),
        ensures
            ({
                let p = u.spec_char_ptr();
                let mem = self.shards()[u.spec_bin() as int].arenas()[p.arena as int]@;
                let len = self.key_of(u).bytes.len();
                &&& p.offset + len < mem.len()
                &&& mem.subrange(p.offset as int, p.offset + len) == self.key_of(u).bytes
                &&& mem[p.offset + len] == 0
            }),
    {
        self.0@[u.spec_bin() as int].lemma_terminated(u.spec_char_ptr());
    }
}

/// Asking twice for the same string gives the same handle, and the second
/// time adds nothing.
pub proof fn lemma_canonical(c0: Bins, c1: Bins, c2: Bins, key: Key, u1: Ustr, u2: Ustr)
    requires
        interned(c0, c1, key, u1),
        interned(c1, c2, key, u2),
    ensures
        u1 == u2,
        c2@ == c1@,
{
}

/// Asking for two different strings gives two different handles.
pub proof fn lemma_distinct(c0: Bins, c1: Bins, c2: Bins, a: Key, b: Key, u1: Ustr, u2: Ustr)
    requires
        interned(c0, c1, a, u1),
        interned(c1, c2, b, u2),
        a != b,
    ensures
        u1 != u2,
        c2@[a] == u1,
        c2@[b] == u2,
{
    assert(c2@.contains_key(a) && c2@[a] == u1);
    if u1 == u2 {
        c2.lemma_injective(a, b);
    }
}

/// A handle stays valid, and denotes the same string, when more strings are
/// interned.
pub proof fn lemma_interned_stable(before: Bins, after: Bins, key: Key, u: Ustr, h: Ustr)
    requires
        before.wf(),
        interned(before, after, key, u),
        before.holds(h),
    ensures
        after.holds(h),
        after.key_of(h) == before.key_of(h),
{
    before.lemma_held(h);
    assert(before@.submap_of(after@)) by {
        assert forall|k: Key| #[trigger] before@.dom().contains(k) implies after@.dom().contains(k)
            && before@[k] == after@[k] by {
            if k == key {
                before.lemma_handle(k);
            }
        }
    }
    before.lemma_stable(&after, h);
}

/// The strings of a cache that started empty are those that were asked for:
/// after interning the keys of `keys` one after the other, the cache holds
/// exactly the different keys among them.
pub proof fn lemma_interned_all(states: Seq<Bins>, keys: Seq<Key>, handles: Seq<Ustr>)
    requires
        states.len() == keys.len() + 1,
        handles.len() == keys.len(),
        states[0].wf(),
        states[0]@ == Map::<Key, Ustr>::empty(),
        forall|i: int|
            0 <= i < keys.len() ==> interned(
                #[trigger] states[i],
                states[i + 1],
                keys[i],
                handles[i],
            ),
    ensures
        states.last().wf(),
        states.last()@.dom() == keys.to_set(),
        states.last()@.dom().len() == keys.to_set().len(),
        sum_entries(states.last().shards()) == keys.to_set().len(),
    decreases keys.len(),
{
    if keys.len() == 0 {
        assert(states.last()@.dom() =~= keys.to_set());
    } else {
        let n = keys.len() as int;
        let s2 = states.drop_last();
        let k2 = keys.drop_last();
        let h2 = handles.drop_last();
        assert forall|i: int| 0 <= i < k2.len() implies interned(
            #[trigger] s2[i],
            s2[i + 1],
            k2[i],
            h2[i],
        ) by {
            assert(interned(states[i], states[i + 1], keys[i], handles[i]));
        }
        lemma_interned_all(s2, k2, h2);
        assert(s2.last() == states[n - 1]);
        assert(interned(states[n - 1], states[n], keys[n - 1], handles[n - 1]));
        assert(states.last()@.dom() =~= keys.to_set()) by {
            assert(keys =~= k2.push(keys[n - 1]));
            assert forall|k: Key| keys.to_set().contains(k) <==> (k2.to_set().contains(k) || k
                == keys[n - 1]) by {
                if keys.to_set().contains(k) {
                    let i = choose|i: int| 0 <= i < keys.len() && keys[i] == k;
                    if i < n - 1 {
                        assert(k2[i] == k);
                    }
                }
                if k2.to_set().contains(k) {
                    let i = choose|i: int| 0 <= i < k2.len() && k2[i] == k;
                    assert(keys[i] == k);
                }
                if k == keys[n - 1] {
                    assert(keys[n - 1] == k);
                }
            }
        }
    }
    states.last().lemma_count();
}

/// Fresh shards hold nothing, in arenas of the initial size.
proof fn lemma_sums_fresh(shards: Seq<StringCache>)
    requires
        forall|b: int|
            0 <= b < shards.len() ==> {
                &&& (#[trigger] shards[b]).spec_num_entries() == 0
                &&& sum_capacity(shards[b].arenas()) == INITIAL_ALLOC / NUM_BINS
                &&& sum_allocated(shards[b].arenas()) == 0
            },
    ensures
        sum_entries(shards) == 0,
        sum_capacities(shards) == shards.len() * 65536,
        sum_allocations(shards) == 0,
    decreases shards.len(),
{
    if shards.len() > 0 {
        lemma_sums_fresh(shards.drop_last());
    }
}

impl Bins {
    /// Every shard of a cache in order is in order.
    pub proof fn lemma_shard(&self, bin: int)
        requires
            self.wf(),
            0 <= bin < NUM_BINS,
        ensures
            self.shards().len() == NUM_BINS,
            self.shards()[bin].wf(),
    {
    }

    /// The shard with index `bin`.
    pub fn shard(&self, bin: usize) -> (shard: &StringCache)
        requires
            self.wf(),
            bin < NUM_BINS,
        ensures
            *shard == self.shards()[bin as int],
            shard.wf(),
    {
        &self.0[bin]
    }

    /// Whether the machine can hold what admitting a new string of `len`
    /// bytes to shard `bin` asks for.
    pub fn has_room_in(&self, len: usize, bin: usize) -> (b: bool)
        requires
            self.wf(),
            bin < NUM_BINS,
        ensures
            b == self.can_admit_in(len as int, bin as int),
    {
        let shard = &self.0[bin];
        if !shard.has_room(len) {
            return false;
        }
        if num_entries(self) == usize::MAX {
            return false;
        }
        match shard.retire_capacity(len) {
            Some(n) => n <= usize::MAX - total_capacity(self),
            None => true,
        }
    }

    /// Whether the machine can hold what admitting a new string of `len`
    /// bytes with hash `hash` asks for.
    pub fn has_room(&self, len: usize, hash: u64) -> (b: bool)
        requires
            self.wf(),
        ensures
            b == self.can_admit(len as int, hash),
    {
        self.has_room_in(len, whichbin(hash))
    }

    /// Whether the machine can hold what admitting a new string of `len`
    /// bytes asks for, whichever shard its hash selects.
    pub fn has_room_for(&self, len: usize) -> (b: bool)
        requires
            self.wf(),
        ensures
            b == self.can_intern(len as int),
    {
        let mut bin: usize = 0;
        while bin < NUM_BINS
            invariant
                self.wf(),
                bin <= NUM_BINS,
                forall|k: int| 0 <= k < bin ==> self.can_admit_in(len as int, k),
            decreases NUM_BINS - bin,
        {
            if !self.has_room_in(len, bin) {
                return false;
            }
            bin += 1;
        }
        true
    }
}

/// A new cache: `NUM_BINS` empty shards.
pub fn cache() -> (bins: Bins)
    ensures
        bins.wf(),
        bins@ == Map::<Key, Ustr>::empty(),
        sum_entries(bins.shards()) == 0,
        sum_capacities(bins.shards()) == INITIAL_ALLOC,
        sum_allocations(bins.shards()) == 0,
{
    Bins::new()
}

/// Empties every shard of the cache. Every handle that the cache has issued
/// is void afterwards.
pub fn _clear_cache(cache: &mut Bins)
    requires
        old(cache).wf(),
    ensures
        final(cache).wf(),
        final(cache)@ == Map::<Key, Ustr>::empty(),
        sum_entries(final(cache).shards()) == 0,
        sum_capacities(final(cache).shards()) == INITIAL_ALLOC,
        sum_allocations(final(cache).shards()) == 0,
        forall|b: int|
            0 <= b < NUM_BINS ==> (#[trigger] final(cache).shards()[b]).spec_mask() == old(
                cache,
            ).shards()[b].spec_mask(),
{
    let mut i: usize = 0;
    while i < NUM_BINS
        invariant
            i <= NUM_BINS,
            cache.0@.len() == NUM_BINS,
            forall|b: int| 0 <= b < NUM_BINS ==> (#[trigger] cache.0@[b]).wf(),
            forall|b: int|
                0 <= b < i ==> {
                    &&& (#[trigger] cache.0@[b])@ == Map::<Key, Ptr>::empty()
                    &&& cache.0@[b].spec_num_entries() == 0
                    &&& sum_capacity(cache.0@[b].arenas()) == INITIAL_ALLOC / NUM_BINS
                    &&& sum_allocated(cache.0@[b].arenas()) == 0
                },
            forall|b: int|
                0 <= b < NUM_BINS ==> (#[trigger] cache.0@[b]).spec_mask() == old(
                    cache,
                ).0@[b].spec_mask(),
        decreases NUM_BINS - i,
    {
        cache.0[i].clear();
        proof {
            let shard = cache.0@[i as int];
            shard.lemma_arena();
            assert(shard.arenas().drop_last() =~= Seq::empty());
            assert(sum_capacity(shard.arenas()) == INITIAL_ALLOC / NUM_BINS) by {
                reveal_with_fuel(sum_capacity, 2);
            }
            assert(sum_allocated(shard.arenas()) == 0) by {
                reveal_with_fuel(sum_allocated, 2);
            }
        }
        i += 1;
    }
    proof {
        lemma_sums_fresh(cache.0@);
        assert(cache@ =~= Map::<Key, Ustr>::empty());
    }
}

/// Bytes handed out by all arenas of the cache, padding included.
pub fn total_allocated(cache: &Bins) -> (n: usize)
    requires
        cache.wf(),
    ensures
        n == sum_allocations(cache.shards()),
        n <= sum_capacities(cache.shards()),
{
    let mut sum: usize = 0;
    let mut i: usize = 0;
    while i < NUM_BINS
        invariant
            cache.wf(),
            i <= NUM_BINS,
            sum == sum_allocations(cache.0@.take(i as int)),
        decreases NUM_BINS - i,
    {
        proof {
            lemma_sums_take(cache.0@, i as int);
            lemma_sums_monotone(cache.0@, i as int + 1);
        }
        sum = sum + cache.0[i].total_allocated();
        i += 1;
    }
    proof {
        lemma_sums_take(cache.0@, 0);
        lemma_sums_wf(cache.0@);
    }
    sum
}

/// Capacity of all arenas of the cache together.
pub fn total_capacity(cache: &Bins) -> (n: usize)
    requires
        cache.wf(),
    ensures
        n == sum_capacities(cache.shards()),
{
    let mut sum: usize = 0;
    let mut i: usize = 0;
    while i < NUM_BINS
        invariant
            cache.wf(),
            i <= NUM_BINS,
            sum == sum_capacities(cache.0@.take(i as int)),
        decreases NUM_BINS - i,
    {
        proof {
            lemma_sums_take(cache.0@, i as int);
            lemma_sums_monotone(cache.0@, i as int + 1);
        }
        sum = sum + cache.0[i].total_capacity();
        i += 1;
    }
    proof {
        lemma_sums_take(cache.0@, 0);
    }
    sum
}

/// Number of strings of the cache.
pub fn num_entries(cache: &Bins) -> (n: usize)
    requires
        cache.wf(),
    ensures
        n == sum_entries(cache.shards()),
        n == cache@.dom().len(),
{
    let mut sum: usize = 0;
    let mut i: usize = 0;
    while i < NUM_BINS
        invariant
            cache.wf(),
            i <= NUM_BINS,
            sum == sum_entries(cache.0@.take(i as int)),
        decreases NUM_BINS - i,
    {
        proof {
            lemma_sums_take(cache.0@, i as int);
            lemma_sums_monotone(cache.0@, i as int + 1);
        }
        sum = sum + cache.0[i].num_entries();
        i += 1;
    }
    proof {
        lemma_sums_take(cache.0@, 0);
        cache.lemma_count();
    }
    sum
}

/// Number of strings of each shard, in the order of the shards.
pub fn num_entries_per_bin(cache: &Bins) -> (counts: Vec<usize>)
    requires
        cache.wf(),
    ensures
        counts@.len() == NUM_BINS,
        forall|b: int|
            0 <= b < NUM_BINS ==> #[trigger] counts@[b] == cache.shards()[b].spec_num_entries()
                && counts@[b] == cache.shards()[b]@.dom().len(),
{
    let mut counts: Vec<usize> = Vec::new();
    let mut i: usize = 0;
    while i < NUM_BINS
        invariant
            cache.wf(),
            i <= NUM_BINS,
            counts@.len() == i,
            forall|b: int|
                0 <= b < i ==> #[trigger] counts@[b] == cache.0@[b].spec_num_entries()
                    && counts@[b] == cache.0@[b]@.dom().len(),
        decreases NUM_BINS - i,
    {
        counts.push(cache.0[i].num_entries());
        i += 1;
    }
    counts
}

/// An iterator over the strings of `cache`: it visits every string of the
/// cache once.
pub fn string_cache_iter<'a>(cache: &'a Bins) -> (it: StringCacheIterator<'a>)
    requires
        cache.wf(),
    ensures
        it.wf(),
        it.spec_shards() == cache.shards(),
        it@ == walk_shards(cache.shards()),
        it@.to_set() == cache@.dom(),
        it@.no_duplicates(),
        it@.len() == cache@.dom().len(),
{
    proof {
        assert(all_wf(cache.0@));
        assert(disjoint(cache.0@));
    }
    let it = StringCacheIterator::new(cache.0.as_slice());
    proof {
        assert(it@.to_set() =~= cache@.dom()) by {
            assert forall|key: Key| it@.to_set().contains(key) <==> cache@.dom().contains(key) by {
                if it@.contains(key) {
                    let b = choose|b: int|
                        0 <= b < cache.0@.len() && (#[trigger] cache.0@[b])@.contains_key(key);
                    assert(cache.0@[b]@.contains_key(key));
                }
                if cache@.dom().contains(key) {
                    assert(cache.0@[spec_whichbin(key.hash) as int]@.contains_key(key));
                    assert(held_by(cache.0@, key));
                }
            }
        }
        it@.unique_seq_to_set();
    }
    it
}

} // verus!
