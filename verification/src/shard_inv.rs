//! What a shard keeps true of its arenas, its records and its table, and why
//! each step of an insertion keeps it true.
//!
//! The shard remembers, as ghost state, the records of each arena in the
//! order in which they were written, and a map from each key to the position
//! of its string. The predicates of this module tie that state to the bytes
//! of the arenas and to the slots of the table.

use vstd::prelude::*;
use vstd::arithmetic::power2::pow2;
use vstd::utf8::valid_utf8;
use crate::align::spec_round_down;
use crate::bumpalloc::LeakyBumpAlloc;
use crate::entry::{key_at, lemma_stored_frame, request_size, stored_at, Key};
use crate::probe::{lemma_probe_next, probe};
use crate::table::{
    lemma_placed_stays, lemma_probe_finds_vacancy, occupied, placed, placed_at, Ptr,
};

verus! {

/// One record as the shard remembers it: where it starts in its arena and
/// which key it holds.
pub ghost struct Rec {
    pub off: int,
    pub key: Key,
}

/// Total capacity of a chain of arenas.
pub open spec fn sum_capacity(arenas: Seq<LeakyBumpAlloc>) -> int
    decreases arenas.len(),
{
    if arenas.len() == 0 {
        0
    } else {
        sum_capacity(arenas.drop_last()) + arenas.last().spec_capacity()
    }
}

/// Total number of bytes handed out by a chain of arenas.
pub open spec fn sum_allocated(arenas: Seq<LeakyBumpAlloc>) -> int
    decreases arenas.len(),
{
    if arenas.len() == 0 {
        0
    } else {
        sum_allocated(arenas.drop_last()) + arenas.last().spec_allocated()
    }
}

/// The cursor of an arena of `capacity` bytes before it allocated the
/// `i`-th record of `log`.
pub open spec fn cursor_before(log: Seq<Rec>, capacity: int, i: int) -> int {
    if i == 0 {
        capacity
    } else {
        log[i - 1].off
    }
}

/// The `i`-th record of `log` lies in `arena` where the allocation for it put
/// it, and is complete.
pub open spec fn packed_at(arena: LeakyBumpAlloc, log: Seq<Rec>, i: int) -> bool {
    let c = cursor_before(log, arena.spec_capacity() as int, i);
    let r = log[i];
    &&& request_size(r.key.bytes.len() as int) <= c
    &&& r.off == spec_round_down(c - request_size(r.key.bytes.len() as int), 8)
    &&& arena.spec_ptr() <= r.off
    &&& stored_at(arena@, r.off, r.key)
}

/// The records of `log` fill the arena `arena` from its end downward, each
/// where the allocation for it put it, and the arena's cursor is at the last.
pub open spec fn packed(arena: LeakyBumpAlloc, log: Seq<Rec>) -> bool {
    &&& arena.wf()
    &&& arena.spec_align() == 8
    &&& arena.spec_ptr() == cursor_before(log, arena.spec_capacity() as int, log.len() as int)
    &&& forall|i: int| 0 <= i < log.len() ==> #[trigger] packed_at(arena, log, i)
}

/// The arenas hold the records of `log`, arena by arena, and nothing else,
/// and their capacities add up to a number that fits the machine word.
#[verifier::opaque]
pub open spec fn chain_ok(arenas: Seq<LeakyBumpAlloc>, log: Seq<Seq<Rec>>) -> bool {
    &&& log.len() == arenas.len()
    &&& forall|k: int| 0 <= k < arenas.len() ==> packed(#[trigger] arenas[k], log[k])
    &&& arenas.len() <= sum_capacity(arenas) <= usize::MAX
}

/// The map from keys to string positions and the records agree: each key has
/// one record, at index `loc` of the arena of its position, and each record
/// belongs to one key.
#[verifier::opaque]
pub open spec fn index_ok(map: Map<Key, Ptr>, loc: Map<Key, int>, log: Seq<Seq<Rec>>) -> bool {
    &&& map.dom().finite()
    &&& forall|key: Key| #[trigger]
        map.contains_key(key) ==> {
            let p = map[key];
            let i = loc[key];
            &&& p.arena < log.len()
            &&& 0 <= i < log[p.arena as int].len()
            &&& log[p.arena as int][i].key == key
            &&& log[p.arena as int][i].off + 16 == p.offset
            &&& valid_utf8(key.bytes)
        }
    &&& forall|k: int, i: int|
        0 <= k < log.len() && 0 <= i < log[k].len() ==> {
            let key = (#[trigger] log[k][i]).key;
            &&& map.contains_key(key)
            &&& map[key].arena == k
            &&& loc[key] == i
        }
}

/// The position in front of a string position: where its record starts.
pub open spec fn header_of(p: Ptr) -> Ptr {
    Ptr { arena: p.arena, offset: (p.offset - 16) as usize }
}

/// The record at `e` holds a key of the map, and the map sends that key to
/// the string of the record.
pub open spec fn record_ok(arenas: Seq<LeakyBumpAlloc>, map: Map<Key, Ptr>, e: Ptr) -> bool {
    &&& e.arena < arenas.len()
    &&& e.offset + 16 <= usize::MAX
    &&& map.contains_key(key_at(arenas[e.arena as int]@, e.offset as int))
    &&& map[key_at(arenas[e.arena as int]@, e.offset as int)] == Ptr {
        arena: e.arena,
        offset: (e.offset + 16) as usize,
    }
}

/// Every occupied slot holds the position of a record of the map.
#[verifier::opaque]
pub open spec fn slots_ok(
    arenas: Seq<LeakyBumpAlloc>,
    map: Map<Key, Ptr>,
    slots: Seq<Option<Ptr>>,
) -> bool {
    forall|s: int|
        0 <= s < slots.len() && (#[trigger] slots[s]) is Some ==> record_ok(arenas, map, slots[s]->0)
}

/// Every key of the map is found by probing `slots` for it.
#[verifier::opaque]
pub open spec fn placed_ok(map: Map<Key, Ptr>, slots: Seq<Option<Ptr>>) -> bool {
    forall|key: Key| #[trigger]
        map.contains_key(key) ==> placed(slots, key.hash, header_of(map[key]))
}

/// The record behind an occupied slot is complete, and its key is the one
/// that the map knows it by.
pub proof fn lemma_record(
    arenas: Seq<LeakyBumpAlloc>,
    log: Seq<Seq<Rec>>,
    map: Map<Key, Ptr>,
    loc: Map<Key, int>,
    e: Ptr,
)
    requires
        chain_ok(arenas, log),
        index_ok(map, loc, log),
        record_ok(arenas, map, e),
    ensures
        e.arena < arenas.len(),
        arenas[e.arena as int].wf(),
        arenas[e.arena as int].spec_ptr() <= e.offset,
        stored_at(arenas[e.arena as int]@, e.offset as int, key_at(arenas[e.arena as int]@, e.offset as int)),
        valid_utf8(key_at(arenas[e.arena as int]@, e.offset as int).bytes),
{
    reveal(chain_ok);
    reveal(index_ok);
    let key = key_at(arenas[e.arena as int]@, e.offset as int);
    assert(map.contains_key(key));
    let i = loc[key];
    assert(packed(arenas[e.arena as int], log[e.arena as int]));
    assert(packed_at(arenas[e.arena as int], log[e.arena as int], i));
    assert(log[e.arena as int][i].off == e.offset);
}

/// The string position of a key of the map denotes a complete record for
/// that key.
pub proof fn lemma_key(
    arenas: Seq<LeakyBumpAlloc>,
    log: Seq<Seq<Rec>>,
    map: Map<Key, Ptr>,
    loc: Map<Key, int>,
    key: Key,
)
    requires
        chain_ok(arenas, log),
        index_ok(map, loc, log),
        map.contains_key(key),
    ensures
        map[key].arena < arenas.len(),
        map[key].offset >= 16,
        arenas[map[key].arena as int].wf(),
        arenas[map[key].arena as int].spec_ptr() <= map[key].offset - 16,
        stored_at(arenas[map[key].arena as int]@, map[key].offset - 16, key),
        key_at(arenas[map[key].arena as int]@, map[key].offset - 16) == key,
        record_ok(arenas, map, header_of(map[key])),
        valid_utf8(key.bytes),
{
    reveal(chain_ok);
    reveal(index_ok);
    let p = map[key];
    let i = loc[key];
    assert(packed(arenas[p.arena as int], log[p.arena as int]));
    assert(packed_at(arenas[p.arena as int], log[p.arena as int], i));
    assert(log[p.arena as int][i].key == key);
    arenas[p.arena as int].lemma_bounds();
}

/// A key whose probe sequence reaches an empty slot without meeting its
/// record is not in the map.
pub proof fn lemma_absent(
    arenas: Seq<LeakyBumpAlloc>,
    log: Seq<Seq<Rec>>,
    map: Map<Key, Ptr>,
    loc: Map<Key, int>,
    slots: Seq<Option<Ptr>>,
    key: Key,
    dist: nat,
)
    requires
        chain_ok(arenas, log),
        index_ok(map, loc, log),
        placed_ok(map, slots),
        dist < slots.len(),
        slots[probe(key.hash, dist, slots.len()) as int] is None,
        forall|earlier: nat|
            earlier < dist ==> {
                let e = #[trigger] slots[probe(key.hash, earlier, slots.len()) as int];
                &&& e is Some
                &&& key_at(arenas[e->0.arena as int]@, e->0.offset as int) != key
            },
    ensures
        !map.contains_key(key),
{
    reveal(placed_ok);
    let size = slots.len();
    if map.contains_key(key) {
        let hdr = header_of(map[key]);
        lemma_key(arenas, log, map, loc, key);
        assert(placed(slots, key.hash, hdr));
        let step = choose|step: nat| placed_at(slots, key.hash, hdr, step);
        if step < dist {
            let e = slots[probe(key.hash, step, size) as int];
            assert(e->0 == hdr);
        } else if step > dist {
            assert(slots[probe(key.hash, dist, size) as int] is Some);
        }
    }
}

/// A probe sequence that has met only occupied slots, in a table of `2^e`
/// slots that is not full, has not yet taken as many steps as there are
/// slots.
pub proof fn lemma_not_last(slots: Seq<Option<Ptr>>, hash: u64, dist: nat, e: nat)
    requires
        slots.len() == pow2(e),
        occupied(slots) < slots.len(),
        dist < slots.len(),
        forall|earlier: nat|
            earlier <= dist ==> (#[trigger] slots[probe(hash, earlier, slots.len()) as int]) is Some,
    ensures
        dist + 1 < slots.len(),
{
    let size = slots.len();
    if dist + 1 == size {
        lemma_probe_finds_vacancy(slots, hash, e);
        let step = choose|step: nat|
            step < size && (#[trigger] slots[probe(hash, step, size) as int]) is None;
        assert(slots[probe(hash, step, size) as int] is Some);
    }
}

/// The arena `after` is the arena `before` with one more record, for `key`,
/// allocated and written at `off`.
pub open spec fn wrote(before: LeakyBumpAlloc, after: LeakyBumpAlloc, off: int, key: Key) -> bool {
    &&& before.wf()
    &&& after.wf()
    &&& after.spec_align() == before.spec_align()
    &&& after.spec_capacity() == before.spec_capacity()
    &&& request_size(key.bytes.len() as int) <= before.spec_ptr()
    &&& off == spec_round_down(before.spec_ptr() - request_size(key.bytes.len() as int), 8)
    &&& after.spec_ptr() == off
    &&& after@.len() == before@.len()
    &&& stored_at(after@, off, key)
    &&& forall|i: int|
        0 <= i < before@.len() && !(off <= i < off + request_size(key.bytes.len() as int))
            ==> after@[i] == before@[i]
}

/// The log `log` with the record of `key` at `off` added to its last arena.
pub open spec fn log_with(log: Seq<Seq<Rec>>, off: int, key: Key) -> Seq<Seq<Rec>> {
    log.update(log.len() - 1, log.last().push(Rec { off, key }))
}

/// Replacing the last arena by one of the same capacity keeps the total.
pub proof fn lemma_sum_capacity_last(arenas: Seq<LeakyBumpAlloc>, after: LeakyBumpAlloc)
    requires
        arenas.len() > 0,
        after.spec_capacity() == arenas.last().spec_capacity(),
    ensures
        sum_capacity(arenas.update(arenas.len() - 1, after)) == sum_capacity(arenas),
{
    let next = arenas.update(arenas.len() - 1, after);
    assert(next.drop_last() =~= arenas.drop_last());
}

/// Adding an arena adds its capacity and what it has handed out.
pub proof fn lemma_sum_push(arenas: Seq<LeakyBumpAlloc>, fresh: LeakyBumpAlloc)
    ensures
        sum_capacity(arenas.push(fresh)) == sum_capacity(arenas) + fresh.spec_capacity(),
        sum_allocated(arenas.push(fresh)) == sum_allocated(arenas) + fresh.spec_allocated(),
{
    assert(arenas.push(fresh).drop_last() =~= arenas);
}

/// Writing a record into the last arena keeps the chain in order.
pub proof fn lemma_admit_chain(
    arenas: Seq<LeakyBumpAlloc>,
    log: Seq<Seq<Rec>>,
    after: LeakyBumpAlloc,
    off: int,
    key: Key,
)
    requires
        chain_ok(arenas, log),
        arenas.len() > 0,
        wrote(arenas.last(), after, off, key),
    ensures
        chain_ok(arenas.update(arenas.len() - 1, after), log_with(log, off, key)),
{
    reveal(chain_ok);
    let n = arenas.len() as int;
    let before = arenas[n - 1];
    let arenas2 = arenas.update(n - 1, after);
    let log2 = log_with(log, off, key);
    let old_log = log[n - 1];
    let new_log = log2[n - 1];
    lemma_sum_capacity_last(arenas, after);
    assert(packed(before, old_log));
    before.lemma_bounds();
    after.lemma_bounds();
    assert forall|k: int| 0 <= k < arenas2.len() implies packed(#[trigger] arenas2[k], log2[k]) by {
        if k < n - 1 {
            assert(packed(arenas[k], log[k]));
        } else {
            assert forall|i: int| 0 <= i < new_log.len() implies #[trigger] packed_at(
                after,
                new_log,
                i,
            ) by {
                if i < old_log.len() {
                    assert(packed_at(before, old_log, i));
                    let r = old_log[i];
                    lemma_stored_frame(before@, after@, r.off, r.key);
                } else {
                }
            }
        }
    }
}

/// Adding a record for a new key keeps the map and the records in agreement.
pub proof fn lemma_admit_index(
    map: Map<Key, Ptr>,
    loc: Map<Key, int>,
    log: Seq<Seq<Rec>>,
    off: int,
    key: Key,
    p: Ptr,
)
    requires
        index_ok(map, loc, log),
        !map.contains_key(key),
        valid_utf8(key.bytes),
        log.len() > 0,
        p.arena == log.len() - 1,
        p.offset == off + 16,
    ensures
        index_ok(
            map.insert(key, p),
            loc.insert(key, log.last().len() as int),
            log_with(log, off, key),
        ),
{
    reveal(index_ok);
    let n = log.len() as int;
    let map2 = map.insert(key, p);
    let loc2 = loc.insert(key, log.last().len() as int);
    let log2 = log_with(log, off, key);
    assert forall|k: Key| #[trigger] map2.contains_key(k) implies ({
        let q = map2[k];
        let i = loc2[k];
        &&& q.arena < log2.len()
        &&& 0 <= i < log2[q.arena as int].len()
        &&& log2[q.arena as int][i].key == k
        &&& log2[q.arena as int][i].off + 16 == q.offset
        &&& valid_utf8(k.bytes)
    }) by {
        if k != key {
            assert(map.contains_key(k));
        }
    }
    assert forall|k: int, i: int| 0 <= k < log2.len() && 0 <= i < log2[k].len() implies ({
        let kk = (#[trigger] log2[k][i]).key;
        &&& map2.contains_key(kk)
        &&& map2[kk].arena == k
        &&& loc2[kk] == i
    }) by {
        if k == n - 1 && i == log[n - 1].len() {
        } else {
            assert(log2[k][i] == log[k][i]);
            let kk = log[k][i].key;
            assert(map.contains_key(kk));
        }
    }
}

/// Filling an empty slot with the new record keeps every occupied slot
/// pointing at a record of the map.
pub proof fn lemma_admit_slots(
    arenas: Seq<LeakyBumpAlloc>,
    log: Seq<Seq<Rec>>,
    map: Map<Key, Ptr>,
    loc: Map<Key, int>,
    slots: Seq<Option<Ptr>>,
    after: LeakyBumpAlloc,
    off: int,
    key: Key,
    pos: int,
)
    requires
        chain_ok(arenas, log),
        index_ok(map, loc, log),
        slots_ok(arenas, map, slots),
        !map.contains_key(key),
        arenas.len() > 0,
        arenas.len() - 1 <= usize::MAX,
        wrote(arenas.last(), after, off, key),
        0 <= pos < slots.len(),
    ensures
        off + 16 <= usize::MAX,
        slots_ok(
            arenas.update(arenas.len() - 1, after),
            map.insert(key, Ptr { arena: (arenas.len() - 1) as usize, offset: (off + 16) as usize }),
            slots.update(
                pos,
                Some(Ptr { arena: (arenas.len() - 1) as usize, offset: off as usize }),
            ),
        ),
{
    let n = arenas.len() as int;
    let before = arenas[n - 1];
    let arenas2 = arenas.update(n - 1, after);
    let p = Ptr { arena: (n - 1) as usize, offset: (off + 16) as usize };
    let hdr = Ptr { arena: (n - 1) as usize, offset: off as usize };
    let map2 = map.insert(key, p);
    let slots2 = slots.update(pos, Some(hdr));
    before.lemma_bounds();
    after.lemma_bounds();
    assert forall|s: int| 0 <= s < slots2.len() && (#[trigger] slots2[s]) is Some implies record_ok(
        arenas2,
        map2,
        slots2[s]->0,
    ) by {
        if s == pos {
            assert(key_at(after@, off) == key);
        } else {
            let e = slots[s]->0;
            assert(record_ok(arenas, map, e)) by {
                reveal(slots_ok);
            }
            lemma_record(arenas, log, map, loc, e);
            let k = key_at(arenas[e.arena as int]@, e.offset as int);
            if e.arena == n - 1 {
                lemma_stored_frame(before@, after@, e.offset as int, k);
            }
            assert(key_at(arenas2[e.arena as int]@, e.offset as int) == k);
        }
    }
    reveal(slots_ok);
}

/// Filling the empty slot that the probe sequence of a new key has reached
/// keeps every key where probing finds it.
pub proof fn lemma_admit_placed(
    map: Map<Key, Ptr>,
    slots: Seq<Option<Ptr>>,
    key: Key,
    p: Ptr,
    pos: int,
    step: nat,
)
    requires
        placed_ok(map, slots),
        step < slots.len(),
        pos == probe(key.hash, step, slots.len()),
        slots[pos] is None,
        p.offset >= 16,
        forall|earlier: nat|
            earlier < step ==> (#[trigger] slots[probe(key.hash, earlier, slots.len()) as int])
                is Some,
    ensures
        placed_ok(map.insert(key, p), slots.update(pos, Some(header_of(p)))),
{
    reveal(placed_ok);
    let map2 = map.insert(key, p);
    let slots2 = slots.update(pos, Some(header_of(p)));
    lemma_probe_next(key.hash, step, slots.len());
    assert forall|k: Key| #[trigger] map2.contains_key(k) implies placed(
        slots2,
        k.hash,
        header_of(map2[k]),
    ) by {
        if k == key {
            assert forall|earlier: nat| earlier < step implies (#[trigger] slots2[probe(
                key.hash,
                earlier,
                slots2.len(),
            ) as int]) is Some by {
                lemma_probe_next(key.hash, earlier, slots.len());
                assert(slots[probe(key.hash, earlier, slots.len()) as int] is Some);
            }
            assert(placed_at(slots2, key.hash, header_of(p), step));
        } else {
            assert(map.contains_key(k));
            lemma_placed_stays(slots, slots2, k.hash, header_of(map[k]));
        }
    }
}

/// Adding an empty arena keeps the chain in order.
pub proof fn lemma_retire_chain(
    arenas: Seq<LeakyBumpAlloc>,
    log: Seq<Seq<Rec>>,
    fresh: LeakyBumpAlloc,
)
    requires
        chain_ok(arenas, log),
        fresh.wf(),
        fresh.spec_align() == 8,
        fresh.spec_ptr() == fresh.spec_capacity(),
        fresh.spec_capacity() >= 1,
        sum_capacity(arenas) + fresh.spec_capacity() <= usize::MAX,
    ensures
        chain_ok(arenas.push(fresh), log.push(Seq::empty())),
{
    reveal(chain_ok);
    lemma_sum_push(arenas, fresh);
    let arenas2 = arenas.push(fresh);
    let log2 = log.push(Seq::<Rec>::empty());
    assert forall|k: int| 0 <= k < arenas2.len() implies packed(#[trigger] arenas2[k], log2[k]) by {
        if k < arenas.len() {
            assert(packed(arenas[k], log[k]));
        }
    }
}

/// Adding an empty arena keeps the map and the records in agreement.
pub proof fn lemma_retire_index(map: Map<Key, Ptr>, loc: Map<Key, int>, log: Seq<Seq<Rec>>)
    requires
        index_ok(map, loc, log),
    ensures
        index_ok(map, loc, log.push(Seq::empty())),
{
    reveal(index_ok);
    let log2 = log.push(Seq::<Rec>::empty());
    assert forall|k: int, i: int| 0 <= k < log2.len() && 0 <= i < log2[k].len() implies ({
        let kk = (#[trigger] log2[k][i]).key;
        &&& map.contains_key(kk)
        &&& map[kk].arena == k
        &&& loc[kk] == i
    }) by {
        assert(log2[k][i] == log[k][i]);
    }
}

/// Adding an arena keeps every occupied slot pointing at a record of the map.
pub proof fn lemma_retire_slots(
    arenas: Seq<LeakyBumpAlloc>,
    map: Map<Key, Ptr>,
    slots: Seq<Option<Ptr>>,
    fresh: LeakyBumpAlloc,
)
    requires
        slots_ok(arenas, map, slots),
    ensures
        slots_ok(arenas.push(fresh), map, slots),
{
    reveal(slots_ok);
    let arenas2 = arenas.push(fresh);
    assert forall|s: int| 0 <= s < slots.len() && (#[trigger] slots[s]) is Some implies record_ok(
        arenas2,
        map,
        slots[s]->0,
    ) by {
        let e = slots[s]->0;
        assert(record_ok(arenas, map, e));
        assert(arenas2[e.arena as int] == arenas[e.arena as int]);
    }
}

/// Capacities are not negative.
pub proof fn lemma_sum_nonnegative(arenas: Seq<LeakyBumpAlloc>)
    ensures
        sum_capacity(arenas) >= 0,
    decreases arenas.len(),
{
    if arenas.len() > 0 {
        lemma_sum_nonnegative(arenas.drop_last());
    }
}

/// A table in which every position of `slots` has been placed by the hash
/// of its record finds every key of the map.
pub proof fn lemma_grown_placed(
    arenas: Seq<LeakyBumpAlloc>,
    log: Seq<Seq<Rec>>,
    map: Map<Key, Ptr>,
    loc: Map<Key, int>,
    slots: Seq<Option<Ptr>>,
    grown: Seq<Option<Ptr>>,
)
    requires
        chain_ok(arenas, log),
        index_ok(map, loc, log),
        placed_ok(map, slots),
        forall|s: int|
            0 <= s < slots.len() && (#[trigger] slots[s]) is Some ==> placed(
                grown,
                key_at(arenas[slots[s]->0.arena as int]@, slots[s]->0.offset as int).hash,
                slots[s]->0,
            ),
    ensures
        placed_ok(map, grown),
{
    reveal(placed_ok);
    assert forall|key: Key| #[trigger] map.contains_key(key) implies placed(
        grown,
        key.hash,
        header_of(map[key]),
    ) by {
        let hdr = header_of(map[key]);
        lemma_key(arenas, log, map, loc, key);
        assert(placed(slots, key.hash, hdr));
        let step = choose|step: nat| placed_at(slots, key.hash, hdr, step);
        if slots.len() > 0 {
            lemma_probe_next(key.hash, step, slots.len());
        }
        let s = probe(key.hash, step, slots.len()) as int;
        assert(slots[s] is Some);
    }
}

/// The sums over one arena more.
pub proof fn lemma_sum_take(arenas: Seq<LeakyBumpAlloc>, i: int)
    requires
        0 <= i < arenas.len(),
    ensures
        sum_capacity(arenas.take(0)) == 0,
        sum_allocated(arenas.take(0)) == 0,
        sum_capacity(arenas.take(i + 1)) == sum_capacity(arenas.take(i)) + arenas[i].spec_capacity(),
        sum_allocated(arenas.take(i + 1)) == sum_allocated(arenas.take(i))
            + arenas[i].spec_allocated(),
{
    assert(arenas.take(i + 1).drop_last() =~= arenas.take(i));
}

/// The sums over the first `i` arenas of well-formed arenas are no more than
/// the total capacity, and what was handed out is no more than the capacity.
pub proof fn lemma_sum_take_bound(arenas: Seq<LeakyBumpAlloc>, i: int)
    requires
        0 <= i <= arenas.len(),
        forall|k: int| 0 <= k < arenas.len() ==> (#[trigger] arenas[k]).wf(),
    ensures
        0 <= sum_allocated(arenas.take(i)) <= sum_capacity(arenas.take(i)) <= sum_capacity(arenas),
    decreases arenas.len() - i,
{
    lemma_sum_prefix(arenas.take(i));
    if i < arenas.len() {
        lemma_sum_take_bound(arenas, i + 1);
        lemma_sum_take(arenas, i);
        lemma_sum_prefix(arenas.take(i + 1));
    } else {
        assert(arenas.take(i) =~= arenas);
    }
}

/// Well-formed arenas have handed out no more than their capacity.
pub proof fn lemma_sum_prefix(arenas: Seq<LeakyBumpAlloc>)
    requires
        forall|k: int| 0 <= k < arenas.len() ==> (#[trigger] arenas[k]).wf(),
    ensures
        0 <= sum_allocated(arenas) <= sum_capacity(arenas),
    decreases arenas.len(),
{
    if arenas.len() > 0 {
        lemma_sum_prefix(arenas.drop_last());
        arenas.last().lemma_bounds();
    }
}

} // verus!
