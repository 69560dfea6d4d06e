//! Walking the records of shards, arena by arena.
//!
//! An iterator notes, for every arena, the range that the arena has handed
//! out. It then walks each range from its low end: it reads the record at
//! its position, and moves on by the footprint of that record.

use vstd::prelude::*;
use vstd::string::StringSliceAdditionalSpecFns;
use crate::entry::{lemma_footprint, str_from_utf8, Key, StringCacheEntry};
use crate::shard_inv::{cursor_before, packed, packed_at, Rec};
use crate::stringcache::StringCache;

verus! {

/// The range that one arena has handed out: the shard and the arena, the
/// offset of the cursor, and the end of the region.
#[derive(Clone, Copy, Debug, PartialEq, Eq, Structural)]
pub struct Span {
    pub bin: usize,
    pub arena: usize,
    pub ptr: usize,
    pub end: usize,
}

/// Where a key of a plan comes from: the shard, the arena, and the index of
/// the record in the arena.
pub ghost struct Origin {
    pub bin: int,
    pub arena: int,
    pub index: int,
}

/// Every shard is in order.
pub open spec fn all_wf(shards: Seq<StringCache>) -> bool {
    forall|b: int| 0 <= b < shards.len() ==> (#[trigger] shards[b]).wf()
}

/// One of the shards holds `key`.
pub open spec fn held_by(shards: Seq<StringCache>, key: Key) -> bool {
    exists|b: int| 0 <= b < shards.len() && (#[trigger] shards[b])@.contains_key(key)
}

/// No key is held by two of the shards.
pub open spec fn disjoint(shards: Seq<StringCache>) -> bool {
    forall|a: int, b: int, key: Key|
        0 <= a < shards.len() && 0 <= b < shards.len() && (#[trigger] shards[a]@.contains_key(key))
            && (#[trigger] shards[b]@.contains_key(key)) ==> a == b
}

/// The records of the arena that `span` names.
pub open spec fn span_records(shards: Seq<StringCache>, span: Span) -> Seq<Rec> {
    shards[span.bin as int].records()[span.arena as int]
}

/// The keys of `log`, last record first: the order in which the records lie
/// in the arena, from the cursor up.
pub open spec fn keys_upward(log: Seq<Rec>) -> Seq<Key> {
    Seq::new(log.len(), |t: int| log[log.len() - 1 - t].key)
}

/// The keys of the records of a chain of arenas in the order of a walk: arena
/// by arena from the oldest, each arena from its cursor up.
pub open spec fn walk_arenas(logs: Seq<Seq<Rec>>) -> Seq<Key>
    decreases logs.len(),
{
    if logs.len() == 0 {
        Seq::empty()
    } else {
        walk_arenas(logs.drop_last()) + keys_upward(logs.last())
    }
}

/// The keys of the records of `shards` in the order of a walk: shard by
/// shard, and each shard as `walk_arenas` has it.
pub open spec fn walk_shards(shards: Seq<StringCache>) -> Seq<Key>
    decreases shards.len(),
{
    if shards.len() == 0 {
        Seq::empty()
    } else {
        walk_shards(shards.drop_last()) + walk_arenas(shards.last().records())
    }
}

/// The walk of one arena more, and of one shard more.
pub proof fn lemma_walk_step(shards: Seq<StringCache>, b: int, logs: Seq<Seq<Rec>>, k: int)
    ensures
        0 <= k < logs.len() ==> walk_arenas(logs.take(k + 1)) == walk_arenas(logs.take(k))
            + keys_upward(logs[k]),
        walk_arenas(logs.take(0)) == Seq::<Key>::empty(),
        walk_arenas(logs.take(logs.len() as int)) == walk_arenas(logs),
        0 <= b < shards.len() ==> walk_shards(shards.take(b + 1)) == walk_shards(shards.take(b))
            + walk_arenas(shards[b].records()),
        walk_shards(shards.take(0)) == Seq::<Key>::empty(),
        walk_shards(shards.take(shards.len() as int)) == walk_shards(shards),
{
    if 0 <= k < logs.len() {
        assert(logs.take(k + 1).drop_last() =~= logs.take(k));
    }
    assert(logs.take(logs.len() as int) =~= logs);
    if 0 <= b < shards.len() {
        assert(shards.take(b + 1).drop_last() =~= shards.take(b));
    }
    assert(shards.take(shards.len() as int) =~= shards);
}

/// `span` is the range of an arena of one of the shards, and `plan` holds
/// the keys of the records of that arena, from the cursor up, from index
/// `start` to index `next`.
pub open spec fn span_ok(
    shards: Seq<StringCache>,
    span: Span,
    plan: Seq<Key>,
    start: int,
    next: int,
) -> bool {
    let shard = shards[span.bin as int];
    let log = span_records(shards, span);
    &&& span.bin < shards.len()
    &&& span.arena < shard.arenas().len()
    &&& span.ptr == shard.arenas()[span.arena as int].spec_ptr()
    &&& span.end == shard.arenas()[span.arena as int].spec_capacity()
    &&& 0 <= start
    &&& next == start + log.len()
    &&& next <= plan.len()
    &&& forall|t: int| 0 <= t < log.len() ==> #[trigger] plan[start + t] == log[log.len() - 1 - t].key
}

/// `plan` holds the key of every record of the shards below `bin`, and of
/// the arenas below `arena` of shard `bin`.
pub open spec fn covered(shards: Seq<StringCache>, plan: Seq<Key>, bin: int, arena: int) -> bool {
    forall|b: int, k: int, i: int|
        0 <= b < shards.len() && (b < bin || (b == bin && k < arena)) && 0 <= k
            < shards[b].records().len() && 0 <= i < shards[b].records()[k].len() ==> plan.contains(
            (#[trigger] shards[b].records()[k][i]).key,
        )
}

/// Every key of `plan` is the key of the record that `origin` names for it,
/// a record of a shard below `bin` or of an arena below `arena` of shard
/// `bin`, and no two keys come from the same record.
pub open spec fn sourced(
    shards: Seq<StringCache>,
    plan: Seq<Key>,
    origin: Seq<Origin>,
    bin: int,
    arena: int,
) -> bool {
    &&& origin.len() == plan.len()
    &&& forall|x: int|
        0 <= x < plan.len() ==> {
            let o = #[trigger] origin[x];
            &&& 0 <= o.bin < shards.len()
            &&& (o.bin < bin || (o.bin == bin && o.arena < arena))
            &&& 0 <= o.arena < shards[o.bin].records().len()
            &&& 0 <= o.index < shards[o.bin].records()[o.arena].len()
            &&& plan[x] == shards[o.bin].records()[o.arena][o.index].key
        }
    &&& forall|x: int, y: int|
        0 <= x < plan.len() && 0 <= y < plan.len() && x != y ==> #[trigger] origin[x]
            != #[trigger] origin[y]
}

/// Keys that come from different records of shards that share no key are
/// different keys.
pub proof fn lemma_sourced_distinct(shards: Seq<StringCache>, plan: Seq<Key>, origin: Seq<Origin>)
    requires
        all_wf(shards),
        disjoint(shards),
        sourced(shards, plan, origin, shards.len() as int, 0),
    ensures
        plan.no_duplicates(),
{
    assert forall|x: int, y: int| 0 <= x < plan.len() && 0 <= y < plan.len() && x != y implies plan[x]
        != plan[y] by {
        let ox = origin[x];
        let oy = origin[y];
        if plan[x] == plan[y] {
            assert(shards[ox.bin].wf());
            assert(shards[oy.bin].wf());
            shards[ox.bin].lemma_record_key(ox.arena, ox.index);
            shards[oy.bin].lemma_record_key(oy.arena, oy.index);
            assert(shards[ox.bin]@.contains_key(plan[x]));
            assert(shards[oy.bin]@.contains_key(plan[x]));
            shards[ox.bin].lemma_record_unique(ox.arena, ox.index, oy.arena, oy.index);
            assert(ox == oy);
        }
    }
}

/// An iterator over the strings of some shards, as they are while it
/// borrows the shards.
pub struct StringCacheIterator<'a> {
    shards: &'a [StringCache],
    allocs: Vec<Span>,
    current_alloc: usize,
    current_ptr: usize,
    plan: Ghost<Seq<Key>>,
    starts: Ghost<Seq<int>>,
    done: Ghost<int>,
}

impl<'a> View for StringCacheIterator<'a> {
    type V = Seq<Key>;

    /// The keys of the strings that are still to come, in their order.
    closed spec fn view(&self) -> Seq<Key> {
        self.plan@.skip(self.done@)
    }
}

impl<'a> StringCacheIterator<'a> {
    /// The shards that the iterator walks.
    pub closed spec fn spec_shards(&self) -> Seq<StringCache> {
        self.shards@
    }

    /// The iterator stands at a record of its current range, or past the
    /// last record of that range.
    pub closed spec fn position_ok(&self) -> bool {
        let span = self.allocs@[self.current_alloc as int];
        let log = span_records(self.shards@, span);
        let t = self.done@ - self.starts@[self.current_alloc as int];
        &&& self.current_alloc < self.allocs@.len()
        &&& 0 <= t <= log.len()
        &&& if t < log.len() {
            self.current_ptr == log[log.len() - 1 - t].off
        } else {
            self.current_ptr + 17 > span.end
        }
    }

    /// The invariant of an iterator.
    pub closed spec fn wf(&self) -> bool {
        &&& all_wf(self.shards@)
        &&& self.starts@.len() == self.allocs@.len() + 1
        &&& self.starts@[0] == 0
        &&& self.starts@.last() == self.plan@.len()
        &&& forall|r: int|
            0 <= r < self.allocs@.len() ==> span_ok(
                self.shards@,
                #[trigger] self.allocs@[r],
                self.plan@,
                self.starts@[r],
                self.starts@[r + 1],
            )
        &&& 0 <= self.done@ <= self.plan@.len()
        &&& if self.allocs@.len() == 0 {
            self.done@ == 0
        } else {
            self.position_ok()
        }
    }

    /// An iterator over the strings of `shards`. It notes the range of
    /// every retired arena, and that of a current arena unless it is empty.
    pub fn new(shards: &'a [StringCache]) -> (it: StringCacheIterator<'a>)
        requires
            all_wf(shards@),
        ensures
            it.wf(),
            it.spec_shards() == shards@,
            it@ == walk_shards(shards@),
            forall|key: Key| it@.contains(key) <==> held_by(shards@, key),
            disjoint(shards@) ==> it@.no_duplicates(),
    {
        let mut allocs: Vec<Span> = Vec::new();
        let ghost mut plan: Seq<Key> = Seq::empty();
        let ghost mut origin: Seq<Origin> = Seq::empty();
        let ghost mut starts: Seq<int> = Seq::empty().push(0int);
        let count = shards.len();
        let mut b: usize = 0;
        while b < count
            invariant
                all_wf(shards@),
                count == shards@.len(),
                b <= count,
                starts.len() == allocs@.len() + 1,
                starts[0] == 0,
                starts.last() == plan.len(),
                forall|r: int|
                    0 <= r < allocs@.len() ==> span_ok(
                        shards@,
                        #[trigger] allocs@[r],
                        plan,
                        starts[r],
                        starts[r + 1],
                    ),
                covered(shards@, plan, b as int, 0),
                sourced(shards@, plan, origin, b as int, 0),
                forall|x: int| 0 <= x < plan.len() ==> held_by(shards@, #[trigger] plan[x]),
                plan == walk_shards(shards@.take(b as int)),
            decreases count - b,
        {
            let shard = &shards[b];
            proof {
                assert(shards@[b as int].wf());
                shard.lemma_arena();
                lemma_walk_step(shards@, b as int, shard.records(), 0);
            }
            let n = shard.num_arenas();
            let mut k: usize = 0;
            while k < n
                invariant
                    all_wf(shards@),
                    count == shards@.len(),
                    b < count,
                    *shard == shards@[b as int],
                    shard.wf(),
                    n == shard.arenas().len(),
                    n == shard.records().len(),
                    k <= n,
                    starts.len() == allocs@.len() + 1,
                    starts[0] == 0,
                    starts.last() == plan.len(),
                    forall|r: int|
                        0 <= r < allocs@.len() ==> span_ok(
                            shards@,
                            #[trigger] allocs@[r],
                            plan,
                            starts[r],
                            starts[r + 1],
                        ),
                    covered(shards@, plan, b as int, k as int),
                    sourced(shards@, plan, origin, b as int, k as int),
                    forall|x: int| 0 <= x < plan.len() ==> held_by(shards@, #[trigger] plan[x]),
                    plan == walk_shards(shards@.take(b as int)) + walk_arenas(
                        shard.records().take(k as int),
                    ),
                decreases n - k,
            {
                let a = shard.arena(k);
                let ghost log = shard.records()[k as int];
                proof {
                    lemma_walk_step(shards@, b as int, shard.records(), k as int);
                    shard.lemma_arena();
                    a.lemma_bounds();
                    assert(packed(shard.arenas()[k as int], log));
                    if log.len() > 0 {
                        assert(packed_at(*a, log, log.len() - 1));
                    }
                }
                let ptr = a.ptr();
                let end = a.end();
                if k + 1 < n || ptr != end {
                    let span = Span { bin: b, arena: k, ptr, end };
                    let ghost old_plan = plan;
                    let ghost old_starts = starts;
                    let ghost old_allocs = allocs@;
                    let ghost old_origin = origin;
                    allocs.push(span);
                    proof {
                        plan = old_plan + keys_upward(log);
                        starts = old_starts.push(plan.len() as int);
                        origin = old_origin + Seq::new(
                            log.len(),
                            |t: int|
                                Origin { bin: b as int, arena: k as int, index: log.len() - 1 - t },
                        );
                        assert(sourced(shards@, plan, origin, b as int, k + 1)) by {
                            assert forall|x: int| 0 <= x < plan.len() implies ({
                                let o = #[trigger] origin[x];
                                &&& 0 <= o.bin < shards@.len()
                                &&& (o.bin < b || (o.bin == b && o.arena < k + 1))
                                &&& 0 <= o.arena < shards@[o.bin].records().len()
                                &&& 0 <= o.index < shards@[o.bin].records()[o.arena].len()
                                &&& plan[x] == shards@[o.bin].records()[o.arena][o.index].key
                            }) by {
                                if x < old_plan.len() {
                                    assert(origin[x] == old_origin[x]);
                                    assert(plan[x] == old_plan[x]);
                                } else {
                                    let t = x - old_plan.len();
                                    assert(plan[x] == keys_upward(log)[t]);
                                }
                            }
                            assert forall|x: int, y: int|
                                0 <= x < plan.len() && 0 <= y < plan.len() && x
                                    != y implies #[trigger] origin[x] != #[trigger] origin[y] by {
                                if x < old_plan.len() {
                                    assert(origin[x] == old_origin[x]);
                                }
                                if y < old_plan.len() {
                                    assert(origin[y] == old_origin[y]);
                                }
                            }
                        }
                        assert forall|r: int| 0 <= r < allocs@.len() implies span_ok(
                            shards@,
                            #[trigger] allocs@[r],
                            plan,
                            starts[r],
                            starts[r + 1],
                        ) by {
                            if r < old_allocs.len() {
                                assert(span_ok(
                                    shards@,
                                    old_allocs[r],
                                    old_plan,
                                    old_starts[r],
                                    old_starts[r + 1],
                                ));
                                let l = span_records(shards@, old_allocs[r]);
                                assert forall|t: int| 0 <= t < l.len() implies #[trigger] plan[starts[r]
                                    + t] == l[l.len() - 1 - t].key by {
                                    assert(old_plan[old_starts[r] + t] == l[l.len() - 1 - t].key);
                                }
                            } else {
                                assert forall|t: int| 0 <= t < log.len() implies #[trigger] plan[starts[r]
                                    + t] == log[log.len() - 1 - t].key by {
                                    assert(plan[old_plan.len() + t] == keys_upward(log)[t]);
                                }
                            }
                        }
                        assert forall|x: int| 0 <= x < plan.len() implies held_by(
                            shards@,
                            #[trigger] plan[x],
                        ) by {
                            if x >= old_plan.len() {
                                let t = x - old_plan.len();
                                assert(plan[x] == keys_upward(log)[t]);
                                shard.lemma_record_key(k as int, log.len() - 1 - t);
                                assert(shards@[b as int]@.contains_key(plan[x]));
                            } else {
                                assert(plan[x] == old_plan[x]);
                            }
                        }
                        assert forall|bb: int, kk: int, ii: int|
                            0 <= bb < shards@.len() && (bb < b || (bb == b && kk < k + 1)) && 0
                                <= kk < shards@[bb].records().len() && 0 <= ii
                                < shards@[bb].records()[kk].len() implies plan.contains(
                            (#[trigger] shards@[bb].records()[kk][ii]).key,
                        ) by {
                            let key = shards@[bb].records()[kk][ii].key;
                            if bb == b && kk == k {
                                let t = log.len() - 1 - ii;
                                assert(plan[old_plan.len() + t] == keys_upward(log)[t]);
                                assert(plan[old_plan.len() + t] == key);
                            } else {
                                assert(old_plan.contains(key));
                                let x = choose|x: int| 0 <= x < old_plan.len() && old_plan[x] == key;
                                assert(plan[x] == key);
                            }
                        }
                    }
                } else {
                    proof {
                        assert(log.len() == 0);
                        assert(plan + keys_upward(log) =~= plan);
                    }
                }
                proof {
                    assert(sourced(shards@, plan, origin, b as int, k + 1));
                }
                k += 1;
            }
            proof {
                assert(sourced(shards@, plan, origin, b + 1, 0));
                lemma_walk_step(shards@, b as int, shard.records(), 0);
            }
            b += 1;
        }
        let current_ptr = if allocs.len() > 0 {
            allocs[0].ptr
        } else {
            0
        };
        let it = StringCacheIterator {
            shards,
            allocs,
            current_alloc: 0,
            current_ptr,
            plan: Ghost(plan),
            starts: Ghost(starts),
            done: Ghost(0),
        };
        proof {
            assert(it@ =~= plan);
            lemma_walk_step(shards@, 0, Seq::empty(), 0);
            if disjoint(shards@) {
                lemma_sourced_distinct(shards@, plan, origin);
            }
            if it.allocs@.len() > 0 {
                let span = it.allocs@[0];
                assert(span_ok(shards@, it.allocs@[0], plan, starts[0], starts[1]));
                let shard = shards@[span.bin as int];
                let log = span_records(shards@, span);
                assert(shard.wf());
                shard.lemma_arena();
                shard.arenas()[span.arena as int].lemma_bounds();
                assert(packed(shard.arenas()[span.arena as int], log));
            }
            assert forall|key: Key| plan.contains(key) <==> held_by(shards@, key) by {
                if held_by(shards@, key) {
                    let bin = choose|bin: int|
                        0 <= bin < shards@.len() && (#[trigger] shards@[bin])@.contains_key(key);
                    let shard = shards@[bin];
                    shard.lemma_key_record(key);
                    let k = shard@[key].arena as int;
                    let i = choose|i: int|
                        0 <= i < shard.records()[k].len() && (#[trigger] shard.records()[k][i]).key
                            == key;
                    assert(plan.contains(shards@[bin].records()[k][i].key));
                }
                if plan.contains(key) {
                    let x = choose|x: int| 0 <= x < plan.len() && plan[x] == key;
                    assert(held_by(shards@, plan[x]));
                }
            }
        }
        it
    }

    /// The next string, or nothing when every record has been visited.
    pub fn next(&mut self) -> (r: Option<&'a str>)
        requires
            old(self).wf(),
        ensures
            final(self).wf(),
            final(self).spec_shards() == old(self).spec_shards(),
            match r {
                Some(string) => {
                    &&& old(self)@.len() > 0
                    &&& string.spec_bytes() == old(self)@[0].bytes
                    &&& final(self)@ == old(self)@.skip(1)
                },
                None => old(self)@.len() == 0 && final(self)@.len() == 0,
            },
    {
        if self.allocs.len() == 0 {
            return None;
        }
        let shards: &'a [StringCache] = self.shards;
        loop
            invariant
                self.wf(),
                self.allocs@.len() > 0,
                self@ == old(self)@,
                shards@ == self.shards@,
                self.shards@ == old(self).shards@,
            decreases self.allocs@.len() - self.current_alloc,
        {
            let span = self.allocs[self.current_alloc];
            let ghost shard = shards@[span.bin as int];
            let ghost log = span_records(shards@, span);
            let ghost t = self.done@ - self.starts@[self.current_alloc as int];
            let ghost before = *self;
            proof {
                assert(span_ok(
                    shards@,
                    self.allocs@[self.current_alloc as int],
                    self.plan@,
                    self.starts@[self.current_alloc as int],
                    self.starts@[self.current_alloc + 1],
                ));
                assert(shard.wf());
                shard.lemma_arena();
                shard.arenas()[span.arena as int].lemma_bounds();
                assert(packed(shard.arenas()[span.arena as int], log));
                if t < log.len() {
                    assert(packed_at(shard.arenas()[span.arena as int], log, log.len() - 1 - t));
                }
            }
            if span.end < 17 || self.current_ptr > span.end - 17 {
                if self.current_alloc == self.allocs.len() - 1 {
                    return None;
                }
                self.current_alloc += 1;
                self.current_ptr = self.allocs[self.current_alloc].ptr;
                proof {
                    let next = self.allocs@[self.current_alloc as int];
                    let next_shard = shards@[next.bin as int];
                    let next_log = span_records(shards@, next);
                    assert(span_ok(
                        shards@,
                        before.allocs@[self.current_alloc as int],
                        before.plan@,
                        before.starts@[self.current_alloc as int],
                        before.starts@[self.current_alloc + 1],
                    ));
                    assert(next_shard.wf());
                    next_shard.lemma_arena();
                    next_shard.arenas()[next.arena as int].lemma_bounds();
                    assert(packed(next_shard.arenas()[next.arena as int], next_log));
                }
            } else {
                let ghost i = log.len() - 1 - t;
                let ghost key = log[i].key;
                proof {
                    shard.lemma_record_key(span.arena as int, i);
                    lemma_footprint(
                        cursor_before(
                            log,
                            shard.arenas()[span.arena as int].spec_capacity() as int,
                            i,
                        ),
                        key.bytes.len() as int,
                    );
                    if i > 0 {
                        assert(packed_at(shard.arenas()[span.arena as int], log, i - 1));
                        lemma_footprint(
                            cursor_before(
                                log,
                                shard.arenas()[span.arena as int].spec_capacity() as int,
                                i - 1,
                            ),
                            log[i - 1].key.bytes.len() as int,
                        );
                    }
                }
                let arena = shards[span.bin].arena(span.arena);
                let sce = StringCacheEntry::read(arena, self.current_ptr);
                let bytes = arena.read(StringCacheEntry::char_ptr(self.current_ptr), sce.len);
                self.current_ptr = sce.next_entry(self.current_ptr);
                self.done = Ghost(self.done@ + 1);
                proof {
                    assert(self.plan@[before.starts@[before.current_alloc as int] + t] == key);
                    assert(before@[0] == key);
                    assert(self@ =~= before@.skip(1));
                }
                return str_from_utf8(bytes);
            }
        }
    }
}

} // verus!
