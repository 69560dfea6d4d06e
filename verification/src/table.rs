//! The slot array of a shard: an open-addressed table of optional record
//! positions, and the facts about it that probing relies on.

use vstd::prelude::*;
use vstd::arithmetic::power2::{lemma_pow2_pos, pow2};
use crate::probe::{lemma_probe_surjective, probe};

verus! {

/// A position in the arena chain of one shard: the arena, counted from the
/// oldest, and a byte offset inside it.
#[derive(Clone, Copy, Debug, PartialEq, Eq, Structural, Hash)]
pub struct Ptr {
    pub arena: usize,
    pub offset: usize,
}

/// Number of slots that hold a position.
pub open spec fn occupied(slots: Seq<Option<Ptr>>) -> nat
    decreases slots.len(),
{
    if slots.len() == 0 {
        0
    } else {
        occupied(slots.drop_last()) + if slots.last() is Some {
            1nat
        } else {
            0nat
        }
    }
}

/// No more slots are occupied than there are slots.
pub proof fn lemma_occupied_bound(slots: Seq<Option<Ptr>>)
    ensures
        occupied(slots) <= slots.len(),
    decreases slots.len(),
{
    if slots.len() > 0 {
        lemma_occupied_bound(slots.drop_last());
    }
}

/// A table without a position in it has no occupied slot.
pub proof fn lemma_occupied_none(slots: Seq<Option<Ptr>>)
    requires
        forall|i: int| 0 <= i < slots.len() ==> slots[i] is None,
    ensures
        occupied(slots) == 0,
    decreases slots.len(),
{
    if slots.len() > 0 {
        lemma_occupied_none(slots.drop_last());
    }
}

/// A table that holds fewer positions than it has slots has an empty slot.
pub proof fn lemma_occupied_vacant(slots: Seq<Option<Ptr>>)
    requires
        occupied(slots) < slots.len(),
    ensures
        exists|i: int| 0 <= i < slots.len() && slots[i] is None,
    decreases slots.len(),
{
    if slots.len() > 0 {
        if slots.last() is None {
            assert(slots[slots.len() - 1] is None);
        } else {
            lemma_occupied_vacant(slots.drop_last());
            let i = choose|i: int| 0 <= i < slots.drop_last().len() && slots.drop_last()[i] is None;
            assert(slots[i] is None);
        }
    }
}

/// Filling an empty slot raises the count by one.
pub proof fn lemma_occupied_fill(slots: Seq<Option<Ptr>>, at: int, p: Ptr)
    requires
        0 <= at < slots.len(),
        slots[at] is None,
    ensures
        occupied(slots.update(at, Some(p))) == occupied(slots) + 1,
    decreases slots.len(),
{
    let filled = slots.update(at, Some(p));
    if at == slots.len() - 1 {
        assert(filled.drop_last() =~= slots.drop_last());
    } else {
        assert(filled.drop_last() =~= slots.drop_last().update(at, Some(p)));
        lemma_occupied_fill(slots.drop_last(), at, p);
    }
}

/// Counting one slot further.
pub proof fn lemma_occupied_take(slots: Seq<Option<Ptr>>, n: int)
    requires
        0 <= n < slots.len(),
    ensures
        occupied(slots.take(n + 1)) == occupied(slots.take(n)) + if slots[n] is Some {
            1nat
        } else {
            0nat
        },
        occupied(slots.take(0)) == 0,
        occupied(slots.take(slots.len() as int)) == occupied(slots),
{
    assert(slots.take(n + 1).drop_last() =~= slots.take(n));
    assert(slots.take(slots.len() as int) =~= slots);
}

/// `ptr` sits in the probe sequence of `hash`, and every slot that the
/// sequence visits before it is occupied.
pub open spec fn placed(slots: Seq<Option<Ptr>>, hash: u64, ptr: Ptr) -> bool {
    exists|step: nat| placed_at(slots, hash, ptr, step)
}

/// `ptr` sits at step `step` of the probe sequence of `hash`, and every slot
/// that the sequence visits before it is occupied.
pub open spec fn placed_at(slots: Seq<Option<Ptr>>, hash: u64, ptr: Ptr, step: nat) -> bool {
    &&& step < slots.len()
    &&& slots[probe(hash, step, slots.len()) as int] == Some(ptr)
    &&& forall|earlier: nat|
        earlier < step ==> (#[trigger] slots[probe(hash, earlier, slots.len()) as int]) is Some
}

/// In a table of `2^e` slots that is not full, every probe sequence reaches an
/// empty slot within `2^e` steps.
pub proof fn lemma_probe_finds_vacancy(slots: Seq<Option<Ptr>>, hash: u64, e: nat)
    requires
        slots.len() == pow2(e),
        occupied(slots) < slots.len(),
    ensures
        exists|step: nat|
            step < slots.len() && (#[trigger] slots[probe(hash, step, slots.len()) as int]) is None,
{
    lemma_occupied_vacant(slots);
    let i = choose|i: int| 0 <= i < slots.len() && slots[i] is None;
    lemma_probe_surjective(hash, e, i as nat);
    let step = choose|step: nat| step < pow2(e) && probe(hash, step, pow2(e)) == i as nat;
    assert(slots[probe(hash, step, slots.len()) as int] is None);
}

/// A placement stays one when empty slots are filled.
pub proof fn lemma_placed_stays(
    slots: Seq<Option<Ptr>>,
    filled: Seq<Option<Ptr>>,
    hash: u64,
    ptr: Ptr,
)
    requires
        placed(slots, hash, ptr),
        filled.len() == slots.len(),
        forall|i: int| 0 <= i < slots.len() && slots[i] is Some ==> filled[i] == slots[i],
    ensures
        placed(filled, hash, ptr),
{
    let step = choose|step: nat| placed_at(slots, hash, ptr, step);
    assert forall|earlier: nat| earlier < step implies (#[trigger] filled[probe(
        hash,
        earlier,
        filled.len(),
    ) as int]) is Some by {
        crate::probe::lemma_probe_next(hash, earlier, slots.len());
        assert(slots[probe(hash, earlier, slots.len()) as int] is Some);
    }
    crate::probe::lemma_probe_next(hash, step, slots.len());
    assert(placed_at(filled, hash, ptr, step));
}

/// A table of `n` empty slots.
pub fn empty_table(n: usize) -> (slots: Vec<Option<Ptr>>)
    ensures
        slots@.len() == n,
        forall|i: int| 0 <= i < n ==> slots@[i] is None,
        occupied(slots@) == 0,
{
    let mut slots: Vec<Option<Ptr>> = Vec::with_capacity(n);
    let mut i: usize = 0;
    while i < n
        invariant
            i <= n,
            slots@.len() == i,
            forall|j: int| 0 <= j < i ==> slots@[j] is None,
        decreases n - i,
    {
        slots.push(None);
        i += 1;
    }
    proof {
        lemma_occupied_none(slots@);
    }
    slots
}

} // verus!
