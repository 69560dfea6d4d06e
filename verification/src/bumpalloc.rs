//! A bump arena: one region of fixed capacity whose cursor moves downward
//! from the end of the region. Nothing is ever handed back.
//!
//! Positions in the region are byte offsets from its start. The bytes in
//! `[ptr, capacity)` have been handed out, the bytes in `[0, ptr)` are free.

use vstd::prelude::*;
use vstd::arithmetic::power2::is_pow2;
use vstd::bytes::*;
use vstd::slice::slice_subrange;
use crate::align::{lemma_clear_is_round_down, round_down_to, spec_round_down};

verus! {

/// The region `mem` after `bytes` have been written at offset `at`.
pub open spec fn spec_write(mem: Seq<u8>, at: int, bytes: Seq<u8>) -> Seq<u8> {
    Seq::new(
        mem.len(),
        |i: int|
            if at <= i < at + bytes.len() {
                bytes[i - at]
            } else {
                mem[i]
            },
    )
}

/// A region of bytes and the cursor below which it is free.
pub struct LeakyBumpAlloc {
    mem: Vec<u8>,
    align: usize,
    ptr: usize,
}

impl View for LeakyBumpAlloc {
    type V = Seq<u8>;

    /// The bytes of the whole region.
    closed spec fn view(&self) -> Seq<u8> {
        self.mem@
    }
}

impl LeakyBumpAlloc {
    /// The cursor lies inside the region and the alignment is a power of two.
    pub closed spec fn wf(&self) -> bool {
        &&& self.ptr <= self.mem@.len()
        &&& self.mem@.len() + self.align - 1 <= isize::MAX
        &&& is_pow2(self.align as int)
    }

    /// Size of the region in bytes.
    pub closed spec fn spec_capacity(&self) -> nat {
        self.mem@.len()
    }

    /// Offset of the cursor.
    pub closed spec fn spec_ptr(&self) -> nat {
        self.ptr as nat
    }

    /// Alignment of every offset that `allocate` returns.
    pub closed spec fn spec_align(&self) -> nat {
        self.align as nat
    }

    /// Number of bytes between the cursor and the end of the region.
    pub open spec fn spec_allocated(&self) -> int {
        self.spec_capacity() - self.spec_ptr()
    }

    /// The view is the whole region, and a well-formed arena has its cursor
    /// inside a region whose size fits the machine word.
    pub proof fn lemma_bounds(&self)
        ensures
            self@.len() == self.spec_capacity(),
            self.wf() ==> self.spec_ptr() <= self.spec_capacity() <= usize::MAX,
            self.wf() ==> self.spec_capacity() + self.spec_align() - 1 <= isize::MAX,
            self.wf() ==> self.spec_align() >= 1,
    {
        if self.wf() {
            lemma_clear_is_round_down(0, self.align);
        }
    }

    /// A fresh region of `capacity` bytes with the cursor at its end.
    pub fn new(capacity: usize, alignment: usize) -> (a: LeakyBumpAlloc)
        requires
            is_pow2(alignment as int),
            capacity + alignment - 1 <= isize::MAX,
        ensures
            a.wf(),
            a.spec_capacity() == capacity,
            a.spec_ptr() == capacity,
            a.spec_align() == alignment,
    {
        let mem = vec![0u8; capacity];
        LeakyBumpAlloc { mem, align: alignment, ptr: capacity }
    }

    /// Gives the region up. The arena is left with no capacity.
    pub fn clear(&mut self)
        requires
            old(self).wf(),
        ensures
            final(self).wf(),
            final(self).spec_capacity() == 0,
            final(self).spec_ptr() == 0,
            final(self).spec_align() == old(self).spec_align(),
    {
        self.mem = Vec::new();
        self.ptr = 0;
    }

    /// Moves the cursor down by `num_bytes` and then to the next lower
    /// multiple of the alignment, and returns its new offset.
    pub fn allocate(&mut self, num_bytes: usize) -> (p: usize)
        requires
            old(self).wf(),
            num_bytes <= old(self).spec_ptr(),
        ensures
            final(self).wf(),
            p == spec_round_down(old(self).spec_ptr() - num_bytes, old(self).spec_align() as int),
            final(self).spec_ptr() == p,
            p + num_bytes <= old(self).spec_ptr(),
            final(self).spec_capacity() == old(self).spec_capacity(),
            final(self).spec_align() == old(self).spec_align(),
            final(self)@ == old(self)@,
    {
        let new_ptr = self.ptr - num_bytes;
        let new_ptr = round_down_to(new_ptr, self.align);
        proof {
            lemma_clear_is_round_down(new_ptr, self.align);
            vstd::arithmetic::div_mod::lemma_mod_bound(
                (old(self).ptr - num_bytes) as int,
                self.align as int,
            );
        }
        self.ptr = new_ptr;
        self.ptr
    }

    /// Number of bytes handed out, padding included.
    pub fn allocated(&self) -> (n: usize)
        requires
            self.wf(),
        ensures
            n == self.spec_allocated(),
    {
        self.mem.len() - self.ptr
    }

    /// Size of the region in bytes.
    pub fn capacity(&self) -> (n: usize)
        requires
            self.wf(),
        ensures
            n == self.spec_capacity(),
    {
        self.mem.len()
    }

    /// Offset one past the last byte of the region.
    pub fn end(&self) -> (n: usize)
        requires
            self.wf(),
        ensures
            n == self.spec_capacity(),
    {
        self.mem.len()
    }

    /// Offset of the cursor: the lowest byte handed out.
    pub fn ptr(&self) -> (n: usize)
        ensures
            n == self.spec_ptr(),
    {
        self.ptr
    }

    /// Copies `bytes` into the handed-out part of the region at offset `at`.
    pub fn write(&mut self, at: usize, bytes: &[u8])
        requires
            old(self).wf(),
            old(self).spec_ptr() <= at,
            at + bytes@.len() <= old(self).spec_capacity(),
        ensures
            final(self).wf(),
            final(self).spec_ptr() == old(self).spec_ptr(),
            final(self).spec_capacity() == old(self).spec_capacity(),
            final(self).spec_align() == old(self).spec_align(),
            final(self)@ == spec_write(old(self)@, at as int, bytes@),
    {
        let n = bytes.len();
        let mut i: usize = 0;
        while i < n
            invariant
                i <= n,
                n == bytes@.len(),
                at + n <= self.mem@.len() <= usize::MAX,
                self.mem@.len() == old(self).mem@.len(),
                self.ptr == old(self).ptr,
                self.align == old(self).align,
                forall|j: int|
                    0 <= j < self.mem@.len() ==> #[trigger] self.mem@[j] == if at <= j < at + i {
                        bytes@[j - at]
                    } else {
                        old(self).mem@[j]
                    },
            decreases n - i,
        {
            self.mem[at + i] = bytes[i];
            i += 1;
        }
        assert(self.mem@ =~= spec_write(old(self).mem@, at as int, bytes@));
    }

    /// Writes `value` in little-endian order into the eight bytes at `at`.
    pub fn write_u64(&mut self, at: usize, value: u64)
        requires
            old(self).wf(),
            old(self).spec_ptr() <= at,
            at + 8 <= old(self).spec_capacity(),
        ensures
            final(self).wf(),
            final(self).spec_ptr() == old(self).spec_ptr(),
            final(self).spec_capacity() == old(self).spec_capacity(),
            final(self).spec_align() == old(self).spec_align(),
            final(self)@ == spec_write(old(self)@, at as int, spec_u64_to_le_bytes(value)),
    {
        let b = u64_to_le_bytes(value);
        proof {
            lemma_auto_spec_u64_to_from_le_bytes();
        }
        self.write(at, b.as_slice());
    }

    /// The eight bytes at `at`, read as a little-endian number.
    pub fn read_u64(&self, at: usize) -> (value: u64)
        requires
            self.wf(),
            at + 8 <= self.spec_capacity(),
        ensures
            value == spec_u64_from_le_bytes(self@.subrange(at as int, at + 8)),
    {
        u64_from_le_bytes(slice_subrange(self.mem.as_slice(), at, at + 8))
    }

    /// The `len` bytes that start at `at`.
    pub fn read(&self, at: usize, len: usize) -> (bytes: &[u8])
        requires
            self.wf(),
            at + len <= self.spec_capacity(),
        ensures
            bytes@ == self@.subrange(at as int, at + len),
    {
        slice_subrange(self.mem.as_slice(), at, at + len)
    }
}

} // verus!
