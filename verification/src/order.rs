//! The order of handles: that of the strings they denote.

use vstd::prelude::*;
use std::cmp::Ordering;
use crate::cache::Bins;
use crate::lex::{rank_bytes, spec_rank, Rank};
use crate::Ustr;

verus! {

impl Ustr {
    /// How the string of this handle stands to the string of `other`, byte
    /// by byte.
    pub fn cmp(&self, other: &Ustr, cache: &Bins) -> (r: Ordering)
        requires
            cache.wf(),
            cache.holds(*self),
            cache.holds(*other),
        ensures
            r == Ordering::Less <==> spec_rank(
                cache.key_of(*self).bytes,
                cache.key_of(*other).bytes,
            ) == Rank::Before,
            r == Ordering::Equal <==> spec_rank(
                cache.key_of(*self).bytes,
                cache.key_of(*other).bytes,
            ) == Rank::Same,
            r == Ordering::Greater <==> spec_rank(
                cache.key_of(*self).bytes,
                cache.key_of(*other).bytes,
            ) == Rank::After,
    {
        let a = self.as_str(cache);
        let b = other.as_str(cache);
        match rank_bytes(a.as_bytes(), b.as_bytes()) {
            Rank::Before => Ordering::Less,
            Rank::Same => Ordering::Equal,
            Rank::After => Ordering::Greater,
        }
    }

    /// How the string of this handle stands to the string of `other`. The
    /// order is total, so there is always an answer.
    pub fn partial_cmp(&self, other: &Ustr, cache: &Bins) -> (r: Option<Ordering>)
        requires
            cache.wf(),
            cache.holds(*self),
            cache.holds(*other),
        ensures
            r is Some,
            r == Some(Ordering::Less) <==> spec_rank(
                cache.key_of(*self).bytes,
                cache.key_of(*other).bytes,
            ) == Rank::Before,
            r == Some(Ordering::Equal) <==> spec_rank(
                cache.key_of(*self).bytes,
                cache.key_of(*other).bytes,
            ) == Rank::Same,
            r == Some(Ordering::Greater) <==> spec_rank(
                cache.key_of(*self).bytes,
                cache.key_of(*other).bytes,
            ) == Rank::After,
    {
        Some(self.cmp(other, cache))
    }
}

} // verus!
