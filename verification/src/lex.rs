//! The order of byte strings: byte by byte, and a prefix before what it is
//! a prefix of.

use vstd::prelude::*;

verus! {

/// How one byte string stands to another.
#[derive(Clone, Copy, Debug, PartialEq, Eq, Structural)]
pub enum Rank {
    Before,
    Same,
    After,
}

/// The first `n` bytes of `a` and of `b` are the same.
pub open spec fn common_prefix(a: Seq<u8>, b: Seq<u8>, n: int) -> bool {
    &&& 0 <= n <= a.len()
    &&& n <= b.len()
    &&& forall|j: int| 0 <= j < n ==> a[j] == b[j]
}

/// `a` comes before `b`: at the first place where they differ `a` has the
/// smaller byte, or `a` ends there and `b` does not.
pub open spec fn lex_less(a: Seq<u8>, b: Seq<u8>) -> bool {
    exists|n: int| #[trigger]
        common_prefix(a, b, n) && ((n == a.len() && n < b.len()) || (n < a.len() && n < b.len()
            && a[n] < b[n]))
}

/// How `a` stands to `b`.
pub open spec fn spec_rank(a: Seq<u8>, b: Seq<u8>) -> Rank {
    if lex_less(a, b) {
        Rank::Before
    } else if a == b {
        Rank::Same
    } else {
        Rank::After
    }
}

/// Of two byte strings exactly one holds: the first comes before the
/// second, they are the same, or the second comes before the first.
pub proof fn lemma_rank_total(a: Seq<u8>, b: Seq<u8>)
    ensures
        lex_less(a, b) ==> a != b && !lex_less(b, a),
        !lex_less(a, b) && a != b ==> lex_less(b, a),
{
    if lex_less(a, b) {
        let n = choose|n: int| #[trigger]
            common_prefix(a, b, n) && ((n == a.len() && n < b.len()) || (n < a.len() && n
                < b.len() && a[n] < b[n]));
        if lex_less(b, a) {
            let m = choose|m: int| #[trigger]
                common_prefix(b, a, m) && ((m == b.len() && m < a.len()) || (m < b.len() && m
                    < a.len() && b[m] < a[m]));
            if m < n {
                assert(a[m] == b[m]);
            } else if n < m {
                assert(b[n] == a[n]);
            }
        }
    } else if a != b {
        lemma_first_difference(a, b, 0);
    }
}

/// Two different byte strings with a common prefix of `n` bytes are in
/// order one way or the other.
proof fn lemma_first_difference(a: Seq<u8>, b: Seq<u8>, n: int)
    requires
        common_prefix(a, b, n),
        a != b,
    ensures
        lex_less(a, b) || lex_less(b, a),
    decreases a.len() - n,
{
    if n == a.len() {
        if n == b.len() {
            assert(a =~= b);
        } else {
            assert(common_prefix(a, b, n));
        }
    } else if n == b.len() {
        assert(common_prefix(b, a, n));
    } else if a[n] < b[n] {
        assert(common_prefix(a, b, n));
    } else if b[n] < a[n] {
        assert(common_prefix(b, a, n));
    } else {
        lemma_first_difference(a, b, n + 1);
    }
}

/// How `a` stands to `b` in the order of byte strings.
pub fn rank_bytes(a: &[u8], b: &[u8]) -> (r: Rank)
    ensures
        r == spec_rank(a@, b@),
{
    let mut i: usize = 0;
    while i < a.len() && i < b.len()
        invariant
            common_prefix(a@, b@, i as int),
        decreases a@.len() - i,
    {
        if a[i] < b[i] {
            proof {
                assert(common_prefix(a@, b@, i as int));
            }
            return Rank::Before;
        }
        if a[i] > b[i] {
            proof {
                assert(common_prefix(b@, a@, i as int));
                lemma_rank_total(b@, a@);
            }
            return Rank::After;
        }
        i += 1;
    }
    if i < b.len() {
        proof {
            assert(common_prefix(a@, b@, i as int));
        }
        Rank::Before
    } else if i < a.len() {
        proof {
            assert(common_prefix(b@, a@, i as int));
            lemma_rank_total(b@, a@);
        }
        Rank::After
    } else {
        proof {
            assert(a@ =~= b@);
            lemma_rank_total(a@, b@);
        }
        Rank::Same
    }
}

} // verus!
