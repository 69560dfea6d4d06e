//! Triangular probing on tables whose size is a power of two.
//!
//! The probe sequence of a hash visits the slots `hash + 0`, `hash + 1`,
//! `hash + 3`, `hash + 6`, ... modulo the table size. This module defines the
//! sequence and proves that its first `size` steps visit every slot exactly
//! once.

use vstd::prelude::*;
use vstd::arithmetic::power2::*;
use vstd::arithmetic::div_mod::*;
use vstd::set_lib::*;
use vstd::relations::injective_on;

verus! {

/// The `n`-th triangular number, `0 + 1 + ... + n`.
pub open spec fn triangular(n: nat) -> nat
    decreases n,
{
    if n == 0 {
        0
    } else {
        triangular((n - 1) as nat) + n
    }
}

/// The slot visited at step `step` of the probe sequence of `hash` in a table
/// of `size` slots.
pub open spec fn probe(hash: u64, step: nat, size: nat) -> nat {
    ((hash as int + triangular(step)) % (size as int)) as nat
}

/// Twice the `n`-th triangular number is `n * (n + 1)`.
pub proof fn lemma_triangular_closed(n: nat)
    ensures
        2 * triangular(n) == n * (n + 1),
    decreases n,
{
    if n > 0 {
        let m = (n - 1) as nat;
        lemma_triangular_closed(m);
        assert(triangular(n) == triangular(m) + n);
        assert(2 * (triangular(m) + n) == n * (n + 1)) by (nonlinear_arith)
            requires
                2 * triangular(m) == m * (m + 1),
                m == n - 1,
        ;
    } else {
        assert(0 == n * (n + 1)) by (nonlinear_arith)
            requires
                n == 0,
        ;
    }
}

/// An odd factor carries no power of two: if `2^m` divides `x * y` and `x` is
/// odd, then `2^m` divides `y`.
pub proof fn lemma_odd_factor(x: nat, y: nat, m: nat)
    requires
        x % 2 == 1,
        ((x * y) as int) % (pow2(m) as int) == 0,
    ensures
        y % pow2(m) == 0,
    decreases m,
{
    lemma_pow2_pos(m);
    if m == 0 {
        lemma2_to64();
    } else {
        let h = pow2((m - 1) as nat);
        lemma_pow2_pos((m - 1) as nat);
        lemma_pow2_unfold(m);
        assert(pow2(m) == 2 * h);
        let p = x * y;
        let q = p as int / (2 * h) as int;
        lemma_fundamental_div_mod(p as int, (2 * h) as int);
        assert(p == (2 * h) * q);
        assert((2 * h) * q == 2 * (h * q)) by (nonlinear_arith);
        assert(p % 2 == 0);
        // x odd and x * y even, so y is even
        let xh = x / 2;
        assert(x == 2 * xh + 1);
        assert(x * y == 2 * (xh * y) + y) by (nonlinear_arith)
            requires
                x == 2 * xh + 1,
        ;
        assert(y % 2 == 0);
        let y2 = y / 2;
        assert(y == 2 * y2);
        assert(x * y == 2 * (x * y2)) by (nonlinear_arith)
            requires
                y == 2 * y2,
        ;
        assert(x * y2 == h * q);
        assert((h * q) % (h as int) == 0) by {
            lemma_mod_multiples_basic(q, h as int);
            assert(h * q == q * h) by (nonlinear_arith);
        }
        lemma_odd_factor(x, y2, (m - 1) as nat);
        let r = y2 as int / h as int;
        lemma_fundamental_div_mod(y2 as int, h as int);
        assert(y2 == h * r);
        assert(y == (2 * h) * r) by (nonlinear_arith)
            requires
                y == 2 * y2,
                y2 == h * r,
        ;
        assert(((2 * h) * r) % ((2 * h) as int) == 0) by {
            lemma_mod_multiples_basic(r, (2 * h) as int);
            assert((2 * h) * r == r * (2 * h)) by (nonlinear_arith);
        }
    }
}

/// Two different steps below `2^e` differ by a triangular distance that is not
/// a multiple of `2^e`.
pub proof fn lemma_triangular_distinct(i: nat, j: nat, e: nat)
    requires
        i < j < pow2(e),
    ensures
        (triangular(j) - triangular(i)) % (pow2(e) as int) != 0,
{
    let n = pow2(e);
    let d = triangular(j) - triangular(i);
    lemma_pow2_pos(e);
    lemma_pow2_unfold(e + 1);
    assert(pow2(e + 1) == 2 * n);
    lemma_triangular_closed(i);
    lemma_triangular_closed(j);
    let a = (j - i) as nat;
    let b = (j + i + 1) as nat;
    assert(2 * d == a * b) by (nonlinear_arith)
        requires
            2 * triangular(j) == j * (j + 1),
            2 * triangular(i) == i * (i + 1),
            d == triangular(j) - triangular(i),
            a == j - i,
            b == j + i + 1,
    ;
    if d % (n as int) == 0 {
        let q = d / (n as int);
        lemma_fundamental_div_mod(d, n as int);
        assert(d == n * q);
        assert(a * b == (2 * n) * q) by (nonlinear_arith)
            requires
                2 * d == a * b,
                d == n * q,
        ;
        assert(((2 * n) * q) % ((2 * n) as int) == 0) by {
            lemma_mod_multiples_basic(q, (2 * n) as int);
            assert((2 * n) * q == q * (2 * n)) by (nonlinear_arith);
        }
        assert(((a * b) as int) % (pow2(e + 1) as int) == 0);
        if a % 2 == 1 {
            lemma_odd_factor(a, b, e + 1);
            assert(0 < b < 2 * n);
            lemma_small_mod(b, 2 * n);
        } else {
            assert(b % 2 == 1);
            assert(b * a == a * b) by (nonlinear_arith);
            lemma_odd_factor(b, a, e + 1);
            assert(0 < a < 2 * n);
            lemma_small_mod(a, 2 * n);
        }
    }
}

/// Within the first `2^e` steps, no two steps of a probe sequence visit the
/// same slot.
pub proof fn lemma_probe_injective(hash: u64, i: nat, j: nat, e: nat)
    requires
        i < pow2(e),
        j < pow2(e),
        i != j,
    ensures
        probe(hash, i, pow2(e)) != probe(hash, j, pow2(e)),
{
    let n = pow2(e) as int;
    lemma_pow2_pos(e);
    let x = hash as int + triangular(i);
    let y = hash as int + triangular(j);
    if x % n == y % n {
        lemma_mod_equivalence(x, y, n);
        lemma_mod_equivalence(y, x, n);
        if i < j {
            lemma_triangular_distinct(i, j, e);
            assert(y - x == triangular(j) - triangular(i));
        } else {
            lemma_triangular_distinct(j, i, e);
            assert(x - y == triangular(i) - triangular(j));
        }
    }
}

/// The first `2^e` steps of a probe sequence reach every slot of a table of
/// `2^e` slots.
pub proof fn lemma_probe_surjective(hash: u64, e: nat, slot: nat)
    requires
        slot < pow2(e),
    ensures
        exists|step: nat| step < pow2(e) && probe(hash, step, pow2(e)) == slot,
{
    let n = pow2(e);
    lemma_pow2_pos(e);
    let steps = set_int_range(0, n as int);
    let f = |s: int| probe(hash, s as nat, n) as int;
    let image = steps.map(f);
    lemma_int_range(0, n as int);
    assert(injective_on(f, steps)) by {
        assert forall|s1: int, s2: int|
            steps.contains(s1) && steps.contains(s2) && #[trigger] f(s1) == #[trigger] f(s2)
            implies s1 == s2 by {
            if s1 != s2 {
                lemma_probe_injective(hash, s1 as nat, s2 as nat, e);
            }
        }
    }
    lemma_map_size(steps, image, f);
    assert(image.subset_of(steps)) by {
        assert forall|t: int| image.contains(t) implies steps.contains(t) by {
            let s = choose|s: int| steps.contains(s) && t == f(s);
            lemma_mod_bound(hash as int + triangular(s as nat), n as int);
        }
    }
    lemma_subset_equality(image, steps);
    assert(steps.contains(slot as int));
    assert(image.contains(slot as int));
    let s = choose|s: int| steps.contains(s) && slot as int == f(s);
    assert(probe(hash, s as nat, n) == slot);
    assert((s as nat) < pow2(e));
}

/// Adding `step + 1` to the slot of step `step` and reducing modulo the table
/// size gives the slot of step `step + 1`.
pub proof fn lemma_probe_next(hash: u64, step: nat, size: nat)
    requires
        size > 0,
    ensures
        probe(hash, 0, size) == hash as nat % size,
        probe(hash, step + 1, size) == ((probe(hash, step, size) + step + 1) as int) % (size as int),
        probe(hash, step, size) < size,
{
    let x = hash as int + triangular(step);
    lemma_mod_bound(x, size as int);
    assert(triangular(0) == 0);
    assert(triangular(step + 1) == triangular(step) + step + 1);
    lemma_add_mod_noop(x, (step + 1) as int, size as int);
    lemma_mod_bound((step + 1) as int, size as int);
    // (x % n + (step + 1) % n) % n == (x + step + 1) % n
    lemma_add_mod_noop(x % (size as int), (step + 1) as int, size as int);
    lemma_mod_twice(x, size as int);
}

} // verus!
