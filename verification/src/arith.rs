//! General facts about modular arithmetic and powers of two that the
//! Montgomery reducer's proofs lean on.

use vstd::prelude::*;
use vstd::arithmetic::div_mod::{
    lemma_fundamental_div_mod, lemma_mod_bound, lemma_mod_multiples_vanish,
    lemma_mul_mod_noop, lemma_mul_mod_noop_left, lemma_mul_mod_noop_right, lemma_small_mod,
};
use vstd::arithmetic::mul::{
    lemma_mul_is_associative, lemma_mul_is_commutative, lemma_mul_is_distributive_sub,
};
use vstd::arithmetic::power2::{lemma_pow2_strictly_increases, pow2};

verus! {

/// `pow2` is strictly increasing, so it reflects strict order:
/// if `pow2(e) < pow2(f)` then `e < f`.
pub proof fn lemma_pow2_lt_inverse(e: nat, f: nat)
    requires
        pow2(e) < pow2(f),
    ensures
        e < f,
{
    if f < e {
        lemma_pow2_strictly_increases(f, e);
    }
}

/// Multiplying two congruences: if `x1 ≡ y1` and `x2 ≡ y2` (mod `m`),
/// then `x1 * x2 ≡ y1 * y2` (mod `m`).
pub proof fn lemma_mul_mod_congruent(m: int, x1: int, y1: int, x2: int, y2: int)
    requires
        m >= 1,
        x1 % m == y1 % m,
        x2 % m == y2 % m,
    ensures
        (x1 * x2) % m == (y1 * y2) % m,
{
    lemma_mul_mod_noop(x1, x2, m);
    lemma_mul_mod_noop(y1, y2, m);
}

/// A factor with a known inverse cancels: if `c * d ≡ 1 (mod m)` and
/// `x * c ≡ y * c (mod m)`, then `x ≡ y (mod m)`.
pub proof fn lemma_mod_mul_cancel(m: int, x: int, y: int, c: int, d: int)
    requires
        m >= 1,
        (c * d) % m == 1int % m,
        (x * c) % m == (y * c) % m,
    ensures
        x % m == y % m,
{
    if m == 1 {
        lemma_mod_bound(x, m);
        lemma_mod_bound(y, m);
    } else {
        // x ≡ x*(c*d) ≡ (x*c)*d ≡ (y*c)*d ≡ y*(c*d) ≡ y (mod m)
        lemma_small_mod(1nat, m as nat);
        assert(1int % m == 1);
        lemma_mul_mod_noop_right(x, c * d, m);
        assert((x * ((c * d) % m)) % m == x % m);
        lemma_mul_is_associative(x, c, d);
        lemma_mul_mod_noop_left(x * c, d, m);
        lemma_mul_mod_noop_left(y * c, d, m);
        lemma_mul_is_associative(y, c, d);
        lemma_mul_mod_noop_right(y, c * d, m);
        assert((y * ((c * d) % m)) % m == y % m);
    }
}

/// From the Montgomery inverse property `n * np ≡ r - 1 (mod r)` it follows
/// that `r` divides `n * np + 1` exactly, and that the quotient `s` is an
/// inverse of `r` modulo `n`: `r * s ≡ 1 (mod n)`.
pub proof fn lemma_radix_inverse_witness(n: int, np: int, r: int)
    requires
        n >= 1,
        r >= 1,
        (n * np) % r == r - 1,
    ensures
        r * ((n * np + 1) / r) == n * np + 1,
        (r * ((n * np + 1) / r)) % n == 1int % n,
{
    let p = n * np;
    lemma_fundamental_div_mod(p, r);
    assert(p == r * (p / r) + (r - 1));
    let s = (p + 1) / r;
    assert(p + 1 == r * (p / r) + r);
    assert(r * (p / r) + r == r * (p / r + 1)) by (nonlinear_arith);
    lemma_fundamental_div_mod_converse_div_wrap(p + 1, r, p / r + 1);
    assert(s == p / r + 1);
    assert(r * s == p + 1);
    lemma_mod_multiples_vanish(np, 1, n);
    assert((n * np + 1) % n == 1int % n);
}

/// `x == d * q` exactly implies `x / d == q` (for positive `d`).
proof fn lemma_fundamental_div_mod_converse_div_wrap(x: int, d: int, q: int)
    requires
        d >= 1,
        x == d * q,
    ensures
        x / d == q,
{
    lemma_mul_is_commutative(d, q);
    vstd::arithmetic::div_mod::lemma_fundamental_div_mod_converse(x, d, q, 0);
}

/// An inverse of `n` modulo `r` read off the Montgomery constant:
/// `n * (r - np) ≡ 1 (mod r)` whenever `n * np ≡ r - 1 (mod r)`.
pub proof fn lemma_modulus_inverse_witness(n: int, np: int, r: int)
    requires
        n >= 1,
        r >= 1,
        (n * np) % r == r - 1,
    ensures
        (n * (r - np)) % r == 1int % r,
{
    let p = n * np;
    lemma_fundamental_div_mod(p, r);
    let q = p / r;
    assert(p == r * q + (r - 1));
    lemma_mul_is_distributive_sub(n, r, np);
    assert(n * (r - np) == n * r - n * np);
    assert(n * r - (r * q + (r - 1)) == r * (n - q - 1) + 1) by (nonlinear_arith);
    lemma_mod_multiples_vanish(n - q - 1, 1, r);
    assert((r * (n - q - 1) + 1) % r == 1int % r);
}

} // verus!
