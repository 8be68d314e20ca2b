//! The Montgomery reducer: constants derived once from an odd modulus, and
//! the division-free modular multiplication built on them.

use vstd::prelude::*;
use vstd::arithmetic::div_mod::{
    lemma_add_mod_noop, lemma_fundamental_div_mod, lemma_mod_bound, lemma_mod_multiples_basic,
    lemma_mod_multiples_vanish, lemma_mul_mod_noop, lemma_mul_mod_noop_left,
    lemma_mul_mod_noop_right, lemma_small_mod,
};
use vstd::arithmetic::mul::{
    lemma_mul_inequality, lemma_mul_is_commutative, lemma_mul_is_distributive_sub_other_way,
    lemma_mul_strict_inequality, lemma_mul_upper_bound,
};
use vstd::arithmetic::power2::{lemma2_to64, lemma2_to64_rest, lemma_pow2_pos, lemma_pow2_unfold, pow2};
use vstd::bits::{lemma_u64_low_bits_mask_is_mod, lemma_u64_shr_is_div};

use crate::arith::lemma_pow2_lt_inverse;

verus! {

/// Largest modulus for which every intermediate product of
/// [`MontgomeryReducer::mod_mul`] provably fits in a `u64`.
///
/// The widest intermediate is `a * n_prime` inside the reduction, bounded by
/// `n^2 * r <= 2 * n^3`; with `n <= 2^21 - 1` that stays below `2^64`.
pub const MAX_MODULUS: u64 = 0x1F_FFFF;

/// Constants for Montgomery multiplication modulo a fixed odd `n`.
///
/// `r = 2^r_x` is the smallest power of two above `n`, and `n_prime` is the
/// negated inverse of `n` modulo `r`: `n * n_prime ≡ -1 (mod r)`. The value
/// is immutable once constructed and every operation on it is pure.
#[derive(Clone, Copy, Debug, PartialEq, Eq, Structural)]
pub struct MontgomeryReducer {
    /// The modulus; odd and positive.
    pub n: u64,
    /// The negated inverse of `n` modulo `r`.
    pub n_prime: u64,
    /// The radix: the smallest power of two strictly greater than `n`.
    pub r: u64,
    /// The exponent with `r = 2^r_x`.
    pub r_x: u64,
}

impl MontgomeryReducer {
    /// The invariant that construction establishes and every operation relies
    /// on: the radix is the tightest power of two above the odd modulus, and
    /// `n * n_prime` leaves remainder `r - 1` modulo `r`.
    pub open spec fn wf(self) -> bool {
        &&& 1 <= self.n
        &&& self.n % 2 == 1
        &&& self.r == pow2(self.r_x as nat)
        &&& self.n < self.r
        &&& self.r <= 2 * self.n
        &&& self.n_prime < self.r
        &&& (self.n * self.n_prime) % (self.r as int) == self.r - 1
    }

    /// Builds a reducer for the odd modulus `n`, deriving the radix, its
    /// exponent and the negated modular inverse once; every later multiply
    /// reuses them.
    pub fn new(n: u64) -> (res: Self)
        requires
            1 <= n < 0x8000_0000_0000_0000,
            n % 2 == 1,
        ensures
            res.wf(),
            res.n == n,
    {
        let (r, r_x) = Self::search_r(n);
        proof {
            assert(r == pow2(r_x as nat));
        }
        let n_prime = Self::search_n_prime(r, n);
        Self { n, n_prime, r, r_x }
    }

    /// Finds the radix: the smallest power of two `r` with `n < r`, returned
    /// together with its exponent.
    fn search_r(n: u64) -> (res: (u64, u64))
        requires
            1 <= n < 0x8000_0000_0000_0000,
        ensures
            res.0 == pow2(res.1 as nat),
            n < res.0,
            res.0 <= 2 * n,
    {
        let mut r: u64 = 1;
        let mut x: u64 = 0;
        proof {
            lemma2_to64();
        }
        while r <= n
            invariant
                1 <= n < 0x8000_0000_0000_0000,
                1 <= r,
                r == pow2(x as nat),
                x < 64,
                x == 0 ==> r == 1,
                x >= 1 ==> pow2((x - 1) as nat) <= n,
            decreases 2 * n - r,
        {
            proof {
                // r <= n < 2^63 = pow2(63), so the exponent stays below 63
                // and the doubled radix still fits.
                lemma2_to64_rest();
                lemma_pow2_lt_inverse(x as nat, 63);
                lemma_pow2_unfold((x + 1) as nat);
            }
            r *= 2;
            x += 1;
        }
        proof {
            if x == 0 {
                assert(r == 1);
            } else {
                lemma_pow2_unfold(x as nat);
                assert(r == 2 * pow2((x - 1) as nat));
            }
        }
        (r, x)
    }

    /// Finds `n_prime` with `n * n_prime ≡ -1 (mod r)` for an odd `n` and a
    /// power-of-two radix `r`, building the result bit by bit from the least
    /// significant end.
    fn search_n_prime(r: u64, n: u64) -> (res: u64)
        requires
            1 <= n < 0x8000_0000_0000_0000,
            n % 2 == 1,
            exists|e: nat| r == pow2(e),
        ensures
            res < r,
            (n * res) % (r as int) == r - 1,
    {
        let ghost mut e: nat = choose|e: nat| r == pow2(e);
        let mut rc: u64 = r;
        let mut n_prime: u64 = 0;
        // The running remainder: the bits of n * n_prime already fixed,
        // shifted so that the bit under consideration is the lowest one.
        let mut tmp: u64 = 0;
        // The weight of the bit of n_prime under consideration.
        let mut i: u64 = 1;
        proof {
            lemma_pow2_pos(e);
        }
        while rc > 1
            invariant
                1 <= n < 0x8000_0000_0000_0000,
                n % 2 == 1,
                rc == pow2(e),
                i * rc == r,
                1 <= i,
                n_prime < i,
                tmp <= n,
                n * n_prime == tmp * i + (i - 1),
            decreases rc,
        {
            if tmp % 2 == 0 {
                proof {
                    // i fits: i * rc == r with rc >= 2 keeps 2 * i <= r.
                    assert(2 * i <= i * rc) by (nonlinear_arith)
                        requires
                            1 <= i,
                            2 <= rc,
                    ;
                    assert(n * (n_prime + i) == (tmp + n) * i + (i - 1)) by (nonlinear_arith)
                        requires
                            n * n_prime == tmp * i + (i - 1),
                    ;
                }
                tmp += n;
                n_prime += i;
            }
            proof {
                // After the branch the low bit of the remainder is set, so
                // halving it is exact once the odd bit is accounted for.
                assert(tmp % 2 == 1);
                assert(tmp == 2 * (tmp / 2) + 1);
                assert(n * n_prime == (tmp / 2) * (2 * i) + (2 * i - 1)) by (nonlinear_arith)
                    requires
                        n * n_prime == tmp * i + (i - 1),
                        tmp == 2 * (tmp / 2) + 1,
                ;
                // The radix counter is an even power of two until it hits 1.
                lemma2_to64();
                assert(e > 0);
                lemma_pow2_unfold(e);
                assert(rc / 2 == pow2((e - 1) as nat));
                assert(2 * i <= i * rc) by (nonlinear_arith)
                    requires
                        1 <= i,
                        2 <= rc,
                ;
                assert((2 * i) * (rc / 2) == i * rc) by (nonlinear_arith)
                    requires
                        rc == 2 * (rc / 2),
                ;
                e = (e - 1) as nat;
            }
            tmp /= 2;
            rc /= 2;
            i *= 2;
        }
        proof {
            lemma_pow2_pos(e);
            assert(rc == 1);
            assert(i == r) by (nonlinear_arith)
                requires
                    i * rc == r,
                    rc == 1,
            ;
            assert(n * n_prime == tmp * r + (r - 1));
            vstd::arithmetic::mul::lemma_mul_is_commutative(tmp as int, r as int);
            vstd::arithmetic::div_mod::lemma_mod_multiples_vanish(tmp as int, r - 1, r as int);
            vstd::arithmetic::div_mod::lemma_small_mod((r - 1) as nat, r as nat);
        }
        n_prime
    }

    /// Montgomery reduction: for `a` below `n * n`, returns the unique
    /// `t < n` with `t * r ≡ a (mod n)` — the value `a / r` carried back into
    /// the range `[0, n)`. Reduction modulo `r` is a bit-mask and division by
    /// `r` a right-shift; a single conditional subtraction caps the result.
    ///
    /// The modulus cap keeps the widest intermediate, `a * n_prime`, inside
    /// a `u64`: it is below `n^2 * r <= 2 * n^3`.
    pub fn montgomery_reduction(&self, a: u64) -> (t: u64)
        requires
            self.wf(),
            self.n <= MAX_MODULUS,
            a < self.n * self.n,
        ensures
            t < self.n,
            (t * self.r) % (self.n as int) == (a as int) % (self.n as int),
    {
        let ghost ni = self.n as int;
        let ghost ri = self.r as int;
        let ghost npi = self.n_prime as int;
        let ghost ai = a as int;
        proof {
            // n*n <= (2^21 - 1)^2 and n_prime <= 2n - 1, so a * n_prime fits.
            lemma_mul_upper_bound(ni, 0x1F_FFFF, ni, 0x1F_FFFF);
            lemma_mul_upper_bound(ai, 0x3FF_FFC0_0000, npi, 0x3F_FFFD);
        }
        let mut t: u64 = a * self.n_prime;
        proof {
            // r - 1 is the mask of the low r_x bits, so the AND below leaves
            // exactly (a * n_prime) % r.
            lemma2_to64();
            lemma2_to64_rest();
            lemma_pow2_lt_inverse(self.r_x as nat, 64);
            lemma_u64_low_bits_mask_is_mod(t, self.r_x as nat);
            lemma_mod_bound(ai * npi, ri);
        }
        t &= self.r - 1;
        let ghost m = t as int;
        proof {
            assert(m == (ai * npi) % ri);
            lemma_mul_upper_bound(m, 0x3F_FFFD, ni, 0x1F_FFFF);
        }
        t *= self.n;
        t += a;
        let ghost u = t as int;
        proof {
            // (m * n) % r == (a * (r - 1)) % r, because n * n_prime ≡ r - 1:
            lemma_mul_mod_noop_left(ai * npi, ni, ri);
            assert((ai * npi) * ni == ai * (ni * npi)) by (nonlinear_arith);
            lemma_mul_mod_noop_right(ai, ni * npi, ri);
            assert((m * ni) % ri == (ai * (ri - 1)) % ri);
            // ... so u = a + m * n ≡ a + a * (r - 1) = a * r ≡ 0 (mod r).
            lemma_add_mod_noop(ai, m * ni, ri);
            lemma_add_mod_noop(ai, ai * (ri - 1), ri);
            assert(ai + ai * (ri - 1) == ai * ri) by (nonlinear_arith);
            lemma_mod_multiples_basic(ai, ri);
            assert(u % ri == 0);
            lemma_u64_shr_is_div(t, self.r_x);
        }
        t >>= self.r_x;
        let ghost q = t as int;
        proof {
            // u == r * q exactly, and u < 2 * n * r bounds q below 2 * n.
            lemma_fundamental_div_mod(u, ri);
            assert(u == ri * q);
            assert(m * ni < ri * ni) by (nonlinear_arith)
                requires
                    m < ri,
                    0 < ni,
                    0 <= m,
            ;
            lemma_mul_strict_inequality(ni, ri, ni);
            assert(u < ni * ri + ri * ni);
            if q >= 2 * ni {
                lemma_mul_inequality(2 * ni, q, ri);
                assert((2 * ni) * ri == ni * ri + ri * ni) by (nonlinear_arith);
                lemma_mul_is_commutative(q, ri);
                assert(false);
            }
            // q * r == u ≡ a (mod n), since m * n vanishes modulo n.
            lemma_mul_is_commutative(m, ni);
            lemma_mod_multiples_vanish(m, ai, ni);
            assert((q * ri) % ni == ai % ni) by {
                lemma_mul_is_commutative(q, ri);
            }
        }
        if t >= self.n {
            proof {
                // Subtracting n shifts q * r by n * r, a multiple of n.
                lemma_mul_is_distributive_sub_other_way(ri, q, ni);
                assert((q - ni) * ri == q * ri - ni * ri);
                lemma_mul_is_commutative(ni, ri);
                lemma_mod_multiples_vanish(-ri, q * ri, ni);
                assert((ni * -ri + q * ri) % ni == (q * ri) % ni);
                assert(ni * -ri + q * ri == q * ri - ni * ri) by (nonlinear_arith);
            }
            t -= self.n;
        }
        t
    }

    /// Modular multiplication through the Montgomery domain: for operands
    /// below the modulus, returns exactly `(a * b) % n`.
    ///
    /// Each operand is carried into the Montgomery domain with one reduction
    /// against `r^2 mod n`, the domain values are multiplied and reduced,
    /// and one final reduction carries the product back; converting each
    /// operand separately keeps every intermediate product below `n * n`.
    pub fn mod_mul(&self, a: u64, b: u64) -> (res: u64)
        requires
            self.wf(),
            self.n <= MAX_MODULUS,
            a < self.n,
            b < self.n,
        ensures
            res == (a as int * b as int) % (self.n as int),
    {
        let ghost ni = self.n as int;
        let ghost ri = self.r as int;
        let ghost npi = self.n_prime as int;
        let ghost ai = a as int;
        let ghost bi = b as int;
        // s is an inverse of r modulo n, read off the Montgomery constant;
        // multiplying a congruence by s cancels one factor of r.
        let ghost s = (ni * npi + 1) / ri;
        proof {
            crate::arith::lemma_radix_inverse_witness(ni, npi, ri);
            lemma_mul_upper_bound(ni, 0x1F_FFFF, ni, 0x1F_FFFF);
            lemma_mod_bound(ri, ni);
            lemma_mul_upper_bound(ri % ni, 0x1F_FFFE, ri % ni, 0x1F_FFFE);
        }
        // The conversion constant r^2 mod n.
        let r_2: u64 = (self.r % self.n) * (self.r % self.n) % self.n;
        proof {
            lemma_mul_mod_noop(ri, ri, ni);
            assert(r_2 == (ri * ri) % ni);
            lemma_mod_bound(ri * ri, ni);
            assert(ai * (r_2 as int) < ni * ni) by (nonlinear_arith)
                requires
                    0 <= ai < ni,
                    0 <= r_2 < ni,
            ;
        }
        let aa = self.montgomery_reduction(a * r_2);
        proof {
            assert(bi * (r_2 as int) < ni * ni) by (nonlinear_arith)
                requires
                    0 <= bi < ni,
                    0 <= r_2 < ni,
            ;
        }
        let bb = self.montgomery_reduction(b * r_2);
        let ghost aai = aa as int;
        let ghost bbi = bb as int;
        proof {
            // aa ≡ a * r and bb ≡ b * r (mod n): cancel one r from
            // aa * r ≡ a * r^2.
            lemma_mul_mod_noop_right(ai, ri * ri, ni);
            assert(ai * (ri * ri) == (ai * ri) * ri) by (nonlinear_arith);
            crate::arith::lemma_mod_mul_cancel(ni, aai, ai * ri, ri, s);
            lemma_mul_mod_noop_right(bi, ri * ri, ni);
            assert(bi * (ri * ri) == (bi * ri) * ri) by (nonlinear_arith);
            crate::arith::lemma_mod_mul_cancel(ni, bbi, bi * ri, ri, s);
            assert(aai * bbi < ni * ni) by (nonlinear_arith)
                requires
                    0 <= aai < ni,
                    0 <= bbi < ni,
            ;
        }
        let ab = self.montgomery_reduction(aa * bb);
        let ghost abi = ab as int;
        proof {
            // ab ≡ a * b * r (mod n): the product of the domain values is
            // (a*r)*(b*r), and one reduction strips one factor of r.
            crate::arith::lemma_mul_mod_congruent(ni, aai, ai * ri, bbi, bi * ri);
            assert((ai * ri) * (bi * ri) == ((ai * bi) * ri) * ri) by (nonlinear_arith);
            crate::arith::lemma_mod_mul_cancel(ni, abi, (ai * bi) * ri, ri, s);
            assert(ni <= ni * ni) by (nonlinear_arith)
                requires
                    1 <= ni,
            ;
        }
        let ans = self.montgomery_reduction(ab);
        proof {
            // The last reduction strips the remaining factor of r.
            lemma_small_mod(ab as nat, self.n as nat);
            crate::arith::lemma_mod_mul_cancel(ni, ans as int, ai * bi, ri, s);
            lemma_small_mod(ans as nat, self.n as nat);
        }
        ans
    }
}

/// Construction is deterministic: the well-formedness invariant pins every
/// derived constant, so two well-formed reducers over the same modulus hold
/// identical constants `(r, r_x, n_prime)` — and, by the contract of
/// [`MontgomeryReducer::mod_mul`], they return identical results for the
/// same operands.
pub proof fn lemma_construction_deterministic(r1: MontgomeryReducer, r2: MontgomeryReducer)
    requires
        r1.wf(),
        r2.wf(),
        r1.n == r2.n,
    ensures
        r1 == r2,
{
    let n = r1.n as int;
    // The radix exponent is unique: two powers of two strictly above n and
    // at most 2n coincide.
    lemma_radix_exponent_unique(r1.n, r1.r_x, r2.r_x);
    assert(r1.r_x == r2.r_x);
    assert(r1.r == r2.r);
    let ri = r1.r as int;
    let np1 = r1.n_prime as int;
    let np2 = r2.n_prime as int;
    // n_prime is unique below r: n is invertible modulo r, so it cancels
    // from n * np1 ≡ n * np2 ≡ r - 1 (mod r).
    crate::arith::lemma_modulus_inverse_witness(n, np1, ri);
    lemma_mul_is_commutative(n, np1);
    lemma_mul_is_commutative(n, np2);
    crate::arith::lemma_mod_mul_cancel(ri, np1, np2, n, ri - np1);
    lemma_small_mod(r1.n_prime as nat, r1.r as nat);
    lemma_small_mod(r2.n_prime as nat, r2.r as nat);
    assert(r1.n_prime == r2.n_prime);
}

/// Uniqueness of the radix exponent: if both `pow2(x1)` and `pow2(x2)` lie
/// strictly above `n` and at most at `2 * n`, then `x1 == x2`.
proof fn lemma_radix_exponent_unique(n: u64, x1: u64, x2: u64)
    requires
        1 <= n,
        n < pow2(x1 as nat) <= 2 * n,
        n < pow2(x2 as nat) <= 2 * n,
    ensures
        x1 == x2,
{
    if x1 < x2 {
        lemma_pow2_unfold((x1 + 1) as nat);
        if x1 + 1 < x2 {
            vstd::arithmetic::power2::lemma_pow2_strictly_increases((x1 + 1) as nat, x2 as nat);
        }
        assert(2 * n < 2 * pow2(x1 as nat));
        assert(false);
    }
    if x2 < x1 {
        lemma_pow2_unfold((x2 + 1) as nat);
        if x2 + 1 < x1 {
            vstd::arithmetic::power2::lemma_pow2_strictly_increases((x2 + 1) as nat, x1 as nat);
        }
        assert(2 * n < 2 * pow2(x2 as nat));
        assert(false);
    }
}

} // verus!
