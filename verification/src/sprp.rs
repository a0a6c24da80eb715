//! The strong probable-prime test of Miller and Rabin, on 32-bit words with
//! plain modular arithmetic and on 64-bit words in Montgomery form.

use vstd::prelude::*;
use vstd::arithmetic::power::{pow, lemma_pow_mod_noop};
use vstd::arithmetic::power2::{pow2, lemma2_to64, lemma2_to64_rest, lemma_pow2_unfold,
    lemma_pow2_strictly_increases};
use vstd::arithmetic::div_mod::{lemma_mod_twice, lemma_small_mod};
use crate::arith32::{mulmod32, powmod32};
use crate::montgomery::{RADIX, is_word_inverse, inverts_radix, radix_inverse, to_mont,
    to_mont64, mont_pow64, mont_mul64, lemma_radix_inverse, lemma_to_mont_injective,
    lemma_to_mont_minus_one, lemma_from_to_mont, lemma_to_mont_congruent, lemma_mont_product};
use crate::theory::{odd_part, two_adicity, mr_term, strong_probable_prime, lemma_halve_even,
    lemma_mr_term_square, lemma_mr_term_one_stays};

verus! {

/// Tells whether the odd number `n` is a strong probable prime to base `a`.
pub fn sprp32(n: u32, a: u32) -> (r: bool)
    requires
        n >= 3,
        n % 2 == 1,
    ensures
        r == strong_probable_prime(n as int, a as int),
{
    if a % n == 0 {
        return true;
    }
    let mut d: u32 = n - 1;
    let mut s: u32 = 0;
    proof {
        lemma2_to64();
    }
    while d & 1 == 0
        invariant
            d > 0,
            d * pow2(s as nat) == n - 1,
            odd_part(d as nat) == odd_part((n - 1) as nat),
            s + two_adicity(d as nat) == two_adicity((n - 1) as nat),
        decreases d,
    {
        assert(d & 1 == d % 2) by (bit_vector);
        assert(d >> 1 == d / 2) by (bit_vector);
        proof {
            lemma_halve_even(d as nat);
            lemma_pow2_unfold((s + 1) as nat);
            assert((d / 2) * (2 * pow2(s as nat)) == d * pow2(s as nat)) by (nonlinear_arith)
                requires
                    d % 2 == 0,
            ;
            if s >= 31 {
                lemma2_to64();
                if s > 31 {
                    lemma_pow2_strictly_increases(31, s as nat);
                }
                assert(d * pow2(s as nat) >= 2 * pow2(s as nat)) by (nonlinear_arith)
                    requires
                        d >= 2,
                ;
            }
        }
        d >>= 1;
        s += 1;
    }
    assert(d & 1 == d % 2) by (bit_vector);
    let ghost ni: int = n as int;
    let ghost ai: int = a as int;
    let mut x: u32 = powmod32(a, d, n);
    proof {
        assert(d as nat * pow2(0) == d as nat) by (nonlinear_arith)
            requires
                pow2(0) == 1,
        ;
        assert(x == mr_term(ni, ai, 0));
    }
    if x == 1 || x == n - 1 {
        assert(x == n - 1 ==> s > 0) by {
            if s == 0 {
                assert(d == n - 1);
            }
        }
        return true;
    }
    let mut i: u32 = 1;
    while i < s
        invariant
            n >= 3,
            1 <= i,
            s == two_adicity((n - 1) as nat),
            ni == n as int,
            ai == a as int,
            x == mr_term(ni, ai, (i - 1) as nat),
            a % n != 0,
            mr_term(ni, ai, 0) != 1,
            forall|r: nat| r < i ==> #[trigger] mr_term(ni, ai, r) != n - 1,
        decreases s - i,
    {
        proof {
            lemma_mr_term_square(ni, ai, (i - 1) as nat);
        }
        x = mulmod32(x, x, n);
        if x == n - 1 {
            return true;
        }
        if x == 1 {
            proof {
                assert forall|r: nat| r < s implies #[trigger] mr_term(ni, ai, r) != n - 1 by {
                    if r >= i {
                        lemma_mr_term_one_stays(ni, ai, i as nat, r);
                    }
                }
            }
            return false;
        }
        i += 1;
    }
    false
}

/// Tells whether the odd number `n` is a strong probable prime to base `a`,
/// working in Montgomery form throughout. `n_inv` is the inverse of `n`
/// modulo 2^64 and `one` the Montgomery form of 1.
pub fn mont_sprp64(n: u64, a: u64, n_inv: u64, one: u64) -> (r: bool)
    requires
        n >= 3,
        n % 2 == 1,
        is_word_inverse(n as int, n_inv as int),
        one == to_mont(1, n as int),
    ensures
        r == strong_probable_prime(n as int, a as int),
{
    let mut d: u64 = n - 1;
    let mut s: u32 = 0;
    proof {
        lemma2_to64();
    }
    while d & 1 == 0
        invariant
            d > 0,
            d * pow2(s as nat) == n - 1,
            odd_part(d as nat) == odd_part((n - 1) as nat),
            s + two_adicity(d as nat) == two_adicity((n - 1) as nat),
        decreases d,
    {
        assert(d & 1 == d % 2) by (bit_vector);
        assert(d >> 1 == d / 2) by (bit_vector);
        proof {
            lemma_halve_even(d as nat);
            lemma_pow2_unfold((s + 1) as nat);
            assert((d / 2) * (2 * pow2(s as nat)) == d * pow2(s as nat)) by (nonlinear_arith)
                requires
                    d % 2 == 0,
            ;
            if s >= 63 {
                lemma2_to64_rest();
                if s > 63 {
                    lemma_pow2_strictly_increases(63, s as nat);
                }
                assert(d * pow2(s as nat) >= 2 * pow2(s as nat)) by (nonlinear_arith)
                    requires
                        d >= 2,
                ;
            }
        }
        d >>= 1;
        s += 1;
    }
    assert(d & 1 == d % 2) by (bit_vector);
    let ghost ni: int = n as int;
    let ghost ai: int = a as int;
    proof {
        lemma_radix_inverse(ni, n_inv as int);
        assert(to_mont(0, ni) == 0) by {
            assert(0 * RADIX == 0);
            lemma_small_mod(0, n as nat);
        }
        lemma_to_mont_injective(1, 0, ni);
        lemma_to_mont_minus_one(ni);
    }
    let a_mont: u64 = to_mont64(a % n, n);
    proof {
        lemma_to_mont_injective(ai % ni, 0, ni);
    }
    if a_mont == 0 {
        return true;
    }
    let x: u64 = mont_pow64(a_mont, d, n, n_inv, one);
    let neg_one: u64 = if n > one {
        n - one
    } else {
        n.wrapping_sub(one)
    };
    proof {
        assert(d as nat * pow2(0) == d as nat) by (nonlinear_arith)
            requires
                pow2(0) == 1,
        ;
        lemma_from_to_mont(ai % ni, ni);
        lemma_mod_twice(ai, ni);
        lemma_pow_mod_noop(ai, d as nat, ni);
        lemma_mod_twice(pow(ai, d as nat), ni);
        lemma_to_mont_congruent(pow(ai % ni, d as nat), mr_term(ni, ai, 0), ni);
        assert(x == to_mont(mr_term(ni, ai, 0), ni));
        lemma_to_mont_injective(mr_term(ni, ai, 0), 1, ni);
        lemma_to_mont_injective(mr_term(ni, ai, 0), ni - 1, ni);
    }
    if x == one || x == neg_one {
        assert(x == neg_one ==> s > 0) by {
            if s == 0 {
                assert(d == n - 1);
            }
        }
        return true;
    }
    let mut x: u64 = x;
    let mut i: u32 = 1;
    while i < s
        invariant
            n >= 3,
            1 <= i,
            s == two_adicity((n - 1) as nat),
            ni == n as int,
            ai == a as int,
            is_word_inverse(ni, n_inv as int),
            inverts_radix(radix_inverse(ni), ni),
            one == to_mont(1, ni),
            neg_one == to_mont(ni - 1, ni),
            x < n,
            x == to_mont(mr_term(ni, ai, (i - 1) as nat), ni),
            a % n != 0,
            mr_term(ni, ai, 0) != 1,
            forall|r: nat| r < i ==> #[trigger] mr_term(ni, ai, r) != n - 1,
        decreases s - i,
    {
        let ghost t: int = mr_term(ni, ai, (i - 1) as nat);
        let ghost t2: int = mr_term(ni, ai, i as nat);
        proof {
            lemma_mr_term_square(ni, ai, (i - 1) as nat);
            lemma_mont_product(t, t, ni);
            lemma_mod_twice(t * t, ni);
            lemma_to_mont_congruent(t * t, t2, ni);
            lemma_to_mont_injective(t2, 1, ni);
            lemma_to_mont_injective(t2, ni - 1, ni);
            assert(x * x < n * RADIX) by (nonlinear_arith)
                requires
                    0 <= x < n,
                    n < RADIX,
            ;
        }
        x = mont_mul64(x, x, n, n_inv);
        if x == neg_one {
            return true;
        }
        if x == one {
            proof {
                assert forall|r: nat| r < s implies #[trigger] mr_term(ni, ai, r) != n - 1 by {
                    if r >= i {
                        lemma_mr_term_one_stays(ni, ai, i as nat, r);
                    }
                }
            }
            return false;
        }
        i += 1;
    }
    false
}

} // verus!
