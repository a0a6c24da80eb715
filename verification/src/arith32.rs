//! Modular multiplication and exponentiation on 32-bit words.

use vstd::prelude::*;
use vstd::arithmetic::power::{pow, lemma_pow0, lemma_pow_mod_noop};
use vstd::arithmetic::div_mod::{lemma_small_mod, lemma_mod_twice};
use crate::theory::lemma_modexp_step;

verus! {

/// Returns `a * b` reduced modulo `m`, computed through a 64-bit product.
pub fn mulmod32(a: u32, b: u32, m: u32) -> (r: u32)
    requires
        m > 0,
    ensures
        r == (a as int * b as int) % (m as int),
{
    assert(a as int * b as int <= 0xffff_ffff * 0xffff_ffff) by (nonlinear_arith)
        requires
            0 <= a <= 0xffff_ffff,
            0 <= b <= 0xffff_ffff,
    ;
    ((a as u64 * b as u64) % m as u64) as u32
}

/// Returns `a` to the power `b` reduced modulo `m`, by squaring and
/// multiplying over the bits of `b` from the lowest up. The empty product,
/// for `b == 0`, is 1 whatever the modulus.
pub fn powmod32(a: u32, b: u32, m: u32) -> (r: u32)
    requires
        m > 0,
    ensures
        b == 0 ==> r == 1,
        b > 0 ==> r == pow(a as int, b as nat) % (m as int),
{
    let mut r: u32 = 1;
    let mut base: u32 = a % m;
    let mut exp: u32 = b;
    proof {
        lemma_pow_mod_noop(a as int, b as nat, m as int);
    }
    while exp > 0
        invariant
            m > 0,
            base < m,
            exp <= b,
            exp == b ==> r == 1,
            exp < b && exp == 0 ==> r < m,
            (r as int * pow(base as int, exp as nat)) % (m as int) == pow(a as int, b as nat) % (
            m as int),
        decreases exp,
    {
        let ghost r_before: int = r as int;
        let ghost base_before: int = base as int;
        let ghost exp_before: nat = exp as nat;
        assert(exp & 1 == exp % 2) by (bit_vector);
        assert(exp >> 1 == exp / 2) by (bit_vector);
        if exp & 1 == 1 {
            r = mulmod32(r, base, m);
        }
        exp >>= 1;
        if exp > 0 {
            base = mulmod32(base, base, m);
        }
        proof {
            lemma_mod_twice(r_before * base_before, m as int);
            lemma_mod_twice(base_before * base_before, m as int);
            lemma_modexp_step(r_before, base_before, exp_before, m as int, r as int, base as int);
        }
    }
    proof {
        lemma_pow0(base as int);
        if b > 0 {
            lemma_small_mod(r as nat, m as nat);
        }
    }
    r
}

} // verus!
