//! The deterministic primality tests: a sieve by the smallest primes, then
//! a fixed set of Miller-Rabin bases.
//!
//! Each test returns exactly the acceptance predicate of its width, and so
//! accepts every prime. That the predicates hold of no composite is known
//! from exhaustive computation over the strong pseudoprimes to base 2; that
//! fact is not proved here.

use vstd::prelude::*;
use crate::fermat::{lemma_prime_accepted32, lemma_prime_accepted64};
use crate::montgomery::{is_word_inverse, to_mont, mont_inv64, mont_one64};
use crate::sprp::{sprp32, mont_sprp64};
use crate::theory::{accepted32, accepted64, prime, strong_probable_prime, witnesses64,
    EXCLUDED_PSEUDOPRIME};

verus! {

/// Tests a 32-bit number: the numbers below 9 by name, the others by the
/// sieve and then with the bases 2, 7 and 61.
pub fn is_prime32(n: u32) -> (r: bool)
    ensures
        r == accepted32(n as int),
        prime(n as int) ==> r,
{
    proof {
        if prime(n as int) {
            lemma_prime_accepted32(n as int);
        }
    }
    if n < 2 {
        return false;
    }
    if n == 2 {
        return true;
    }
    assert(n & 1 == n % 2) by (bit_vector);
    if n & 1 == 0 {
        return false;
    }
    if n < 9 {
        return true;
    }
    if n % 3 == 0 || n % 5 == 0 || n % 7 == 0 {
        return false;
    }
    if n == EXCLUDED_PSEUDOPRIME {
        return false;
    }
    sprp32(n, 2) && sprp32(n, 7) && sprp32(n, 61)
}

/// The bases of the 64-bit test: the first twelve primes.
pub const WITNESSES: [u64; 12] = [2, 3, 5, 7, 11, 13, 17, 19, 23, 29, 31, 37];

/// Tests a 64-bit number: one that fits in 32 bits as `is_prime32` does, a
/// larger one with the first twelve primes as bases, in Montgomery form.
pub fn is_prime64(n: u64) -> (r: bool)
    ensures
        r == accepted64(n as int),
        n <= u32::MAX ==> r == accepted32(n as int),
        prime(n as int) ==> r,
{
    proof {
        if prime(n as int) {
            lemma_prime_accepted64(n as int);
        }
    }
    if n < 2 {
        return false;
    }
    if n == 2 {
        return true;
    }
    assert(n & 1 == n % 2) by (bit_vector);
    if n & 1 == 0 {
        return false;
    }
    if n < 9 {
        return true;
    }
    if n % 3 == 0 || n % 5 == 0 || n % 7 == 0 {
        return false;
    }
    if n == EXCLUDED_PSEUDOPRIME as u64 {
        return false;
    }
    if n <= u32::MAX as u64 {
        return is_prime32(n as u32);
    }
    let n_inv: u64 = mont_inv64(n);
    let one: u64 = mont_one64(n);
    let mut i: usize = 0;
    while i < 12
        invariant
            i <= 12,
            n > u32::MAX,
            n % 2 == 1,
            is_word_inverse(n as int, n_inv as int),
            one == to_mont(1, n as int),
            prime(n as int) ==> accepted64(n as int),
            forall|j: int|
                0 <= j < i ==> strong_probable_prime(n as int, #[trigger] witnesses64()[j]),
        decreases 12 - i,
    {
        let w: u64 = WITNESSES[i];
        assert(w == witnesses64()[i as int]);
        if !mont_sprp64(n, w, n_inv, one) {
            return false;
        }
        i += 1;
    }
    true
}

} // verus!
