//! The mathematical vocabulary of the library: primes, the strong
//! probable-prime condition of Miller and Rabin, and the two deterministic
//! acceptance predicates built on it.

use vstd::prelude::*;
use vstd::arithmetic::power::{pow, lemma_pow0, lemma_pow1, lemma_pow_adds, lemma_pow_multiplies,
    lemma_pow_mod_noop};
use vstd::arithmetic::power2::{pow2, lemma_pow2_unfold, lemma2_to64};
use vstd::arithmetic::div_mod::{lemma_mul_mod_noop_general, lemma_small_mod};
use vstd::arithmetic::mul::lemma_mul_is_associative;

verus! {

/// `n` is a prime number: at least 2 and without a divisor strictly between 1 and itself.
pub open spec fn prime(n: int) -> bool {
    n >= 2 && forall|d: int| 1 < d < n ==> #[trigger] (n % d) != 0
}

/// The odd factor of `m`: what is left when every factor 2 is divided out.
pub open spec fn odd_part(m: nat) -> nat
    decreases m,
{
    if m == 0 || m % 2 == 1 {
        m
    } else {
        odd_part(m / 2)
    }
}

/// The number of factors 2 in `m`, so that `m == odd_part(m) * pow2(two_adicity(m))`.
pub open spec fn two_adicity(m: nat) -> nat
    decreases m,
{
    if m == 0 || m % 2 == 1 {
        0
    } else {
        1 + two_adicity(m / 2)
    }
}

/// The term of index `r` in the Miller-Rabin sequence of `a` modulo `n`:
/// `a^(d * 2^r) mod n`, where `d` is the odd part of `n - 1`.
pub open spec fn mr_term(n: int, a: int, r: nat) -> int {
    pow(a, odd_part((n - 1) as nat) * pow2(r)) % n
}

/// `n` is a strong probable prime to base `a`: either `n` divides `a`, or
/// `a^d` is 1 modulo `n`, or one of `a^d, a^(2d), ..., a^(2^(s-1) d)` is -1
/// modulo `n`, where `n - 1 == d * 2^s` with `d` odd.
pub open spec fn strong_probable_prime(n: int, a: int) -> bool {
    ||| a % n == 0
    ||| mr_term(n, a, 0) == 1
    ||| exists|r: nat| r < two_adicity((n - 1) as nat) && #[trigger] mr_term(n, a, r) == n - 1
}

/// A composite that the tests reject by name: 151 * 751 * 28351, the least
/// number that is a strong probable prime to each of the bases 2, 3, 5 and 7
/// without being prime.
pub const EXCLUDED_PSEUDOPRIME: u32 = 3215031751;

/// No small prime rules `n` out: `n` is odd, not divisible by 3, 5 or 7, and
/// is not the pseudoprime excluded by name.
pub open spec fn survives_sieve(n: int) -> bool {
    n % 2 != 0 && n % 3 != 0 && n % 5 != 0 && n % 7 != 0 && n != EXCLUDED_PSEUDOPRIME
}

/// What the 32-bit test accepts: the primes below 9, and above them every
/// number that survives the sieve and is a strong probable prime to the
/// bases 2, 7 and 61.
pub open spec fn accepted32(n: int) -> bool {
    if n < 9 {
        n == 2 || n == 3 || n == 5 || n == 7
    } else {
        &&& survives_sieve(n)
        &&& strong_probable_prime(n, 2)
        &&& strong_probable_prime(n, 7)
        &&& strong_probable_prime(n, 61)
    }
}

/// The bases of the 64-bit test: the first twelve primes.
pub open spec fn witnesses64() -> Seq<int> {
    seq![2, 3, 5, 7, 11, 13, 17, 19, 23, 29, 31, 37]
}

/// What the 64-bit test accepts: below 2^32 what the 32-bit test accepts,
/// and from 2^32 on every number that survives the sieve and is a strong
/// probable prime to each of the first twelve primes.
pub open spec fn accepted64(n: int) -> bool {
    if n <= u32::MAX {
        accepted32(n)
    } else {
        &&& survives_sieve(n)
        &&& forall|i: int|
            0 <= i < witnesses64().len() ==> strong_probable_prime(n, #[trigger] witnesses64()[i])
    }
}

/// On the numbers that fit in 32 bits the two tests accept the same.
pub proof fn lemma_widths_agree(n: int)
    requires
        n <= u32::MAX,
    ensures
        accepted64(n) == accepted32(n),
{
}

/// One step of binary exponentiation: the lowest bit of the exponent is
/// split off and the base is squared.
pub proof fn lemma_pow_halve(a: int, e: nat)
    ensures
        e % 2 == 1 ==> pow(a, e) == a * pow(a * a, e / 2),
        e % 2 == 0 ==> pow(a, e) == pow(a * a, e / 2),
{
    let h = e / 2;
    lemma_pow1(a);
    lemma_pow_adds(a, 1, 1);
    assert(pow(a, 2) == a * a);
    lemma_pow_multiplies(a, 2, h);
    assert(pow(a * a, h) == pow(a, 2 * h));
    if e % 2 == 1 {
        assert(e == 1 + 2 * h);
        lemma_pow_adds(a, 1, 2 * h);
    } else {
        assert(e == 2 * h);
    }
}

/// Binary exponentiation modulo `m`: the product `r * a^e` keeps its residue
/// when the lowest bit of `e` is moved into `r` and `a` is squared, each up
/// to a multiple of `m`.
pub proof fn lemma_modexp_step(r: int, a: int, e: nat, m: int, r2: int, a2: int)
    requires
        m > 0,
        e > 0,
        r2 % m == (if e % 2 == 1 { r * a } else { r }) % m,
        a2 % m == (a * a) % m || e / 2 == 0,
    ensures
        (r2 * pow(a2, e / 2)) % m == (r * pow(a, e)) % m,
{
    let h = e / 2;
    lemma_pow_halve(a, e);
    let rr = if e % 2 == 1 { r * a } else { r };
    assert(r * pow(a, e) == rr * pow(a * a, h)) by {
        if e % 2 == 1 {
            lemma_mul_is_associative(r, a, pow(a * a, h));
        }
    }
    assert(pow(a2, h) % m == pow(a * a, h) % m) by {
        if h == 0 {
            lemma_pow0(a2);
            lemma_pow0(a * a);
        } else {
            lemma_pow_mod_noop(a2, h, m);
            lemma_pow_mod_noop(a * a, h, m);
        }
    }
    lemma_mul_mod_noop_general(r2, pow(a2, h), m);
    lemma_mul_mod_noop_general(rr, pow(a * a, h), m);
}

/// Dividing an even number by 2 keeps its odd part and takes one factor 2
/// away.
pub proof fn lemma_halve_even(m: nat)
    requires
        m > 0,
        m % 2 == 0,
    ensures
        odd_part(m) == odd_part(m / 2),
        two_adicity(m) == 1 + two_adicity(m / 2),
{
}

/// Every positive number is its odd part times a power of two, and its odd
/// part is odd.
pub proof fn lemma_odd_part_times_pow2(m: nat)
    requires
        m > 0,
    ensures
        odd_part(m) % 2 == 1,
        odd_part(m) * pow2(two_adicity(m)) == m,
    decreases m,
{
    if m % 2 == 1 {
        lemma2_to64();
        assert(m * pow2(0) == m) by (nonlinear_arith)
            requires
                pow2(0) == 1,
        ;
    } else {
        let h = m / 2;
        lemma_odd_part_times_pow2(h);
        lemma_pow2_unfold(two_adicity(m));
        assert(two_adicity(m) == 1 + two_adicity(h));
        assert(pow2(two_adicity(m)) == 2 * pow2(two_adicity(h)));
        assert(odd_part(h) * (2 * pow2(two_adicity(h))) == 2 * (odd_part(h) * pow2(two_adicity(h))))
            by (nonlinear_arith);
    }
}

/// Each term of the Miller-Rabin sequence is the square of the one before it.
pub proof fn lemma_mr_term_square(n: int, a: int, r: nat)
    requires
        n > 0,
    ensures
        mr_term(n, a, r + 1) == (mr_term(n, a, r) * mr_term(n, a, r)) % n,
{
    let d = odd_part((n - 1) as nat);
    let e = d * pow2(r);
    let x = pow(a, e);
    lemma_pow2_unfold(r + 1);
    assert(d * pow2(r + 1) == e + e) by (nonlinear_arith)
        requires
            pow2(r + 1) == 2 * pow2(r),
            e == d * pow2(r),
    ;
    lemma_pow_adds(a, e, e);
    lemma_mul_mod_noop_general(x, x, n);
}

/// Once a term of the Miller-Rabin sequence is 1, every later term is 1.
pub proof fn lemma_mr_term_one_stays(n: int, a: int, r: nat, j: nat)
    requires
        n > 1,
        mr_term(n, a, r) == 1,
        r <= j,
    ensures
        mr_term(n, a, j) == 1,
    decreases j - r,
{
    if r < j {
        lemma_mr_term_one_stays(n, a, r, (j - 1) as nat);
        lemma_mr_term_square(n, a, (j - 1) as nat);
        lemma_small_mod(1, n as nat);
    }
}

} // verus!
