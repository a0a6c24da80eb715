//! Arithmetic modulo an odd 64-bit number in Montgomery form, where a
//! residue `x` is held as `x * 2^64 mod n` and a product costs no division.

use vstd::prelude::*;
use vstd::arithmetic::power::{pow, lemma_pow0};
use vstd::arithmetic::power2::{pow2, lemma2_to64, lemma2_to64_rest, lemma_pow2_unfold};
use vstd::arithmetic::div_mod::{lemma_fundamental_div_mod, lemma_mod_multiples_vanish,
    lemma_mul_mod_noop_left, lemma_mul_mod_noop_right, lemma_small_mod, lemma_mod_twice,
    lemma_sub_mod_noop_right};
use vstd::arithmetic::mul::{lemma_mul_is_associative, lemma_mul_is_commutative};
use vstd::wrapping::u64_specs::{wrapping_mul, wrapping_sub};
use crate::theory::lemma_modexp_step;

verus! {

/// The Montgomery radix, 2^64.
pub const RADIX: u128 = 0x1_0000_0000_0000_0000;

/// `n_inv` is the inverse of `n` modulo 2^64.
pub open spec fn is_word_inverse(n: int, n_inv: int) -> bool {
    (n * n_inv) % (RADIX as int) == 1
}

/// `x` is the residue that inverts 2^64 modulo `n`.
pub open spec fn inverts_radix(x: int, n: int) -> bool {
    0 <= x < n && (x * RADIX) % n == 1
}

/// The inverse of 2^64 modulo `n`, which exists for every odd `n > 1`.
pub open spec fn radix_inverse(n: int) -> int {
    choose|x: int| inverts_radix(x, n)
}

/// The Montgomery form of `x` modulo `n`.
pub open spec fn to_mont(x: int, n: int) -> int {
    (x * RADIX) % n
}

/// The residue modulo `n` whose Montgomery form is `x`.
pub open spec fn from_mont(x: int, n: int) -> int {
    (x * radix_inverse(n)) % n
}

/// One lifting step of Hensel: an inverse of `n` modulo `m` becomes an
/// inverse modulo `m * m`.
proof fn lemma_hensel_step(n: int, e: int, e2: int, m: int, w: int)
    requires
        m > 1,
        w > 0,
        w % (m * m) == 0,
        (n * e) % m == 1,
        e2 % w == (e * (2 - n * e)) % w,
    ensures
        (n * e2) % (m * m) == 1,
{
    let mm = m * m;
    assert(mm > 1) by (nonlinear_arith)
        requires
            m > 1,
            mm == m * m,
    ;
    let c = (n * e) / m;
    lemma_fundamental_div_mod(n * e, m);
    assert(n * e == m * c + 1);
    let full = e * (2 - n * e);
    lemma_fundamental_div_mod(e2, w);
    lemma_fundamental_div_mod(full, w);
    let j = e2 / w - full / w;
    assert(e2 == full + w * j) by (nonlinear_arith)
        requires
            e2 == w * (e2 / w) + e2 % w,
            full == w * (full / w) + full % w,
            e2 % w == full % w,
            j == e2 / w - full / w,
    ;
    let q = w / mm;
    lemma_fundamental_div_mod(w, mm);
    assert(w == mm * q);
    let u = n * e;
    assert(n * full == u * (2 - u)) by (nonlinear_arith)
        requires
            full == e * (2 - u),
            u == n * e,
    ;
    assert(u * (2 - u) == 1 - mm * (c * c)) by (nonlinear_arith)
        requires
            u == m * c + 1,
            mm == m * m,
    ;
    assert(n * e2 == n * full + mm * (n * q * j)) by (nonlinear_arith)
        requires
            e2 == full + w * j,
            w == mm * q,
    ;
    assert(n * e2 == mm * (n * q * j - c * c) + 1) by (nonlinear_arith)
        requires
            n * e2 == n * full + mm * (n * q * j),
            n * full == 1 - mm * (c * c),
    ;
    lemma_mod_multiples_vanish(n * q * j - c * c, 1, mm);
    lemma_small_mod(1, mm as nat);
}

/// What one round of the inverse iteration computes in wrapping arithmetic.
proof fn lemma_newton_round(n: u64, e: u64, e2: u64)
    requires
        e2 == wrapping_mul(wrapping_sub(2, wrapping_mul(e, n)), e),
    ensures
        (e2 as int) % (RADIX as int) == (e * (2 - n * e)) % (RADIX as int),
{
    let w = RADIX as int;
    let y = wrapping_mul(e, n);
    let z = wrapping_sub(2, y);
    assert(y == (e * n) % w);
    assert(z as int % w == (2 - y) % w) by {
        if 2 - y < 0 {
            lemma_mod_multiples_vanish(1, 2 - y, w);
        }
    }
    assert((2 - y) % w == (2 - e * n) % w) by {
        lemma_sub_mod_noop_right(2, e * n, w);
    }
    assert(e2 == (z * e) % w);
    lemma_mod_twice(z * e, w);
    lemma_mul_mod_noop_left(z as int, e as int, w);
    lemma_mul_mod_noop_left(2 - e * n, e as int, w);
    lemma_mul_is_commutative(e as int, n as int);
    lemma_mul_is_commutative(2 - n * e, e as int);
}

/// Returns the inverse of the odd number `n` modulo 2^64, by four rounds of
/// Newton-Hensel lifting from an estimate that is exact modulo 16.
pub fn mont_inv64(n: u64) -> (n_inv: u64)
    requires
        n % 2 == 1,
    ensures
        is_word_inverse(n as int, n_inv as int),
{
    let e0: u64 = (3u64.wrapping_mul(n)) ^ 2;
    let e1: u64 = (2u64.wrapping_sub(e0.wrapping_mul(n))).wrapping_mul(e0);
    let e2: u64 = (2u64.wrapping_sub(e1.wrapping_mul(n))).wrapping_mul(e1);
    let e3: u64 = (2u64.wrapping_sub(e2.wrapping_mul(n))).wrapping_mul(e2);
    let e4: u64 = (2u64.wrapping_sub(e3.wrapping_mul(n))).wrapping_mul(e3);
    proof {
        let w = RADIX as int;
        let t: u64 = wrapping_mul(3, n);
        assert(t == (3 * n) % 0x1_0000_0000_0000_0000);
        assert((n as int * (e0 as int)) % 16 == 1) by {
            assert(n % 2 == 1 && t == (3 * n) % 0x1_0000_0000_0000_0000 ==> (n * (t ^ 2)) % 16 == 1)
                by (bit_vector);
        }
        lemma_newton_round(n, e0, e1);
        lemma_hensel_step(n as int, e0 as int, e1 as int, 16, w);
        lemma_newton_round(n, e1, e2);
        lemma_hensel_step(n as int, e1 as int, e2 as int, 256, w);
        lemma_newton_round(n, e2, e3);
        lemma_hensel_step(n as int, e2 as int, e3 as int, 65536, w);
        lemma_newton_round(n, e3, e4);
        lemma_hensel_step(n as int, e3 as int, e4 as int, 0x1_0000_0000, w);
    }
    e4
}

/// From an inverse of `n` modulo 2^64 comes an inverse of 2^64 modulo `n`.
pub proof fn lemma_radix_inverse(n: int, n_inv: int)
    requires
        n > 1,
        is_word_inverse(n, n_inv),
    ensures
        inverts_radix(radix_inverse(n), n),
{
    let w = RADIX as int;
    let k = (n * n_inv) / w;
    lemma_fundamental_div_mod(n * n_inv, w);
    let x = (-k) % n;
    assert((x * w) % n == 1) by {
        lemma_mul_mod_noop_left(-k, w, n);
        assert((-k) * w == n * (-n_inv) + 1) by (nonlinear_arith)
            requires
                n * n_inv == w * k + 1,
        ;
        lemma_mod_multiples_vanish(-n_inv, 1, n);
        lemma_small_mod(1, n as nat);
    }
    assert(inverts_radix(x, n));
}

/// Residues that agree modulo `n` have the same Montgomery form.
pub proof fn lemma_to_mont_congruent(x: int, y: int, n: int)
    requires
        n > 0,
        x % n == y % n,
    ensures
        to_mont(x, n) == to_mont(y, n),
{
    lemma_mul_mod_noop_left(x, RADIX as int, n);
    lemma_mul_mod_noop_left(y, RADIX as int, n);
}

/// Leaving the Montgomery form undoes entering it.
pub proof fn lemma_from_to_mont(x: int, n: int)
    requires
        n > 1,
        inverts_radix(radix_inverse(n), n),
    ensures
        from_mont(to_mont(x, n), n) == x % n,
{
    let w = RADIX as int;
    let v = radix_inverse(n);
    lemma_mul_mod_noop_left(x * w, v, n);
    lemma_mul_is_associative(x, w, v);
    lemma_mul_is_commutative(w, v);
    lemma_mul_mod_noop_right(x, v * w, n);
}

/// Entering the Montgomery form undoes leaving it.
pub proof fn lemma_to_from_mont(x: int, n: int)
    requires
        n > 1,
        inverts_radix(radix_inverse(n), n),
    ensures
        to_mont(from_mont(x, n), n) == x % n,
{
    let w = RADIX as int;
    let v = radix_inverse(n);
    lemma_mul_mod_noop_left(x * v, w, n);
    lemma_mul_is_associative(x, v, w);
    lemma_mul_mod_noop_right(x, v * w, n);
}

/// Distinct residues below `n` have distinct Montgomery forms.
pub proof fn lemma_to_mont_injective(u: int, v: int, n: int)
    requires
        n > 1,
        inverts_radix(radix_inverse(n), n),
        0 <= u < n,
        0 <= v < n,
    ensures
        (to_mont(u, n) == to_mont(v, n)) == (u == v),
{
    lemma_from_to_mont(u, n);
    lemma_from_to_mont(v, n);
    lemma_small_mod(u as nat, n as nat);
    lemma_small_mod(v as nat, n as nat);
}

/// The Montgomery form of -1 is `n` less the Montgomery form of 1.
pub proof fn lemma_to_mont_minus_one(n: int)
    requires
        n > 1,
        to_mont(1, n) != 0,
    ensures
        to_mont(n - 1, n) == n - to_mont(1, n),
{
    let w = RADIX as int;
    let one = w % n;
    let q = w / n;
    lemma_fundamental_div_mod(w, n);
    assert((n - 1) * w == n * (w - q - 1) + (n - one)) by (nonlinear_arith)
        requires
            w == n * q + one,
    ;
    lemma_mod_multiples_vanish(w - q - 1, n - one, n);
    lemma_small_mod((n - one) as nat, n as nat);
}

/// The residue `r` below `n` with `r * 2^64` congruent to `t` is `t` taken
/// out of Montgomery form.
pub proof fn lemma_reduced_is_from_mont(r: int, t: int, n: int)
    requires
        n > 1,
        inverts_radix(radix_inverse(n), n),
        0 <= r < n,
        (r * RADIX) % n == t % n,
    ensures
        r == from_mont(t, n),
{
    let w = RADIX as int;
    let v = radix_inverse(n);
    lemma_mul_mod_noop_left(r * w, v, n);
    lemma_mul_mod_noop_left(t, v, n);
    lemma_mul_is_associative(r, w, v);
    lemma_mul_is_commutative(w, v);
    lemma_mul_mod_noop_right(r, v * w, n);
    lemma_small_mod(r as nat, n as nat);
}

/// The Montgomery product of the forms of `u` and `v` is the form of `u * v`.
pub proof fn lemma_mont_product(u: int, v: int, n: int)
    requires
        n > 1,
        inverts_radix(radix_inverse(n), n),
    ensures
        from_mont(to_mont(u, n) * to_mont(v, n), n) == to_mont(u * v, n),
{
    let w = RADIX as int;
    let i = radix_inverse(n);
    let a = to_mont(u, n);
    let b = to_mont(v, n);
    // a * b * i  ==  a * (b * i), and (b * i) % n == v % n
    lemma_mul_is_associative(a, b, i);
    lemma_mul_mod_noop_right(a, b * i, n);
    lemma_from_to_mont(v, n);
    assert((a * b * i) % n == (a * (v % n)) % n);
    lemma_mul_mod_noop_right(a, v, n);
    assert((a * b * i) % n == (a * v) % n);
    lemma_mul_mod_noop_left(u * w, v, n);
    assert((a * v) % n == (u * w * v) % n);
    assert(u * w * v == u * v * w) by (nonlinear_arith);
}

/// Reduces the 128-bit value `x_hi * 2^64 + x_lo` out of Montgomery form:
/// returns that value divided by 2^64 modulo `n`.
pub fn mont_reduce64(x_lo: u64, x_hi: u64, n: u64, n_inv: u64) -> (r: u64)
    requires
        n > 1,
        is_word_inverse(n as int, n_inv as int),
        x_hi < n,
    ensures
        r < n,
        (r * RADIX) % (n as int) == (x_lo + x_hi * RADIX) % (n as int),
        r == from_mont(x_lo + x_hi * RADIX, n as int),
{
    let ghost w: int = RADIX as int;
    let m: u64 = x_lo.wrapping_mul(n_inv);
    assert(m as int * n as int <= 0xffff_ffff_ffff_ffff * 0xffff_ffff_ffff_ffff) by (nonlinear_arith)
        requires
            0 <= m <= 0xffff_ffff_ffff_ffff,
            0 <= n <= 0xffff_ffff_ffff_ffff,
    ;
    let p: u128 = m as u128 * n as u128;
    assert(p >> 64 == p / 0x1_0000_0000_0000_0000) by (bit_vector);
    let t: u64 = (p >> 64) as u64;
    proof {
        // the low word of m * n is x_lo, so the subtraction below is exact
        assert(p as int % w == x_lo) by {
            lemma_mul_mod_noop_left(x_lo * n_inv, n as int, w);
            lemma_mul_is_associative(x_lo as int, n_inv as int, n as int);
            lemma_mul_is_commutative(n_inv as int, n as int);
            lemma_mul_mod_noop_right(x_lo as int, n * n_inv, w);
            lemma_small_mod(x_lo as nat, w as nat);
        }
        lemma_fundamental_div_mod(p as int, w);
        assert(p == w * t + x_lo);
        assert(t < n) by (nonlinear_arith)
            requires
                m * n == w * t + x_lo,
                0 <= m < w,
                0 <= x_lo,
                0 < n,
        ;
    }
    let r: u64 = if x_hi < t {
        x_hi.wrapping_sub(t).wrapping_add(n)
    } else {
        x_hi - t
    };
    proof {
        let d = x_hi - t;
        let total = x_lo + x_hi * w;
        assert(r == if d < 0 { d + n } else { d });
        assert(d * w == total + n * (-(m as int))) by (nonlinear_arith)
            requires
                d == x_hi - t,
                total == x_lo + x_hi * w,
                m * n == w * t + x_lo,
        ;
        lemma_mod_multiples_vanish(-(m as int), total, n as int);
        assert((d * w) % (n as int) == total % (n as int));
        if d < 0 {
            assert(r * w == n * w + d * w) by (nonlinear_arith)
                requires
                    r == d + n,
            ;
            lemma_mod_multiples_vanish(w, d * w, n as int);
        }
        lemma_radix_inverse(n as int, n_inv as int);
        lemma_reduced_is_from_mont(r as int, total, n as int);
    }
    r
}

/// Multiplies two residues in Montgomery form: returns `a * b` divided by
/// 2^64 modulo `n`.
pub fn mont_mul64(a: u64, b: u64, n: u64, n_inv: u64) -> (r: u64)
    requires
        n > 1,
        is_word_inverse(n as int, n_inv as int),
        a * b < n * RADIX,
    ensures
        r < n,
        (r * RADIX) % (n as int) == (a * b) % (n as int),
        r == from_mont(a * b, n as int),
{
    assert(a as int * b as int <= 0xffff_ffff_ffff_ffff * 0xffff_ffff_ffff_ffff) by (nonlinear_arith)
        requires
            0 <= a <= 0xffff_ffff_ffff_ffff,
            0 <= b <= 0xffff_ffff_ffff_ffff,
    ;
    let prod: u128 = a as u128 * b as u128;
    assert(prod >> 64 == prod / 0x1_0000_0000_0000_0000) by (bit_vector);
    assert(prod as u64 == prod % 0x1_0000_0000_0000_0000) by (bit_vector);
    proof {
        lemma_fundamental_div_mod(prod as int, RADIX as int);
        assert(prod / RADIX < n) by (nonlinear_arith)
            requires
                prod == RADIX * (prod / RADIX) + prod % RADIX,
                0 <= prod % RADIX,
                prod < n * RADIX,
        ;
    }
    mont_reduce64(#[verifier::truncate] (prod as u64), (prod >> 64) as u64, n, n_inv)
}

/// Brings `x` into Montgomery form: returns `x * 2^64` modulo `n`, reduced
/// from the full 128-bit product.
pub fn to_mont64(x: u64, n: u64) -> (r: u64)
    requires
        n > 0,
    ensures
        r == to_mont(x as int, n as int),
{
    let wide: u128 = (x as u128) << 64;
    assert(wide == x * 0x1_0000_0000_0000_0000) by (bit_vector)
        requires
            wide == (x as u128) << 64,
    ;
    (wide % (n as u128)) as u64
}

/// An odd number above 1 divides no power of two.
pub proof fn lemma_odd_divides_no_pow2(n: int, k: nat)
    requires
        n > 1,
        n % 2 == 1,
    ensures
        (pow2(k) as int) % n != 0,
    decreases k,
{
    if k == 0 {
        lemma2_to64();
        lemma_small_mod(1, n as nat);
    } else {
        lemma_odd_divides_no_pow2(n, (k - 1) as nat);
        lemma_pow2_unfold(k);
        let p = pow2((k - 1) as nat) as int;
        if (2 * p) % n == 0 {
            let q = (2 * p) / n;
            lemma_fundamental_div_mod(2 * p, n);
            let h = n / 2;
            assert(q == 2 * (p - h * q)) by (nonlinear_arith)
                requires
                    2 * p == n * q,
                    n == 2 * h + 1,
            ;
            let half = p - h * q;
            assert(p == n * half) by (nonlinear_arith)
                requires
                    2 * p == n * q,
                    q == 2 * half,
            ;
            lemma_mod_multiples_vanish(half, 0, n);
            assert(false);
        }
    }
}

/// Returns the Montgomery form of 1, which is 2^64 modulo `n`.
pub fn mont_one64(n: u64) -> (one: u64)
    requires
        n > 1,
        n % 2 == 1,
    ensures
        0 < one < n,
        one == to_mont(1, n as int),
{
    proof {
        lemma2_to64_rest();
        lemma_odd_divides_no_pow2(n as int, 64);
        let v = (u64::MAX % n) as int;
        lemma_fundamental_div_mod(u64::MAX as int, n as int);
        let q = (u64::MAX as int) / (n as int);
        if v + 1 == n {
            assert(RADIX == n * (q + 1)) by (nonlinear_arith)
                requires
                    RADIX - 1 == n * q + v,
                    v + 1 == n,
            ;
            lemma_mod_multiples_vanish(q + 1, 0, n as int);
            assert(false);
        }
        assert(RADIX == n * q + (v + 1));
        lemma_mod_multiples_vanish(q, v + 1, n as int);
        lemma_small_mod((v + 1) as nat, n as nat);
    }
    (u64::MAX % n).wrapping_add(1)
}

/// Raises a residue in Montgomery form to the power `exp`: the result is
/// the Montgomery form of the residue of `base` to that power. `one` is the
/// Montgomery form of 1.
pub fn mont_pow64(base: u64, exp: u64, n: u64, n_inv: u64, one: u64) -> (r: u64)
    requires
        n > 1,
        is_word_inverse(n as int, n_inv as int),
        base < n,
        one == to_mont(1, n as int),
    ensures
        r < n,
        r == to_mont(pow(from_mont(base as int, n as int), exp as nat), n as int),
{
    let ghost ni: int = n as int;
    let ghost residue: int = from_mont(base as int, ni);
    let ghost bv: int = residue;
    let ghost rv: int = 1;
    let mut b: u64 = base;
    let mut e: u64 = exp;
    let mut result: u64 = one;
    proof {
        lemma_radix_inverse(ni, n_inv as int);
        lemma_to_from_mont(base as int, ni);
        lemma_small_mod(base as nat, n as nat);
    }
    while e > 0
        invariant
            n > 1,
            ni == n as int,
            is_word_inverse(ni, n_inv as int),
            inverts_radix(radix_inverse(ni), ni),
            b < n,
            result < n,
            b == to_mont(bv, ni),
            result == to_mont(rv, ni),
            (rv * pow(bv, e as nat)) % ni == pow(residue, exp as nat) % ni,
        decreases e,
    {
        let ghost rv_before: int = rv;
        let ghost bv_before: int = bv;
        let ghost e_before: nat = e as nat;
        assert(e & 1 == e % 2) by (bit_vector);
        assert(e >> 1 == e / 2) by (bit_vector);
        proof {
            lemma_product_below(result as int, b as int, ni);
            lemma_product_below(b as int, b as int, ni);
        }
        if e & 1 == 1 {
            result = mont_mul64(result, b, n, n_inv);
            proof {
                lemma_mont_product(rv, bv, ni);
                rv = rv * bv;
            }
        }
        b = mont_mul64(b, b, n, n_inv);
        e >>= 1;
        proof {
            lemma_mont_product(bv, bv, ni);
            bv = bv * bv;
            lemma_modexp_step(rv_before, bv_before, e_before, ni, rv, bv);
        }
    }
    proof {
        lemma_pow0(bv);
        lemma_to_mont_congruent(rv, pow(residue, exp as nat), ni);
    }
    result
}

/// The product of two residues below `n` fits under `n * 2^64`.
proof fn lemma_product_below(a: int, b: int, n: int)
    requires
        0 <= a < n,
        0 <= b < n,
        n <= u64::MAX,
    ensures
        a * b < n * RADIX,
{
    assert(a * b < n * 0x1_0000_0000_0000_0000) by (nonlinear_arith)
        requires
            0 <= a < n,
            0 <= b < n,
            n < 0x1_0000_0000_0000_0000,
    ;
}

} // verus!
