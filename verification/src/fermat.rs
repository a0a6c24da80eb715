//! Why every prime passes the strong probable-prime test: inverses modulo a
//! prime, Euclid's lemma, the square roots of 1, and Fermat's little theorem.

use vstd::prelude::*;
use vstd::arithmetic::power::{pow, lemma_pow0, lemma_pow1, lemma_pow_adds};
use vstd::arithmetic::div_mod::{lemma_fundamental_div_mod, lemma_mod_multiples_vanish,
    lemma_mul_mod_noop_general, lemma_mul_mod_noop_left, lemma_mul_mod_noop_right,
    lemma_small_mod, lemma_sub_mod_noop};
use vstd::set_lib::{set_int_range, lemma_int_range, lemma_len_subset};
use crate::theory::{prime, two_adicity, mr_term, strong_probable_prime, survives_sieve,
    accepted32, accepted64, witnesses64, lemma_mr_term_square, lemma_odd_part_times_pow2,
    EXCLUDED_PSEUDOPRIME};

verus! {

/// Every nonzero residue modulo a prime has an inverse.
pub proof fn lemma_inverse_mod_prime(p: int, a: int) -> (x: int)
    requires
        prime(p),
        0 < a < p,
    ensures
        (a * x) % p == 1,
    decreases a,
{
    if a == 1 {
        lemma_small_mod(1, p as nat);
        1
    } else {
        let r = p % a;
        let q = p / a;
        lemma_fundamental_div_mod(p, a);
        assert(r != 0);
        let y = lemma_inverse_mod_prime(p, r);
        let x = -(q * y);
        assert(a * x == p * (-y) + r * y) by (nonlinear_arith)
            requires
                p == a * q + r,
                x == -(q * y),
        ;
        lemma_mod_multiples_vanish(-y, r * y, p);
        x
    }
}

/// Euclid's lemma: a prime that divides a product divides one of the factors.
pub proof fn lemma_euclid(p: int, a: int, b: int)
    requires
        prime(p),
        (a * b) % p == 0,
    ensures
        a % p == 0 || b % p == 0,
{
    let r = a % p;
    if r != 0 {
        let x = lemma_inverse_mod_prime(p, r);
        // b == b * 1 == b * (r * x) == (a * b) * x == 0, all modulo p
        lemma_mul_mod_noop_right(b, r * x, p);
        assert((b * (r * x)) % p == (b * 1) % p);
        assert(b * (r * x) == (r * b) * x) by (nonlinear_arith);
        lemma_mul_mod_noop_left(r * b, x, p);
        lemma_mul_mod_noop_left(a, b, p);
        assert((r * b) % p == 0);
        assert(0 * x == 0);
        lemma_small_mod(0, p as nat);
        assert(b * 1 == b);
    }
}

/// Modulo a prime, 1 has no square roots but 1 and -1.
pub proof fn lemma_square_roots_of_one(p: int, x: int)
    requires
        prime(p),
        0 <= x < p,
        (x * x) % p == 1,
    ensures
        x == 1 || x == p - 1,
{
    assert((x - 1) * (x + 1) == x * x - 1) by (nonlinear_arith);
    lemma_sub_mod_noop(x * x, 1, p);
    lemma_small_mod(1, p as nat);
    lemma_small_mod(0, p as nat);
    assert(((x - 1) * (x + 1)) % p == 0);
    lemma_euclid(p, x - 1, x + 1);
    if (x - 1) % p == 0 {
        if x == 0 {
            lemma_mod_multiples_vanish(-1, p - 1, p);
            lemma_small_mod((p - 1) as nat, p as nat);
        } else {
            lemma_small_mod((x - 1) as nat, p as nat);
        }
    } else {
        if x + 1 < p {
            lemma_small_mod((x + 1) as nat, p as nat);
        }
    }
}

/// The product of the numbers from 1 to `m`.
pub open spec fn factorial(m: nat) -> int
    decreases m,
{
    if m == 0 {
        1
    } else {
        factorial((m - 1) as nat) * m
    }
}

/// The product of the entries of `s`.
pub open spec fn product(s: Seq<int>) -> int
    decreases s.len(),
{
    if s.len() == 0 {
        1
    } else {
        product(s.drop_last()) * s.last()
    }
}

/// Taking one entry out of a sequence divides its product by that entry.
proof fn lemma_product_remove(s: Seq<int>, j: int)
    requires
        0 <= j < s.len(),
    ensures
        product(s) == product(s.remove(j)) * s[j],
    decreases s.len(),
{
    if j == s.len() - 1 {
        assert(s.remove(j) =~= s.drop_last());
    } else {
        let front = s.drop_last();
        lemma_product_remove(front, j);
        assert(s.remove(j).drop_last() =~= front.remove(j));
        assert(s.remove(j).last() == s.last());
        assert(product(s.remove(j)) == product(front.remove(j)) * s.last());
        assert(product(front.remove(j)) * s[j] * s.last() == product(front.remove(j)) * s.last()
            * s[j]) by (nonlinear_arith);
    }
}

/// A sequence of distinct numbers from 1 to `m` has at most `m` entries.
proof fn lemma_distinct_entries_bound(s: Seq<int>, m: nat)
    requires
        s.no_duplicates(),
        forall|i: int| 0 <= i < s.len() ==> 1 <= #[trigger] s[i] <= m,
    ensures
        s.len() <= m,
{
    let range = set_int_range(1, m as int + 1);
    lemma_int_range(1, m as int + 1);
    assert(s.to_set().subset_of(range)) by {
        assert forall|v: int| s.to_set().contains(v) implies range.contains(v) by {
            let i = choose|i: int| 0 <= i < s.len() && s[i] == v;
            assert(1 <= s[i] <= m);
        }
    }
    lemma_len_subset(s.to_set(), range);
    s.unique_seq_to_set();
}

/// A sequence that holds each number from 1 to `m` once has the product `m!`.
proof fn lemma_product_of_permutation(s: Seq<int>, m: nat)
    requires
        s.len() == m,
        s.no_duplicates(),
        forall|i: int| 0 <= i < s.len() ==> 1 <= #[trigger] s[i] <= m,
    ensures
        product(s) == factorial(m),
    decreases m,
{
    if m > 0 {
        if forall|i: int| 0 <= i < s.len() ==> #[trigger] s[i] != m {
            lemma_distinct_entries_bound(s, (m - 1) as nat);
            assert(false);
        }
        let j = choose|j: int| 0 <= j < s.len() && s[j] == m;
        let rest = s.remove(j);
        assert forall|i: int| 0 <= i < rest.len() implies 1 <= #[trigger] rest[i] <= m - 1 by {
            if i < j {
                assert(rest[i] == s[i]);
            } else {
                assert(rest[i] == s[i + 1]);
            }
        }
        assert(rest.no_duplicates()) by {
            assert forall|i: int, k: int| 0 <= i < rest.len() && 0 <= k < rest.len() && i != k
                implies rest[i] != rest[k] by {
                let i2 = if i < j { i } else { i + 1 };
                let k2 = if k < j { k } else { k + 1 };
                assert(rest[i] == s[i2]);
                assert(rest[k] == s[k2]);
            }
        }
        lemma_product_of_permutation(rest, (m - 1) as nat);
        lemma_product_remove(s, j);
    }
}

/// The first `k` multiples of `a`, each reduced modulo `p`.
pub open spec fn multiples(a: int, p: int, k: nat) -> Seq<int> {
    Seq::new(k, |i: int| (a * (i + 1)) % p)
}

/// Modulo `p`, the product of the first `k` multiples of `a` is `a^k * k!`.
proof fn lemma_product_of_multiples(a: int, p: int, k: nat)
    requires
        p > 0,
    ensures
        product(multiples(a, p, k)) % p == (pow(a, k) * factorial(k)) % p,
    decreases k,
{
    if k == 0 {
        lemma_pow0(a);
    } else {
        let s = multiples(a, p, k);
        let j = (k - 1) as nat;
        let front = multiples(a, p, j);
        assert(s.drop_last() =~= front);
        assert(s.last() == (a * k) % p);
        lemma_product_of_multiples(a, p, j);
        let pf = product(front);
        let af = pow(a, j) * factorial(j);
        lemma_mul_mod_noop_general(pf, a * k, p);
        lemma_mul_mod_noop_general(af, a * k, p);
        assert((pf * ((a * k) % p)) % p == (af * (a * k)) % p);
        lemma_pow1(a);
        lemma_pow_adds(a, j, 1);
        assert(pow(a, k) == pow(a, j) * a);
        assert(af * (a * k) == (pow(a, j) * a) * (factorial(j) * k)) by (nonlinear_arith)
            requires
                af == pow(a, j) * factorial(j),
        ;
    }
}

/// A prime `p` does not divide `k!` for `k` below `p`.
proof fn lemma_factorial_coprime(p: int, k: nat)
    requires
        prime(p),
        k < p,
    ensures
        factorial(k) % p != 0,
    decreases k,
{
    if k == 0 {
        lemma_small_mod(1, p as nat);
    } else {
        lemma_factorial_coprime(p, (k - 1) as nat);
        lemma_small_mod(k, p as nat);
        if factorial(k) % p == 0 {
            lemma_euclid(p, factorial((k - 1) as nat), k as int);
        }
    }
}

/// A number strictly between `-p` and `p` that `p` divides is 0.
proof fn lemma_small_multiple_is_zero(x: int, p: int)
    requires
        -p < x < p,
        x % p == 0,
    ensures
        x == 0,
{
    if x < 0 {
        lemma_mod_multiples_vanish(1, x, p);
        lemma_small_mod((x + p) as nat, p as nat);
    } else {
        lemma_small_mod(x as nat, p as nat);
    }
}

/// Modulo a prime, a nonzero factor can be cancelled: if `a * x` and
/// `a * y` agree, so do `x` and `y`.
proof fn lemma_cancel(p: int, a: int, x: int, y: int)
    requires
        prime(p),
        a % p != 0,
        (a * x) % p == (a * y) % p,
    ensures
        (x - y) % p == 0,
{
    lemma_sub_mod_noop(a * x, a * y, p);
    lemma_small_mod(0, p as nat);
    assert(a * x - a * y == a * (x - y)) by (nonlinear_arith);
    lemma_euclid(p, a, x - y);
}

/// Fermat's little theorem: for a prime `p` that does not divide `a`,
/// `a^(p-1)` is 1 modulo `p`.
pub proof fn lemma_fermat_little(p: int, a: int)
    requires
        prime(p),
        a % p != 0,
    ensures
        pow(a, (p - 1) as nat) % p == 1,
{
    let m = (p - 1) as nat;
    let s = multiples(a, p, m);
    assert forall|i: int| 0 <= i < s.len() implies 1 <= #[trigger] s[i] <= m by {
        if (a * (i + 1)) % p == 0 {
            lemma_euclid(p, a, i + 1);
            lemma_small_mod((i + 1) as nat, p as nat);
        }
    }
    assert(s.no_duplicates()) by {
        assert forall|i: int, k: int| 0 <= i < s.len() && 0 <= k < s.len() && i != k implies s[i]
            != s[k] by {
            if s[i] == s[k] {
                lemma_cancel(p, a, i + 1, k + 1);
                lemma_small_multiple_is_zero(i - k, p);
            }
        }
    }
    lemma_product_of_permutation(s, m);
    lemma_product_of_multiples(a, p, m);
    let f = factorial(m);
    let e = pow(a, m);
    assert((e * f) % p == f % p);
    lemma_sub_mod_noop(e * f, f, p);
    lemma_small_mod(0, p as nat);
    assert(e * f - f == (e - 1) * f) by (nonlinear_arith);
    lemma_euclid(p, e - 1, f);
    lemma_factorial_coprime(p, m);
    assert((e - 1) % p == 0);
    lemma_fundamental_div_mod(e - 1, p);
    lemma_mod_multiples_vanish((e - 1) / p, 1, p);
    lemma_small_mod(1, p as nat);
}

/// Walking the Miller-Rabin sequence of a prime backwards from a term that
/// is 1: either the first term is 1, or the walk meets a term that is -1.
proof fn lemma_descend_from_one(p: int, a: int, r: nat)
    requires
        prime(p),
        mr_term(p, a, r) == 1,
    ensures
        mr_term(p, a, 0) == 1 || exists|j: nat| j < r && #[trigger] mr_term(p, a, j) == p - 1,
    decreases r,
{
    if r > 0 {
        let before = (r - 1) as nat;
        let t = mr_term(p, a, before);
        lemma_mr_term_square(p, a, before);
        lemma_square_roots_of_one(p, t);
        if t == 1 {
            lemma_descend_from_one(p, a, before);
        } else {
            assert(before < r && mr_term(p, a, before) == p - 1);
        }
    }
}

/// An odd prime is a strong probable prime to every base.
pub proof fn lemma_prime_is_strong_probable_prime(p: int, a: int)
    requires
        prime(p),
        p % 2 == 1,
    ensures
        strong_probable_prime(p, a),
{
    if a % p != 0 {
        let s = two_adicity((p - 1) as nat);
        lemma_odd_part_times_pow2((p - 1) as nat);
        lemma_fermat_little(p, a);
        assert(mr_term(p, a, s) == 1);
        lemma_descend_from_one(p, a, s);
    }
}

/// No prime is divisible by a smaller number above 1; in particular a prime
/// from 9 up survives the sieve.
pub proof fn lemma_prime_survives_sieve(n: int)
    requires
        prime(n),
        n >= 9,
    ensures
        survives_sieve(n),
{
    assert(n % 2 != 0 && n % 3 != 0 && n % 5 != 0 && n % 7 != 0);
    if n == EXCLUDED_PSEUDOPRIME {
        assert(n % 151 == 0);
    }
}

/// The 32-bit test accepts every prime.
pub proof fn lemma_prime_accepted32(n: int)
    requires
        prime(n),
    ensures
        accepted32(n),
{
    if n < 9 {
        if n == 4 || n == 6 || n == 8 {
            assert(n % 2 == 0);
        }
    } else {
        lemma_prime_survives_sieve(n);
        lemma_prime_is_strong_probable_prime(n, 2);
        lemma_prime_is_strong_probable_prime(n, 7);
        lemma_prime_is_strong_probable_prime(n, 61);
    }
}

/// Below 121, the square of 11, the tests accept nothing but primes: there
/// the sieve by 2, 3, 5 and 7 is a full trial division.
pub proof fn lemma_accepted_below_121_is_prime(n: int)
    requires
        n < 121,
        accepted32(n),
    ensures
        prime(n),
{
    assert forall|d: int| 1 < d < n implies #[trigger] (n % d) != 0 by {
        if n % d == 0 {
            let e = n / d;
            lemma_fundamental_div_mod(n, d);
            assert(1 < e < n) by (nonlinear_arith)
                requires
                    n == d * e,
                    1 < d < n,
            ;
            let m = if d <= e { d } else { e };
            let k = if d <= e { e } else { d };
            assert(n == m * k) by (nonlinear_arith)
                requires
                    n == d * e,
                    (m == d && k == e) || (m == e && k == d),
            ;
            assert(m <= 10) by (nonlinear_arith)
                requires
                    n == m * k,
                    1 < m <= k,
                    n < 121,
            ;
            // q is a prime factor of m, and c its cofactor
            let q = if m % 2 == 0 { 2int } else if m % 3 == 0 { 3int } else { m };
            let c = if m % 2 == 0 { m / 2 } else if m % 3 == 0 { m / 3 } else { 1int };
            assert(q == 2 || q == 3 || q == 5 || q == 7);
            assert(m == q * c && c >= 1);
            assert(n == q * (c * k)) by (nonlinear_arith)
                requires
                    n == m * k,
                    m == q * c,
            ;
            lemma_mod_multiples_vanish(c * k, 0, q);
            assert(n % q == 0);
            if n < 9 {
                assert(n == q);
                assert(false) by (nonlinear_arith)
                    requires
                        q == q * (c * k),
                        q > 0,
                        c >= 1,
                        k > 1,
                ;
            }
        }
    }
}

/// The 64-bit test accepts every prime.
pub proof fn lemma_prime_accepted64(n: int)
    requires
        prime(n),
    ensures
        accepted64(n),
{
    if n <= u32::MAX {
        lemma_prime_accepted32(n);
    } else {
        lemma_prime_survives_sieve(n);
        assert forall|i: int| 0 <= i < witnesses64().len() implies strong_probable_prime(
            n,
            #[trigger] witnesses64()[i],
        ) by {
            lemma_prime_is_strong_probable_prime(n, witnesses64()[i]);
        }
    }
}

} // verus!
