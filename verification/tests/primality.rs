use smcprime::montgomery::{mont_inv64, mont_one64};
use smcprime::primality::WITNESSES;
use smcprime::sprp::{mont_sprp64, sprp32};
use smcprime::{is_prime, is_prime32, is_prime64};

fn trial_division(n: u64) -> bool {
    if n < 2 {
        return false;
    }
    let mut d: u64 = 2;
    while d * d <= n {
        if n % d == 0 {
            return false;
        }
        d += 1;
    }
    true
}

fn naive_powmod(a: u64, e: u64, n: u64) -> u64 {
    let mut result: u128 = 1;
    let mut base: u128 = (a % n) as u128;
    let mut e: u64 = e;
    while e > 0 {
        if e & 1 == 1 {
            result = result * base % n as u128;
        }
        base = base * base % n as u128;
        e >>= 1;
    }
    result as u64
}

fn naive_sprp(n: u64, a: u64) -> bool {
    if a % n == 0 {
        return true;
    }
    let mut d: u64 = n - 1;
    let mut s: u32 = 0;
    while d % 2 == 0 {
        d /= 2;
        s += 1;
    }
    let mut x: u64 = naive_powmod(a, d, n);
    if x == 1 || x == n - 1 {
        return true;
    }
    let mut r: u32 = 1;
    while r < s {
        x = (x as u128 * x as u128 % n as u128) as u64;
        if x == n - 1 {
            return true;
        }
        r += 1;
    }
    false
}

fn sprp64(n: u64, a: u64) -> bool {
    mont_sprp64(n, a, mont_inv64(n), mont_one64(n))
}

#[test]
fn test_small_primes() {
    let primes: [u64; 15] = [2, 3, 5, 7, 11, 13, 17, 19, 23, 29, 31, 37, 41, 43, 47];
    for &p in &primes {
        assert!(is_prime(p), "{} should be prime", p);
    }
}

#[test]
fn test_small_composites() {
    let composites: [u64; 15] = [4, 6, 8, 9, 10, 12, 14, 15, 16, 18, 20, 21, 22, 24, 25];
    for &c in &composites {
        assert!(!is_prime(c), "{} should not be prime", c);
    }
}

#[test]
fn test_special_pseudoprime() {
    assert!(!is_prime32(3215031751));
    assert!(!is_prime64(3215031751));
}

#[test]
fn test_large_primes() {
    assert!(is_prime64(1000000007));
    assert!(is_prime64(1000000009));
    assert!(is_prime64(18446744073709551557));
}

#[test]
fn below_two_is_not_prime() {
    assert!(!is_prime32(0));
    assert!(!is_prime32(1));
    assert!(!is_prime64(0));
    assert!(!is_prime64(1));
    assert!(!is_prime(0));
    assert!(!is_prime(1));
}

#[test]
fn seventeen_and_eighteen() {
    assert!(is_prime(17));
    assert!(!is_prime(18));
}

#[test]
fn widths_agree_with_each_other_and_trial_division() {
    let mut n: u32 = 0;
    while n <= 10000 {
        let expected: bool = trial_division(n as u64);
        assert_eq!(is_prime32(n), expected, "is_prime32({})", n);
        assert_eq!(is_prime64(n as u64), expected, "is_prime64({})", n);
        assert_eq!(is_prime(n as u64), expected, "is_prime({})", n);
        n += 1;
    }
}

#[test]
fn widths_agree_near_the_top_of_32_bits() {
    let mut n: u32 = u32::MAX - 2000;
    loop {
        let expected: bool = trial_division(n as u64);
        assert_eq!(is_prime32(n), expected, "is_prime32({})", n);
        assert_eq!(is_prime64(n as u64), expected, "is_prime64({})", n);
        if n == u32::MAX {
            break;
        }
        n += 1;
    }
}

#[test]
fn multiples_of_small_primes_are_rejected() {
    let sieve: [u64; 4] = [2, 3, 5, 7];
    for &q in &sieve {
        assert!(is_prime64(q));
        assert!(!is_prime64(q * 1000000007));
        assert!(!is_prime64(q * 4294967311));
        assert!(!is_prime32((q as u32) * 1000003));
    }
}

#[test]
fn strong_pseudoprimes_are_rejected() {
    let composites: [u64; 13] = [
        2047,
        1373653,
        25326001,
        3215031751,
        4759123141,
        1122004669633,
        2152302898747,
        3474749660383,
        341550071728321,
        3825123056546413051,
        561,
        1105,
        1729,
    ];
    for &c in &composites {
        assert!(!is_prime64(c), "{} is composite", c);
        assert!(!is_prime(c), "{} is composite", c);
        if c <= u32::MAX as u64 {
            assert!(!is_prime32(c as u32), "{} is composite", c);
        }
    }
}

#[test]
fn excluded_pseudoprime_bases() {
    // 3215031751 = 151 * 751 * 28351 passes the bases 2, 3, 5 and 7
    assert_eq!(151u64 * 751 * 28351, 3215031751);
    assert!(sprp32(3215031751, 2));
    assert!(sprp32(3215031751, 3));
    assert!(sprp32(3215031751, 5));
    assert!(sprp32(3215031751, 7));
    assert!(!sprp32(3215031751, 11));
    assert!(!sprp32(3215031751, 61));
}

#[test]
fn sprp32_known_values() {
    // 2047 = 23 * 89 is the least strong pseudoprime to base 2
    assert!(sprp32(2047, 2));
    assert!(!sprp32(2047, 3));
    // a base that the modulus divides is vacuous
    assert!(sprp32(61, 61));
    assert!(sprp32(9, 18));
    // 9: 2^1 = 2, 2^2 = 4, 2^4 = 7 modulo 9, never 8
    assert!(!sprp32(9, 2));
    // 8^1 = -1 modulo 9
    assert!(sprp32(9, 8));
    assert!(sprp32(4294967291, 2));
    assert!(!sprp32(4294967295, 2));
}

#[test]
fn sprp32_agrees_with_naive_exponentiation() {
    let bases: [u32; 6] = [2, 3, 7, 61, 1000, 4294967295];
    let mut n: u32 = 3;
    while n < 3000 {
        for &a in &bases {
            assert_eq!(sprp32(n, a), naive_sprp(n as u64, a as u64), "n = {}, a = {}", n, a);
        }
        n += 2;
    }
}

#[test]
fn composites_above_32_bits_are_rejected() {
    // 2^32 + 1 = 641 * 6700417
    assert!(!is_prime64(4294967297));
    // the product of the two largest primes below 2^32
    assert!(!is_prime64(4294967291 * 4294967279));
    assert!(!is_prime64(18446744073709551615));
    assert!(!is_prime64(18446744073709551555));
    assert!(!is_prime64(1000000007 * 1000000009));
}

#[test]
fn primes_above_32_bits_are_accepted() {
    let primes: [u64; 8] = [
        4294967311,
        4294967357,
        4294967371,
        4294967377,
        4294967387,
        1000000000000000003,
        999999999999999989,
        18446744073709551533,
    ];
    for &p in &primes {
        assert!(is_prime64(p), "{} is prime", p);
    }
}

#[test]
fn is_prime64_agrees_with_trial_division_above_32_bits() {
    let mut n: u64 = 4294967296;
    while n < 4294967296 + 600 {
        assert_eq!(is_prime64(n), trial_division(n), "is_prime64({})", n);
        n += 1;
    }
}

#[test]
fn montgomery_sprp_agrees_with_naive_exponentiation() {
    let moduli: [u64; 12] = [
        4294967297,
        4294967311,
        4294967357,
        18446743979220271189,
        341550071728321,
        3825123056546413051,
        3474749660383,
        1000000000000000003,
        9223372036854775807,
        9223372036854775809,
        18446744073709551557,
        18446744073709551615,
    ];
    for &n in &moduli {
        for &w in &WITNESSES {
            assert_eq!(sprp64(n, w), naive_sprp(n, w), "n = {}, a = {}", n, w);
        }
        assert_eq!(sprp64(n, n), true);
        assert_eq!(sprp64(n, n - 1), naive_sprp(n, n - 1));
        assert_eq!(sprp64(n, 1), true);
    }
    let mut n: u64 = 4294967297;
    while n < 4294967297 + 2000 {
        for &w in &WITNESSES {
            assert_eq!(sprp64(n, w), naive_sprp(n, w), "n = {}, a = {}", n, w);
        }
        n += 2;
    }
}

#[test]
fn montgomery_sprp_on_small_moduli() {
    let mut n: u64 = 3;
    while n < 2000 {
        for &w in &WITNESSES {
            assert_eq!(sprp64(n, w), naive_sprp(n, w), "n = {}, a = {}", n, w);
        }
        n += 2;
    }
}

#[test]
fn montgomery_sprp_known_pseudoprime_bases() {
    // 341550071728321 passes the bases up to 19 and fails 23
    let n: u64 = 341550071728321;
    let passing: [u64; 8] = [2, 3, 5, 7, 11, 13, 17, 19];
    for &a in &passing {
        assert!(sprp64(n, a));
    }
    assert!(!sprp64(n, 23));
    // 3825123056546413051 passes the bases up to 31 and fails 37
    let m: u64 = 3825123056546413051;
    assert!(sprp64(m, 2));
    assert!(sprp64(m, 31));
    assert!(!sprp64(m, 37));
}

#[test]
fn witnesses_are_the_first_twelve_primes() {
    assert_eq!(WITNESSES, [2, 3, 5, 7, 11, 13, 17, 19, 23, 29, 31, 37]);
}
