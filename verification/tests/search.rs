use smcprime::{
    is_prime, is_prime32, is_prime64, next_prime, next_prime32, next_prime64, prev_prime,
    prev_prime32, prev_prime64,
};

#[test]
fn test_next_prime() {
    assert_eq!(next_prime(0), 2);
    assert_eq!(next_prime(2), 2);
    assert_eq!(next_prime(3), 3);
    assert_eq!(next_prime(4), 5);
    assert_eq!(next_prime(100), 101);
}

#[test]
fn test_prev_prime() {
    assert_eq!(prev_prime(2), 2);
    assert_eq!(prev_prime(3), 3);
    assert_eq!(prev_prime(4), 3);
    assert_eq!(prev_prime(100), 97);
}

#[test]
fn next_prime_low_boundary() {
    assert_eq!(next_prime32(0), 2);
    assert_eq!(next_prime32(1), 2);
    assert_eq!(next_prime32(2), 2);
    assert_eq!(next_prime64(0), 2);
    assert_eq!(next_prime64(1), 2);
    assert_eq!(next_prime64(2), 2);
    assert_eq!(next_prime(1), 2);
}

#[test]
fn prev_prime_low_boundary() {
    assert_eq!(prev_prime32(0), 0);
    assert_eq!(prev_prime32(1), 0);
    assert_eq!(prev_prime32(2), 2);
    assert_eq!(prev_prime32(3), 3);
    assert_eq!(prev_prime32(4), 3);
    assert_eq!(prev_prime64(0), 0);
    assert_eq!(prev_prime64(1), 0);
    assert_eq!(prev_prime64(2), 2);
    assert_eq!(prev_prime(0), 0);
    assert_eq!(prev_prime(1), 0);
}

#[test]
fn search_is_inclusive_at_primes() {
    let primes: [u64; 12] = [
        2,
        3,
        5,
        7,
        97,
        101,
        1000000007,
        4294967291,
        4294967311,
        1000000000000000003,
        18446744073709551533,
        18446744073709551557,
    ];
    for &p in &primes {
        assert_eq!(next_prime(p), p);
        assert_eq!(prev_prime(p), p);
        assert_eq!(next_prime64(p), p);
        assert_eq!(prev_prime64(p), p);
        if p <= u32::MAX as u64 {
            assert_eq!(next_prime32(p as u32), p as u32);
            assert_eq!(prev_prime32(p as u32), p as u32);
        }
    }
}

#[test]
fn next_prime_is_the_nearest_prime_above() {
    let mut n: u64 = 0;
    while n <= 3000 {
        let p: u64 = next_prime(n);
        assert!(p >= n);
        assert!(is_prime(p));
        let mut k: u64 = n;
        while k < p {
            assert!(!is_prime(k), "{} lies between {} and {}", k, n, p);
            k += 1;
        }
        assert_eq!(next_prime32(n as u32) as u64, p);
        assert_eq!(next_prime64(n), p);
        n += 1;
    }
}

#[test]
fn prev_prime_is_the_nearest_prime_below() {
    let mut n: u64 = 2;
    while n <= 3000 {
        let p: u64 = prev_prime(n);
        assert!(p <= n);
        assert!(p >= 2);
        assert!(is_prime(p));
        let mut k: u64 = p + 1;
        while k <= n {
            assert!(!is_prime(k), "{} lies between {} and {}", k, p, n);
            k += 1;
        }
        assert_eq!(prev_prime32(n as u32) as u64, p);
        assert_eq!(prev_prime64(n), p);
        n += 1;
    }
}

#[test]
fn next_prime_exact_values() {
    assert_eq!(next_prime32(1000), 1009);
    assert_eq!(next_prime32(8), 11);
    assert_eq!(next_prime32(9), 11);
    assert_eq!(next_prime32(90), 97);
    assert_eq!(next_prime64(1000000000000000000), 1000000000000000003);
    assert_eq!(next_prime64(4294967292), 4294967311);
    assert_eq!(next_prime64(18446744073709551516), 18446744073709551521);
    assert_eq!(next_prime64(18446744073709551534), 18446744073709551557);
}

#[test]
fn prev_prime_exact_values() {
    assert_eq!(prev_prime32(1000), 997);
    assert_eq!(prev_prime32(10), 7);
    assert_eq!(prev_prime32(9), 7);
    assert_eq!(prev_prime32(4294967295), 4294967291);
    assert_eq!(prev_prime64(1000000000000000000), 999999999999999989);
    assert_eq!(prev_prime64(4294967296), 4294967291);
    assert_eq!(prev_prime64(4294967310), 4294967291);
    assert_eq!(prev_prime64(18446744073709551615), 18446744073709551557);
}

#[test]
fn next_prime_skips_the_pseudoprime() {
    assert!(!is_prime32(3215031751));
    assert!(next_prime32(3215031751) > 3215031751);
    assert!(is_prime32(next_prime32(3215031751)));
    assert_eq!(next_prime64(3215031751), next_prime32(3215031751) as u64);
    assert!(prev_prime32(3215031751) < 3215031751);
    assert_eq!(prev_prime64(3215031751), prev_prime32(3215031751) as u64);
}

#[test]
fn next_prime32_at_the_top_of_the_range() {
    assert_eq!(next_prime32(4294967280), 4294967291);
    assert_eq!(next_prime32(4294967291), 4294967291);
    assert_eq!(next_prime32(4294967292), 0);
    assert_eq!(next_prime32(4294967293), 0);
    assert_eq!(next_prime32(4294967294), 0);
    assert_eq!(next_prime32(4294967295), 0);
}

#[test]
fn next_prime64_at_the_top_of_the_range() {
    assert_eq!(next_prime64(18446744073709551557), 18446744073709551557);
    assert_eq!(next_prime64(18446744073709551558), 0);
    assert_eq!(next_prime64(18446744073709551559), 0);
    assert_eq!(next_prime64(18446744073709551614), 0);
    assert_eq!(next_prime64(18446744073709551615), 0);
    assert_eq!(next_prime(18446744073709551615), 0);
    assert!(!is_prime64(0));
}
