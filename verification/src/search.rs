//! The nearest accepted number at or above, and at or below, a starting
//! point, found by a scan over the odd numbers.

use vstd::prelude::*;
use crate::fermat::{lemma_prime_accepted32, lemma_prime_accepted64};
use crate::primality::{is_prime32, is_prime64};
use crate::theory::{accepted32, accepted64, prime};

verus! {

/// Returns the least number from `n` up that the 32-bit test accepts, or 0
/// when no 32-bit number from `n` up is accepted. The search starts at
/// `n` itself, and it passes over no prime.
pub fn next_prime32(n: u32) -> (p: u32)
    ensures
        p == 0 <==> forall|k: int| n <= k <= u32::MAX ==> !accepted32(k),
        p != 0 ==> n <= p && accepted32(p as int),
        p != 0 ==> forall|k: int| n <= k < p ==> !accepted32(k),
        p != 0 ==> forall|k: int| n <= k < p ==> !prime(k),
        p == 0 ==> forall|k: int| n <= k <= u32::MAX ==> !prime(k),
        accepted32(n as int) || prime(n as int) ==> p == n,
{
    if n <= 2 {
        assert(accepted32(2));
        proof {
            lemma_no_prime_where_none_accepted32(n as int, 2);
            lemma_no_prime_below_two(n as int);
        }
        return 2;
    }
    assert(n & 1 == n % 2) by (bit_vector);
    let mut c: u32 = if n & 1 == 0 {
        n + 1
    } else {
        n
    };
    while !is_prime32(c)
        invariant
            3 <= n <= c,
            c % 2 == 1,
            forall|k: int| n <= k < c ==> !accepted32(k),
        decreases u32::MAX - c,
    {
        let ghost rejected: u32 = c;
        c = c.wrapping_add(2);
        if c < 2 {
            assert(rejected == u32::MAX);
            proof {
                lemma_no_prime_where_none_accepted32(n as int, u32::MAX + 1);
            }
            return 0;
        }
        assert(!accepted32(rejected + 1));
    }
    proof {
        lemma_no_prime_where_none_accepted32(n as int, c as int);
        if prime(n as int) {
            lemma_prime_accepted32(n as int);
        }
    }
    c
}

/// Returns the greatest number from `n` down that the 32-bit test accepts,
/// or 0 when `n` is below 2 and there is none. The search starts at `n`
/// itself, and it passes over no prime.
pub fn prev_prime32(n: u32) -> (p: u32)
    ensures
        p == 0 <==> n < 2,
        n >= 2 ==> 2 <= p <= n && accepted32(p as int),
        forall|k: int| p < k <= n ==> !accepted32(k),
        forall|k: int| p < k <= n ==> !prime(k),
        accepted32(n as int) || prime(n as int) ==> p == n,
{
    if n < 2 {
        proof {
            lemma_no_prime_where_none_accepted32(1, n as int + 1);
        }
        return 0;
    }
    if n == 2 {
        return 2;
    }
    assert(n & 1 == n % 2) by (bit_vector);
    let mut c: u32 = if n & 1 == 0 {
        n - 1
    } else {
        n
    };
    while !is_prime32(c)
        invariant
            3 <= c <= n,
            c % 2 == 1,
            forall|k: int| c < k <= n ==> !accepted32(k),
        decreases c,
    {
        if c < 3 {
            return 2;
        }
        assert(!accepted32(c - 1));
        c -= 2;
    }
    proof {
        lemma_no_prime_where_none_accepted32(c as int + 1, n as int + 1);
        if prime(n as int) {
            lemma_prime_accepted32(n as int);
        }
    }
    c
}

/// Where the 32-bit test accepts nothing from `lo` up to `hi`, there is no
/// prime either.
pub proof fn lemma_no_prime_where_none_accepted32(lo: int, hi: int)
    requires
        forall|k: int| lo <= k < hi ==> !accepted32(k),
    ensures
        forall|k: int| lo <= k < hi ==> !prime(k),
{
    assert forall|k: int| lo <= k < hi implies !prime(k) by {
        if prime(k) {
            lemma_prime_accepted32(k);
        }
    }
}

/// Returns the least number from `n` up that the 64-bit test accepts, or 0
/// when no 64-bit number from `n` up is accepted. The search starts at
/// `n` itself, and it passes over no prime.
pub fn next_prime64(n: u64) -> (p: u64)
    ensures
        p == 0 <==> forall|k: int| n <= k <= u64::MAX ==> !accepted64(k),
        p != 0 ==> n <= p && accepted64(p as int),
        p != 0 ==> forall|k: int| n <= k < p ==> !accepted64(k),
        p != 0 ==> forall|k: int| n <= k < p ==> !prime(k),
        p == 0 ==> forall|k: int| n <= k <= u64::MAX ==> !prime(k),
        accepted64(n as int) || prime(n as int) ==> p == n,
{
    if n <= 2 {
        assert(accepted64(2));
        proof {
            lemma_no_prime_where_none_accepted64(n as int, 2);
            lemma_no_prime_below_two(n as int);
        }
        return 2;
    }
    assert(n & 1 == n % 2) by (bit_vector);
    let mut c: u64 = if n & 1 == 0 {
        n + 1
    } else {
        n
    };
    while !is_prime64(c)
        invariant
            3 <= n <= c,
            c % 2 == 1,
            forall|k: int| n <= k < c ==> !accepted64(k),
        decreases u64::MAX - c,
    {
        let ghost rejected: u64 = c;
        c = c.wrapping_add(2);
        if c < 2 {
            assert(rejected == u64::MAX);
            proof {
                lemma_no_prime_where_none_accepted64(n as int, u64::MAX + 1);
            }
            return 0;
        }
        assert(!accepted64(rejected + 1));
    }
    proof {
        lemma_no_prime_where_none_accepted64(n as int, c as int);
        if prime(n as int) {
            lemma_prime_accepted64(n as int);
        }
    }
    c
}

/// Returns the greatest number from `n` down that the 64-bit test accepts,
/// or 0 when `n` is below 2 and there is none. The search starts at `n`
/// itself, and it passes over no prime.
pub fn prev_prime64(n: u64) -> (p: u64)
    ensures
        p == 0 <==> n < 2,
        n >= 2 ==> 2 <= p <= n && accepted64(p as int),
        forall|k: int| p < k <= n ==> !accepted64(k),
        forall|k: int| p < k <= n ==> !prime(k),
        accepted64(n as int) || prime(n as int) ==> p == n,
{
    if n < 2 {
        proof {
            lemma_no_prime_where_none_accepted64(1, n as int + 1);
        }
        return 0;
    }
    if n == 2 {
        return 2;
    }
    assert(n & 1 == n % 2) by (bit_vector);
    let mut c: u64 = if n & 1 == 0 {
        n - 1
    } else {
        n
    };
    while !is_prime64(c)
        invariant
            3 <= c <= n,
            c % 2 == 1,
            forall|k: int| c < k <= n ==> !accepted64(k),
        decreases c,
    {
        if c < 3 {
            return 2;
        }
        assert(!accepted64(c - 1));
        c -= 2;
    }
    proof {
        lemma_no_prime_where_none_accepted64(c as int + 1, n as int + 1);
        if prime(n as int) {
            lemma_prime_accepted64(n as int);
        }
    }
    c
}

/// Where the 64-bit test accepts nothing from `lo` up to `hi`, there is no
/// prime either.
pub proof fn lemma_no_prime_where_none_accepted64(lo: int, hi: int)
    requires
        forall|k: int| lo <= k < hi ==> !accepted64(k),
    ensures
        forall|k: int| lo <= k < hi ==> !prime(k),
{
    assert forall|k: int| lo <= k < hi implies !prime(k) by {
        if prime(k) {
            lemma_prime_accepted64(k);
        }
    }
}

/// No number below 2 is prime.
proof fn lemma_no_prime_below_two(n: int)
    ensures
        forall|k: int| n <= k < 2 ==> !prime(k),
{
}

} // verus!
