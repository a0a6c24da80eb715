//! Deterministic primality testing and adjacent-prime search for unsigned
//! integers of 32 and 64 bits.
//!
//! The tests are Miller-Rabin tests with fixed bases. Their contracts say
//! exactly which numbers they accept, in terms of the strong probable-prime
//! condition, and that they accept every prime. The searches return the
//! nearest accepted number and pass over no prime.

pub mod theory;
pub mod fermat;
pub mod arith32;
pub mod montgomery;
pub mod sprp;
pub mod primality;
pub mod search;

use vstd::prelude::*;

pub use crate::primality::{is_prime32, is_prime64};
pub use crate::search::{next_prime32, next_prime64, prev_prime32, prev_prime64};
use crate::theory::{accepted32, accepted64, prime};

verus! {

/// Tests a number at the default width of 64 bits.
pub fn is_prime(n: u64) -> (r: bool)
    ensures
        r == accepted64(n as int),
        n <= u32::MAX ==> r == accepted32(n as int),
        prime(n as int) ==> r,
{
    is_prime64(n)
}

/// Searches upward from `n` at the default width of 64 bits.
pub fn next_prime(n: u64) -> (p: u64)
    ensures
        p == 0 <==> forall|k: int| n <= k <= u64::MAX ==> !accepted64(k),
        p != 0 ==> n <= p && accepted64(p as int),
        p != 0 ==> forall|k: int| n <= k < p ==> !accepted64(k),
        p != 0 ==> forall|k: int| n <= k < p ==> !prime(k),
        p == 0 ==> forall|k: int| n <= k <= u64::MAX ==> !prime(k),
        accepted64(n as int) || prime(n as int) ==> p == n,
{
    next_prime64(n)
}

/// Searches downward from `n` at the default width of 64 bits.
pub fn prev_prime(n: u64) -> (p: u64)
    ensures
        p == 0 <==> n < 2,
        n >= 2 ==> 2 <= p <= n && accepted64(p as int),
        forall|k: int| p < k <= n ==> !accepted64(k),
        forall|k: int| p < k <= n ==> !prime(k),
        accepted64(n as int) || prime(n as int) ==> p == n,
{
    prev_prime64(n)
}

} // verus!
