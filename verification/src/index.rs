//! Bucket indices: reduction modulo a power-of-two table size, and the
//! alternate bucket of a fingerprint.

use crate::bucket::BUCKET_SIZE;
use vstd::arithmetic::div_mod::{lemma_mod_breakdown, lemma_small_mod};
use vstd::arithmetic::power::lemma_pow_positive;
use vstd::arithmetic::power2::{is_pow2, is_pow2_equiv, lemma2_to64, lemma2_to64_rest, pow2};
use vstd::prelude::*;

verus! {

/// The bucket that is paired with bucket `b` for a fingerprint whose own hash
/// is `fp_hash`, in a table of `n` buckets.
pub open spec fn alt_bucket(b: usize, fp_hash: usize, n: usize) -> usize {
    ((b ^ fp_hash) % n) as usize
}

/// Whether bucket `b` is `c` or the bucket paired with `c`.
pub open spec fn in_pair(b: usize, c: usize, fp_hash: usize, n: usize) -> bool {
    b == c || b == alt_bucket(c, fp_hash, n)
}

/// Reduction modulo a power of two keeps the low bits.
pub proof fn lemma_mod_is_mask(x: usize, n: usize)
    requires
        is_pow2(n as int),
    ensures
        n > 0,
        x % n == x & ((n - 1) as usize),
    decreases n,
{
    reveal(is_pow2);
    if n == 1 {
        assert(x & 0 == 0) by (bit_vector);
    } else {
        let h: usize = n / 2;
        let y: usize = x / 2;
        lemma_mod_is_mask(y, h);
        lemma_mod_breakdown(x as int, 2, h as int);
        let low: usize = y & ((h - 1) as usize);
        assert(x & ((n - 1) as usize) == 2 * low + x % 2) by (bit_vector)
            requires
                n == 2 * h,
                h >= 1,
                y == x / 2,
                low == y & ((h - 1) as usize),
        ;
    }
}

/// The alternate of an index falls into the bucket paired with the index's own
/// bucket: reducing before or after the exclusive-or makes no difference.
pub proof fn lemma_alt_bucket_of_index(i: usize, fp_hash: usize, n: usize)
    requires
        is_pow2(n as int),
    ensures
        n > 0,
        (i ^ fp_hash) % n == alt_bucket((i % n) as usize, fp_hash, n),
        alt_bucket((i % n) as usize, fp_hash, n) < n,
{
    let m: usize = (n - 1) as usize;
    let r: usize = (i % n) as usize;
    lemma_mod_is_mask(i, n);
    lemma_mod_is_mask((i ^ fp_hash) as usize, n);
    lemma_mod_is_mask((r ^ fp_hash) as usize, n);
    assert((i ^ fp_hash) & m == ((i & m) ^ fp_hash) & m) by (bit_vector);
}

/// Pairing is symmetric: the bucket paired with the pair of `b` is `b`.
pub proof fn lemma_alt_bucket_involution(b: usize, fp_hash: usize, n: usize)
    requires
        is_pow2(n as int),
        b < n,
    ensures
        alt_bucket(b, fp_hash, n) < n,
        alt_bucket(alt_bucket(b, fp_hash, n), fp_hash, n) == b,
{
    let m: usize = (n - 1) as usize;
    let c: usize = alt_bucket(b, fp_hash, n);
    lemma_small_mod(b as nat, n as nat);
    lemma_mod_is_mask(b, n);
    lemma_mod_is_mask((b ^ fp_hash) as usize, n);
    lemma_mod_is_mask((c ^ fp_hash) as usize, n);
    assert((((b ^ fp_hash) & m) ^ fp_hash) & m == b) by (bit_vector)
        requires
            b & m == b,
    ;
}

/// The first number reached from `p` by doubling that is not below `n`.
pub open spec fn doubled_up_to(n: nat, p: nat) -> nat
    decreases (if p < n { n - p } else { 0 }),
{
    if p == 0 || p >= n {
        p
    } else {
        doubled_up_to(n, 2 * p)
    }
}

/// The smallest power of two that is not below `n`.
pub open spec fn next_power_of_two(n: nat) -> nat {
    doubled_up_to(n, 1)
}

/// Number of buckets of a filter made for `cap` items: one slot per item,
/// rounded up to a power of two and shared out `BUCKET_SIZE` to a bucket, but
/// at least one bucket.
pub open spec fn bucket_count_for(cap: nat) -> nat {
    if next_power_of_two(cap) / BUCKET_SIZE as nat == 0 {
        1
    } else {
        next_power_of_two(cap) / BUCKET_SIZE as nat
    }
}

/// Doubling from a power of two stops at a power of two that is not below `n`
/// and, unless it stops at once, is below twice `n`.
pub proof fn lemma_doubled_up_to(n: nat, p: nat)
    requires
        is_pow2(p as int),
    ensures
        is_pow2(doubled_up_to(n, p) as int),
        doubled_up_to(n, p) >= n,
        doubled_up_to(n, p) >= p,
        p < n ==> doubled_up_to(n, p) < 2 * n,
    decreases (if p < n { n - p } else { 0 }),
{
    reveal(is_pow2);
    if p < n {
        lemma_doubled_up_to(n, 2 * p);
    }
}

/// `next_power_of_two(n)` is a power of two, is not below `n`, and is the
/// smallest such: either it is one, or its half is below `n`.
pub proof fn lemma_next_power_of_two(n: nat)
    ensures
        is_pow2(next_power_of_two(n) as int),
        next_power_of_two(n) >= n,
        next_power_of_two(n) == 1 || next_power_of_two(n) < 2 * n,
{
    reveal(is_pow2);
    lemma_doubled_up_to(n, 1);
}

/// Two to the power of 31 and two to the power of 63 are powers of two.
pub proof fn lemma_power_of_two_63()
    ensures
        is_pow2(0x8000_0000),
        is_pow2(0x8000_0000_0000_0000),
{
    lemma2_to64();
    lemma2_to64_rest();
    is_pow2_equiv(0x8000_0000);
    is_pow2_equiv(0x8000_0000_0000_0000);
    lemma_pow_positive(2, 31);
    lemma_pow_positive(2, 63);
    assert(pow2(31) == 0x8000_0000 && pow2(63) == 0x8000_0000_0000_0000);
}

/// Of two powers of two, the larger is at least twice the smaller.
pub proof fn lemma_pow2_gap(a: nat, b: nat)
    requires
        is_pow2(a as int),
        is_pow2(b as int),
        a < b,
    ensures
        2 * a <= b,
    decreases a,
{
    reveal(is_pow2);
    if a > 1 {
        lemma_pow2_gap(a / 2, b / 2);
    }
}

/// No power of two that is not below `n` is smaller than
/// `next_power_of_two(n)`.
pub proof fn lemma_next_power_of_two_least(n: nat, q: nat)
    requires
        is_pow2(q as int),
        q >= n,
    ensures
        next_power_of_two(n) <= q,
{
    reveal(is_pow2);
    lemma_next_power_of_two(n);
    if q < next_power_of_two(n) {
        lemma_pow2_gap(q, next_power_of_two(n));
    }
}

/// The number of buckets made for a capacity is a power of two, and its slots
/// are no more than the capacity rounded up, unless it is the one bucket that
/// there always is.
pub proof fn lemma_bucket_count_for(cap: nat)
    ensures
        is_pow2(bucket_count_for(cap) as int),
        bucket_count_for(cap) * BUCKET_SIZE <= next_power_of_two(cap) || bucket_count_for(cap) == 1,
{
    lemma_next_power_of_two(cap);
    reveal_with_fuel(is_pow2, 3);
}

/// Computes the smallest power of two that is not below `n`.
pub fn round_up_to_power_of_two(n: u64) -> (p: u64)
    requires
        next_power_of_two(n as nat) <= u64::MAX,
    ensures
        p == next_power_of_two(n as nat),
{
    let mut p: u64 = 1;
    proof {
        reveal(is_pow2);
    }
    while p < n
        invariant
            is_pow2(p as int),
            doubled_up_to(n as nat, p as nat) == next_power_of_two(n as nat),
            next_power_of_two(n as nat) <= u64::MAX,
        decreases (if p < n { n - p } else { 0 }),
    {
        proof {
            reveal(is_pow2);
            lemma_doubled_up_to(n as nat, 2 * p as nat);
        }
        p = p * 2;
    }
    p
}

/// Whether `n` is a power of two.
pub fn is_power_of_two(n: usize) -> (r: bool)
    ensures
        r == is_pow2(n as int),
{
    let mut rest = n;
    proof {
        reveal(is_pow2);
    }
    while rest > 1 && rest % 2 == 0
        invariant
            is_pow2(rest as int) == is_pow2(n as int),
        decreases rest,
    {
        proof {
            reveal(is_pow2);
        }
        rest = rest / 2;
    }
    proof {
        reveal(is_pow2);
    }
    rest == 1
}

} // verus!
