//! Split-order keys: a key's bits reversed, so that sorting by them splits every bucket of a
//! power-of-two table into the two buckets of the table twice its size.
use vstd::arithmetic::power2::{lemma2_to64, lemma2_to64_rest, lemma_pow2_strictly_increases, pow2};
use vstd::bits::{low_bits_mask, lemma_u64_low_bits_mask_is_mod, lemma_u64_pow2_no_overflow, lemma_u64_shl_is_mul};
use vstd::prelude::*;

verus! {

/// The lowest `n` bits of `x` in reverse order: bit `i` of `x` becomes bit `n - 1 - i`.
pub open spec fn reverse_low_bits(x: u64, n: nat) -> u64
    decreases n,
{
    if n == 0 {
        0
    } else {
        reverse_low_bits(x >> 1u64, (n - 1) as nat) | ((x & 1u64) << ((n - 1) as u64))
    }
}

/// `x` with its 64 bits in reverse order.
pub open spec fn rev(x: u64) -> u64 {
    reverse_low_bits(x, 64)
}

/// Reversal by swapping ever larger halves: adjacent bits, then pairs, nibbles, bytes, and so
/// on up to the two 32-bit halves.
spec fn swap_halves(x: u64) -> u64 {
    let x = ((x >> 1u64) & 0x5555_5555_5555_5555u64) | ((x & 0x5555_5555_5555_5555u64) << 1u64);
    let x = ((x >> 2u64) & 0x3333_3333_3333_3333u64) | ((x & 0x3333_3333_3333_3333u64) << 2u64);
    let x = ((x >> 4u64) & 0x0f0f_0f0f_0f0f_0f0fu64) | ((x & 0x0f0f_0f0f_0f0f_0f0fu64) << 4u64);
    let x = ((x >> 8u64) & 0x00ff_00ff_00ff_00ffu64) | ((x & 0x00ff_00ff_00ff_00ffu64) << 8u64);
    let x = ((x >> 16u64) & 0x0000_ffff_0000_ffffu64) | ((x & 0x0000_ffff_0000_ffffu64) << 16u64);
    (x >> 32u64) | (x << 32u64)
}

/// Swapping halves reverses the bits.
proof fn lemma_swap_halves(x: u64)
    ensures
        swap_halves(x) == rev(x),
{
    assert(swap_halves(x) == reverse_low_bits(x, 64)) by (bit_vector);
}

/// Bit `i` of `rev(x)` is bit `63 - i` of `x`.
pub proof fn lemma_rev_bit(x: u64, i: u64)
    requires
        i < 64,
    ensures
        (rev(x) >> i) & 1 == (x >> (63 - i) as u64) & 1,
{
    assert((rev(x) >> i) & 1 == (x >> (63 - i) as u64) & 1) by (bit_vector)
        requires
            i < 64,
    ;
}

/// Reversing twice gives back the value.
pub proof fn lemma_rev_rev(x: u64)
    ensures
        rev(rev(x)) == x,
{
    assert(rev(rev(x)) == x) by (bit_vector);
}

/// The lowest bit of `rev(x)` is the highest bit of `x`.
pub proof fn lemma_rev_low_bit(x: u64)
    ensures
        rev(x) & 1 == x >> 63,
{
    assert(rev(x) & 1 == x >> 63) by (bit_vector);
}

/// Reversal keeps one value's bits among another's.
pub proof fn lemma_rev_subset(x: u64, y: u64)
    requires
        x & y == x,
    ensures
        rev(x) & rev(y) == rev(x),
{
    assert(rev(x) & rev(y) == rev(x)) by (bit_vector)
        requires
            x & y == x,
    ;
}

/// The highest bit of a 64-bit word.
pub const HIGH_BIT: u64 = 0x8000_0000_0000_0000;

/// The split-order key of a stored key: the key with its highest bit set, reversed. It is odd.
pub open spec fn regular_key_spec(key: u64) -> u64 {
    rev(key | HIGH_BIT)
}

/// The split-order key of the sentinel that starts bucket `bucket`: the bucket reversed. It
/// is even.
pub open spec fn dummy_key_spec(bucket: u64) -> u64 {
    if bucket == 0 {
        0
    } else {
        rev(bucket)
    }
}

/// `x` with its 64 bits in reverse order.
pub fn reverse_bits(x: u64) -> (r: u64)
    ensures
        r == rev(x),
{
    proof {
        lemma_swap_halves(x);
    }
    let x = ((x >> 1u64) & 0x5555_5555_5555_5555u64) | ((x & 0x5555_5555_5555_5555u64) << 1u64);
    let x = ((x >> 2u64) & 0x3333_3333_3333_3333u64) | ((x & 0x3333_3333_3333_3333u64) << 2u64);
    let x = ((x >> 4u64) & 0x0f0f_0f0f_0f0f_0f0fu64) | ((x & 0x0f0f_0f0f_0f0f_0f0fu64) << 4u64);
    let x = ((x >> 8u64) & 0x00ff_00ff_00ff_00ffu64) | ((x & 0x00ff_00ff_00ff_00ffu64) << 8u64);
    let x = ((x >> 16u64) & 0x0000_ffff_0000_ffffu64) | ((x & 0x0000_ffff_0000_ffffu64) << 16u64);
    (x >> 32u64) | (x << 32u64)
}

/// Regular split-order keys are odd and sentinel ones are even, so they never meet.
pub proof fn lemma_key_parity(key: u64, bucket: u64)
    requires
        bucket < HIGH_BIT,
    ensures
        regular_key_spec(key) & 1 == 1,
        dummy_key_spec(bucket) & 1 == 0,
{
    lemma_rev_low_bit(key | HIGH_BIT);
    lemma_rev_low_bit(bucket);
    assert((key | HIGH_BIT) >> 63 == 1) by (bit_vector);
    assert(bucket < HIGH_BIT ==> bucket >> 63 == 0) by (bit_vector);
    assert(0u64 & 1 == 0) by (bit_vector);
}

/// Different keys below the highest bit have different split-order keys.
pub proof fn lemma_regular_key_injective(a: u64, b: u64)
    requires
        a < HIGH_BIT,
        b < HIGH_BIT,
        regular_key_spec(a) == regular_key_spec(b),
    ensures
        a == b,
{
    lemma_rev_rev(a | HIGH_BIT);
    lemma_rev_rev(b | HIGH_BIT);
    assert(a < HIGH_BIT && b < HIGH_BIT && (a | HIGH_BIT) == (b | HIGH_BIT) ==> a == b)
        by (bit_vector);
}

/// Different buckets below the highest bit have different sentinel keys.
pub proof fn lemma_dummy_key_injective(a: u64, b: u64)
    requires
        dummy_key_spec(a) == dummy_key_spec(b),
    ensures
        a == b,
{
    lemma_rev_rev(a);
    lemma_rev_rev(b);
    lemma_rev_rev(0);
    assert(rev(0) == 0) by (bit_vector);
}

/// One value's bits among another's, and a different value, is a smaller value.
proof fn lemma_subset_less(a: u64, b: u64)
    requires
        a & b == a,
        a != b,
    ensures
        a < b,
{
    assert(a & b == a && a != b ==> a < b) by (bit_vector);
}

/// A sentinel key whose bucket's bits lie among a key's bits comes before that key's
/// split-order key.
pub proof fn lemma_dummy_before_regular(bucket: u64, key: u64)
    requires
        bucket & key == bucket,
        key < HIGH_BIT,
    ensures
        dummy_key_spec(bucket) < regular_key_spec(key),
{
    let k = key | HIGH_BIT;
    assert(bucket & key == bucket ==> bucket & (key | HIGH_BIT) == bucket) by (bit_vector);
    assert(bucket & key == bucket && key < HIGH_BIT ==> bucket < HIGH_BIT) by (bit_vector);
    lemma_key_parity(key, bucket);
    if bucket == 0 {
        assert(regular_key_spec(key) & 1 == 1 ==> 0 < regular_key_spec(key)) by (bit_vector);
    } else {
        lemma_rev_subset(bucket, k);
        lemma_subset_less(rev(bucket), rev(k));
    }
}

/// The sentinel of a bucket comes after the sentinel of a bucket whose bits lie among its
/// own.
pub proof fn lemma_dummy_before_dummy(parent: u64, bucket: u64)
    requires
        parent & bucket == parent,
        parent != bucket,
    ensures
        dummy_key_spec(parent) < dummy_key_spec(bucket),
{
    lemma_rev_rev(parent);
    lemma_rev_rev(bucket);
    assert(rev(0) == 0) by (bit_vector);
    lemma_rev_subset(parent, bucket);
    lemma_subset_less(rev(parent), rev(bucket));
}

/// Below a power of two, the remainder of a key is made of some of the key's bits.
pub proof fn lemma_bucket_bits(key: u64, log_size: nat)
    requires
        log_size < 64,
    ensures
        (key % (pow2(log_size) as u64)) & key == key % (pow2(log_size) as u64),
{
    lemma_u64_low_bits_mask_is_mod(key, log_size);
    let m = low_bits_mask(log_size) as u64;
    assert((key & m) & key == key & m) by (bit_vector);
}

/// Every key of a bucket of a power-of-two table comes, in split order, after the bucket's
/// sentinel.
pub proof fn lemma_bucket_before_key(key: u64, log_size: nat)
    requires
        log_size < 64,
        key < HIGH_BIT,
    ensures
        dummy_key_spec(key % (pow2(log_size) as u64)) < regular_key_spec(key),
{
    lemma_bucket_bits(key, log_size);
    lemma_dummy_before_regular(key % (pow2(log_size) as u64), key);
}

/// `lemma_bucket_run` with the bucket taken by a mask.
proof fn lemma_bucket_run_bits(key: u64, other: u64, log_size: u64)
    requires
        log_size < 64,
        key < HIGH_BIT,
        other < (1u64 << log_size),
        other != key & (((1u64 << log_size) - 1) as u64),
    ensures
        !(rev(key & (((1u64 << log_size) - 1) as u64)) < rev(other) && rev(other) < regular_key_spec(key)),
{
    assert(log_size < 64 && key < HIGH_BIT && other < (1u64 << log_size) && other != key & (((1u64
        << log_size) - 1) as u64) ==> !(rev(key & (((1u64 << log_size) - 1) as u64)) < rev(other)
        && rev(other) < rev(key | HIGH_BIT))) by (bit_vector);
}

/// No other bucket's sentinel lies between a key and the sentinel of its bucket, in a table
/// of `2^log_size` buckets: the stretch of the list from a bucket's sentinel up to one of its
/// keys holds no other bucket's sentinel.
pub proof fn lemma_bucket_run(key: u64, other: u64, log_size: nat)
    requires
        log_size < 64,
        key < HIGH_BIT,
        other < pow2(log_size),
        other != key % (pow2(log_size) as u64),
    ensures
        !(dummy_key_spec(key % (pow2(log_size) as u64)) < dummy_key_spec(other)
            && dummy_key_spec(other) < regular_key_spec(key)),
{
    lemma_u64_pow2_no_overflow(log_size);
    lemma_u64_shl_is_mul(1, log_size as u64);
    lemma_u64_low_bits_mask_is_mod(key, log_size);
    assert(rev(0) == 0) by (bit_vector);
    lemma_bucket_run_bits(key, other, log_size as u64);
}

/// The split-order keys of a table of `2^log_size` buckets: item keys are odd and sentinel
/// keys even, different keys have different item keys, a key comes after the sentinel of its
/// bucket, and a sentinel of another bucket that comes before the key comes before the key's
/// own bucket's sentinel too, so the key lies in its bucket's stretch of the list.
pub proof fn lemma_split_order(key: u64, key2: u64, other: u64, log_size: nat)
    requires
        1 <= log_size < 64,
        key < HIGH_BIT,
        key2 < HIGH_BIT,
        other < pow2(log_size),
    ensures
        regular_key_spec(key) % 2 == 1,
        dummy_key_spec(other) % 2 == 0,
        regular_key_spec(key) == regular_key_spec(key2) ==> key == key2,
        dummy_key_spec(key % (pow2(log_size) as u64)) < regular_key_spec(key),
        other != key % (pow2(log_size) as u64) && dummy_key_spec(other) < regular_key_spec(key)
            ==> dummy_key_spec(other) < dummy_key_spec(key % (pow2(log_size) as u64)),
{
    lemma2_to64();
    lemma2_to64_rest();
    if log_size < 63 {
        lemma_pow2_strictly_increases(log_size, 63);
    }
    lemma_key_parity(key, other);
    let r = regular_key_spec(key);
    let d = dummy_key_spec(other);
    assert(r & 1 == 1 ==> r % 2 == 1) by (bit_vector);
    assert(d & 1 == 0 ==> d % 2 == 0) by (bit_vector);
    if regular_key_spec(key) == regular_key_spec(key2) {
        lemma_regular_key_injective(key, key2);
    }
    lemma_bucket_before_key(key, log_size);
    let b = key % (pow2(log_size) as u64);
    if other != b && d < r {
        lemma_bucket_run(key, other, log_size);
        if dummy_key_spec(other) == dummy_key_spec(b) {
            lemma_dummy_key_injective(other, b);
        }
    }
}

} // verus!
