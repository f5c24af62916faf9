//! Operations on the bits of a word.

use vstd::prelude::*;

verus! {

/// Whether bit `i` of the word is set.
pub open spec fn bit32(x: u32, i: int) -> bool {
    (x >> (i as u32)) & 1 == 1
}

/// Whether bit `i` of the word is set.
pub open spec fn bit64(x: u64, i: int) -> bool {
    (x >> (i as u64)) & 1 == 1
}

/// A word that is not 0 and its negation have the lowest set bit of the word in common,
/// and no other.
proof fn bv_blsi32(x: u32)
    by (bit_vector)
    ensures
        x != 0 ==> !x < 0xffff_ffffu32,
        x != 0 ==> ({
            let l = x & ((!x + 1) as u32);
            l != 0 && l & ((l - 1) as u32) == 0 && x & l == l && x & ((l - 1) as u32) == 0
        }),
{
}

/// A word that is not 0 and its negation have the lowest set bit of the word in common,
/// and no other.
proof fn bv_blsi64(x: u64)
    by (bit_vector)
    ensures
        x != 0 ==> !x < 0xffff_ffff_ffff_ffffu64,
        x != 0 ==> ({
            let l = x & ((!x + 1) as u64);
            l != 0 && l & ((l - 1) as u64) == 0 && x & l == l && x & ((l - 1) as u64) == 0
        }),
{
}

/// The lowest set bit of the word alone: `0b000100` for `0b110100`, and 0 for 0.
///
/// The result has one bit, which is a bit of `x`, and `x` has no bit below it.
pub fn u32_blsi(x: u32) -> (res: u32)
    ensures
        x == 0 ==> res == 0,
        x != 0 ==> res != 0 && res & ((res - 1) as u32) == 0 && x & res == res && x & ((res
            - 1) as u32) == 0,
{
    if x == 0 {
        0
    } else {
        proof {
            bv_blsi32(x);
        }
        x & (!x + 1)
    }
}

/// The lowest set bit of the word alone, and 0 for 0.
///
/// The result has one bit, which is a bit of `x`, and `x` has no bit below it.
pub fn u64_blsi(x: u64) -> (res: u64)
    ensures
        x == 0 ==> res == 0,
        x != 0 ==> res != 0 && res & ((res - 1) as u64) == 0 && x & res == res && x & ((res
            - 1) as u64) == 0,
{
    if x == 0 {
        0
    } else {
        proof {
            bv_blsi64(x);
        }
        x & (!x + 1)
    }
}

/// The places of the set bits of the word, in ascending order.
pub fn u32_one_indexs(x: u32) -> (res: Vec<u32>)
    ensures
        forall|k: int| 0 <= k < res.len() ==> #[trigger] res[k] < 32 && bit32(x, res[k] as int),
        forall|j: int, k: int| 0 <= j < k < res.len() ==> res[j] < res[k],
        forall|i: int| 0 <= i < 32 && bit32(x, i) ==> exists|k: int| 0 <= k < res.len() && #[trigger] res[k] == i,
{
    let mut res: Vec<u32> = Vec::new();
    let mut i: u32 = 0;
    while i < 32
        invariant
            0 <= i <= 32,
            forall|k: int|
                0 <= k < res.len() ==> #[trigger] res[k] < i && bit32(x, res[k] as int),
            forall|j: int, k: int| 0 <= j < k < res.len() ==> res[j] < res[k],
            forall|n: int|
                0 <= n < i && bit32(x, n) ==> exists|k: int| 0 <= k < res.len() && #[trigger] res[k] == n,
        decreases 32 - i,
    {
        if (x >> i) & 1 == 1 {
            let ghost before = res@;
            res.push(i);
            proof {
                assert forall|n: int| 0 <= n < i + 1 && bit32(x, n) implies exists|k: int|
                    0 <= k < res.len() && #[trigger] res[k] == n by {
                    if n < i {
                        let k = choose|k: int| 0 <= k < before.len() && #[trigger] before[k] == n;
                        assert(res[k] == n);
                    } else {
                        assert(res[res.len() - 1] == n);
                    }
                }
            }
        }
        i = i + 1;
    }
    res
}

/// The places of the set bits of the word, in ascending order.
pub fn u64_one_indexs(x: u64) -> (res: Vec<u32>)
    ensures
        forall|k: int| 0 <= k < res.len() ==> #[trigger] res[k] < 64 && bit64(x, res[k] as int),
        forall|j: int, k: int| 0 <= j < k < res.len() ==> res[j] < res[k],
        forall|i: int| 0 <= i < 64 && bit64(x, i) ==> exists|k: int| 0 <= k < res.len() && #[trigger] res[k] == i,
{
    let mut res: Vec<u32> = Vec::new();
    let mut i: u32 = 0;
    while i < 64
        invariant
            0 <= i <= 64,
            forall|k: int|
                0 <= k < res.len() ==> #[trigger] res[k] < i && bit64(x, res[k] as int),
            forall|j: int, k: int| 0 <= j < k < res.len() ==> res[j] < res[k],
            forall|n: int|
                0 <= n < i && bit64(x, n) ==> exists|k: int| 0 <= k < res.len() && #[trigger] res[k] == n,
        decreases 64 - i,
    {
        if (x >> (i as u64)) & 1 == 1 {
            let ghost before = res@;
            res.push(i);
            proof {
                assert forall|n: int| 0 <= n < i + 1 && bit64(x, n) implies exists|k: int|
                    0 <= k < res.len() && #[trigger] res[k] == n by {
                    if n < i {
                        let k = choose|k: int| 0 <= k < before.len() && #[trigger] before[k] == n;
                        assert(res[k] == n);
                    } else {
                        assert(res[res.len() - 1] == n);
                    }
                }
            }
        }
        i = i + 1;
    }
    res
}

/// The power of 2.
pub open spec fn pow2(n: int) -> int
    decreases n,
{
    if n <= 0 {
        1
    } else {
        2 * pow2(n - 1)
    }
}

/// The number of the places below `n` at which the mask has a set bit.
pub open spec fn picked(mask: u64, n: int) -> int
    decreases n,
{
    if n <= 0 {
        0
    } else {
        picked(mask, n - 1) + if bit64(mask, n - 1) {
            1int
        } else {
            0
        }
    }
}

/// The bits of `x` at the places below `n` at which the mask has a set bit, moved
/// together to the low end in their order: the number that they write.
pub open spec fn extracted(x: u64, mask: u64, n: int) -> int
    decreases n,
{
    if n <= 0 {
        0
    } else {
        extracted(x, mask, n - 1) + if bit64(mask, n - 1) && bit64(x, n - 1) {
            pow2(picked(mask, n - 1))
        } else {
            0
        }
    }
}

/// What is extracted below `n` is below the power of 2 of the number of places picked.
pub proof fn lemma_extracted_bound(x: u64, mask: u64, n: int)
    requires
        0 <= n,
    ensures
        0 <= picked(mask, n) <= n,
        0 <= extracted(x, mask, n) < pow2(picked(mask, n)),
    decreases n,
{
    if n > 0 {
        lemma_extracted_bound(x, mask, n - 1);
    }
}

/// The powers of 2 grow.
pub proof fn lemma_pow2_grows(a: int, b: int)
    requires
        0 <= a <= b,
    ensures
        1 <= pow2(a) <= pow2(b),
    decreases b,
{
    if b > a {
        lemma_pow2_grows(a, b - 1);
    } else if a > 0 {
        lemma_pow2_grows(a - 1, a - 1);
    }
}

/// A bit of a 32-bit word is the same bit of the word taken as 64 bits.
proof fn bv_bits_agree(x: u32, i: u32)
    by (bit_vector)
    requires
        i < 32,
    ensures
        ((x >> i) & 1 == 1) == (((x as u64) >> (i as u64)) & 1 == 1),
{
}

/// The bits of `x` at the places at which the mask has a set bit, moved together to
/// the low end in their order.
pub fn u64_pext(x: u64, mask: u64) -> (res: u64)
    ensures
        res == extracted(x, mask, 64),
{
    let mut res: u64 = 0;
    let mut weight: u128 = 1;
    let mut i: u32 = 0;
    while i < 64
        invariant
            0 <= i <= 64,
            weight == pow2(picked(mask, i as int)),
            res == extracted(x, mask, i as int),
            0 <= picked(mask, i as int) <= i,
        decreases 64 - i,
    {
        proof {
            lemma_extracted_bound(x, mask, i as int);
            lemma_extracted_bound(x, mask, i + 1);
            lemma_pow2_grows(picked(mask, i as int), 63);
            lemma_pow2_grows(picked(mask, i + 1), 64);
            lemma_pow2_values();
        }
        if (mask >> (i as u64)) & 1 == 1 {
            if (x >> (i as u64)) & 1 == 1 {
                res = res + (weight as u64);
            }
            weight = weight * 2;
        }
        i = i + 1;
    }
    res
}

/// The bits of `x` at the places at which the mask has a set bit, moved together to
/// the low end in their order.
pub fn u32_pext(x: u32, mask: u32) -> (res: u32)
    ensures
        res == extracted(x as u64, mask as u64, 32),
{
    let mut res: u32 = 0;
    let mut weight: u64 = 1;
    let mut i: u32 = 0;
    while i < 32
        invariant
            0 <= i <= 32,
            weight == pow2(picked(mask as u64, i as int)),
            res == extracted(x as u64, mask as u64, i as int),
            0 <= picked(mask as u64, i as int) <= i,
        decreases 32 - i,
    {
        proof {
            lemma_extracted_bound(x as u64, mask as u64, i as int);
            lemma_extracted_bound(x as u64, mask as u64, i + 1);
            lemma_pow2_grows(picked(mask as u64, i as int), 31);
            lemma_pow2_grows(picked(mask as u64, i + 1), 32);
            lemma_pow2_values();
            bv_bits_agree(x, i);
            bv_bits_agree(mask, i);
        }
        if (mask >> i) & 1 == 1 {
            if (x >> i) & 1 == 1 {
                res = res + (weight as u32);
            }
            weight = weight * 2;
        }
        i = i + 1;
    }
    res
}

/// Four powers of 2.
pub proof fn lemma_pow2_values()
    ensures
        pow2(31) == 0x8000_0000,
        pow2(32) == 0x1_0000_0000,
        pow2(63) == 0x8000_0000_0000_0000,
        pow2(64) == 0x1_0000_0000_0000_0000,
{
    reveal_with_fuel(pow2, 33);
    assert(pow2(32) == 0x1_0000_0000);
    assert(pow2(63) == 0x8000_0000_0000_0000) by {
        lemma_pow2_add(32, 31);
    }
    assert(pow2(64) == 0x1_0000_0000_0000_0000) by {
        lemma_pow2_add(32, 32);
    }
}

/// The power of 2 of a sum is the product of the powers.
pub proof fn lemma_pow2_add(a: int, b: int)
    requires
        0 <= a,
        0 <= b,
    ensures
        pow2(a + b) == pow2(a) * pow2(b),
    decreases b,
{
    if b > 0 {
        lemma_pow2_add(a, b - 1);
        assert(pow2(a + b) == 2 * pow2(a + b - 1));
        assert(2 * (pow2(a) * pow2(b - 1)) == pow2(a) * (2 * pow2(b - 1))) by (nonlinear_arith);
    } else {
        assert(pow2(a) * 1 == pow2(a)) by (nonlinear_arith);
    }
}

} // verus!
