//! Random sorted block generation, for exercising the block codec.
//!
//! A generated block starts at zero, never decreases, and keeps every delta
//! between adjacent SIMD rows within a requested bit length; the delta
//! between the first two rows is exactly the largest such delta, so the
//! width detector reports the requested bit length back.

use vstd::prelude::*;

verus! {

use vstd::arithmetic::power2::{pow2, lemma2_to64};
use crate::blk::row_dlt;

/// The largest delta allowed between adjacent rows at a bit length.
pub open spec fn dlt_max_spec(bit_len: nat) -> nat {
    if bit_len >= 32 {
        u32::MAX as nat
    } else {
        (pow2(bit_len) - 1) as nat
    }
}

/// Draws a number below `max_excl` from the thread's random generator.
///
/// Relies on rand's `Rng::gen_range` over the half-open range
/// `0..max_excl`: the drawn value always lies inside the range.
#[verifier::external_body]
fn rnd_below(max_excl: u32) -> (r: u32)
    requires
        max_excl > 0,
    ensures
        r < max_excl,
{
    rand::Rng::gen_range(&mut rand::thread_rng(), 0..max_excl)
}

/// The largest row delta at `bit_len`, as a machine word.
fn dlt_max_of(bit_len: u8) -> (r: u32)
    requires
        1 <= bit_len <= 32,
    ensures
        r as nat == dlt_max_spec(bit_len as nat),
{
    if bit_len >= 32 {
        u32::MAX
    } else {
        proof {
            vstd::bits::lemma_u32_pow2_no_overflow(bit_len as nat);
            vstd::bits::lemma_u32_shl_is_mul(1u32, bit_len as u32);
            vstd::arithmetic::power2::lemma_pow2_pos(bit_len as nat);
        }
        (1u32 << (bit_len as u32)) - 1
    }
}

/// Sorts the eight drawn deltas ascending, by adjacent swaps, so the lanes
/// consume them in increasing order.
fn sort8(v: &mut Vec<u32>)
    requires
        old(v)@.len() == 8,
    ensures
        final(v)@.len() == 8,
        forall|i: int, j: int| 0 <= i <= j < 8 ==> final(v)@[i] <= final(v)@[j],
{
    let mut i: usize = 1;
    while i < 8
        invariant
            v@.len() == 8,
            1 <= i <= 8,
            forall|a: int, c: int| 0 <= a <= c < i ==> v@[a] <= v@[c],
        decreases 8 - i,
    {
        let mut k: usize = i;
        while k > 0 && v[k - 1] > v[k]
            invariant
                v@.len() == 8,
                k <= i < 8,
                forall|a: int, c: int| 0 <= a <= c < i + 1 && c != k ==> v@[a] <= v@[c],
                k < i ==> v@[k as int] <= v@[k + 1],
            decreases k,
        {
            let x = v[k - 1];
            let y = v[k];
            v.set(k - 1, y);
            v.set(k, x);
            k = k - 1;
        }
        proof {
            assert forall|a: int, c: int| 0 <= a <= c < i + 1 implies v@[a] <= v@[c] by {
                if c == k && k > 0 && a < c {
                    assert(v@[a] <= v@[k - 1]);
                }
            }
        }
        i = i + 1;
    }
}

/// `gen_blk` generates a sorted block of u32 values.
///
/// The maximum difference between adjacent SIMD rows is the specified
/// bit-length. At least one difference has the maximum for the bit-length.
/// The starting value is zero.
#[verifier::rlimit(100)]
pub fn gen_blk(blk_len: usize, bit_len: u8) -> (r: Vec<u32>)
    requires
        blk_len >= 16,
        blk_len % 8 == 0,
        bit_len <= 32,
    ensures
        r@.len() == blk_len,
        forall|l: int| 0 <= l < 8 ==> r@[l] == 0,
        bit_len == 0 ==> forall|i: int| 0 <= i < blk_len ==> r@[i] == 0,
        bit_len > 0 ==> forall|l: int|
            0 <= l < 8 ==> (#[trigger] r@[8 + l]) as nat == dlt_max_spec(bit_len as nat),
        forall|i: int, j: int| 0 <= i <= j < blk_len ==> r@[i] <= r@[j],
        forall|e: int, l: int|
            1 <= e < blk_len as int / 8 && 0 <= l < 8 ==> (#[trigger] r@[e * 8 + l]) - r@[(e
                - 1) * 8 + l] <= dlt_max_spec(bit_len as nat),
{
    // Initialize a vector filled with zeros
    let mut blk: Vec<u32> = Vec::new();
    let mut z: usize = 0;
    while z < blk_len
        invariant
            z <= blk_len,
            blk@.len() == z,
            forall|i: int| 0 <= i < z ==> blk@[i] == 0,
        decreases blk_len - z,
    {
        blk.push(0);
        z = z + 1;
    }

    // Return all zeros when bit-length is zero
    if bit_len == 0 {
        proof {
            lemma_gen_rows(blk@, blk_len as int, 0);
        }
        return blk;
    }

    // The random number is the difference between generated values
    let max_excl = if bit_len < 32 {
        proof {
            vstd::bits::lemma_u32_pow2_no_overflow(bit_len as nat);
            vstd::bits::lemma_u32_shl_is_mul(1u32, bit_len as u32);
            vstd::arithmetic::power2::lemma_pow2_pos(bit_len as nat);
        }
        1u32 << (bit_len as u32)
    } else {
        u32::MAX
    };
    let dlt_max = dlt_max_of(bit_len);
    proof {
        vstd::arithmetic::power2::lemma_pow2_pos(bit_len as nat);
    }

    // Start the second SIMD vector with the maximum difference from the
    // first, so the block holds at least one difference at the bit-length
    let mut idx: usize = 8;
    while idx < 16
        invariant
            8 <= idx <= 16,
            blk@.len() == blk_len,
            blk_len >= 16,
            forall|i: int| 0 <= i < 8 ==> blk@[i] == 0,
            forall|i: int| 8 <= i < idx ==> blk@[i] == dlt_max,
            forall|i: int| idx <= i < blk_len ==> blk@[i] == 0,
        decreases 16 - idx,
    {
        blk.set(idx, dlt_max);
        idx = idx + 1;
    }

    // Determine the number of SIMD vectors
    let smd_len: usize = blk_len / 8;

    // Produce ascending values row by row; the maximum difference between
    // rows has the given bit-length. Once the word's ceiling is reached the
    // value repeats, giving differences of zero.
    let mut smd_idx: usize = 2;
    while smd_idx < smd_len
        invariant
            2 <= smd_idx <= smd_len,
            smd_len == blk_len / 8,
            blk_len % 8 == 0,
            blk_len >= 16,
            blk_len as int == 8 * (smd_len as int),
            blk@.len() == blk_len,
            dlt_max as nat == dlt_max_spec(bit_len as nat),
            forall|i: int| 0 <= i < 8 ==> blk@[i] == 0,
            forall|i: int| 8 <= i < 16 ==> blk@[i] == dlt_max,
            max_excl > 0,
            forall|i: int, j: int| 0 <= i <= j < smd_idx * 8 ==> blk@[i] <= blk@[j],
            forall|i: int|
                8 <= i < smd_idx * 8 ==> (#[trigger] blk@[i]) - blk@[i - 8] <= dlt_max,
            forall|i: int| smd_idx * 8 <= i < blk_len ==> blk@[i] == 0,
        decreases smd_len - smd_idx,
    {
        let mut rnds: Vec<u32> = Vec::new();
        let mut d: usize = 0;
        while d < 8
            invariant
                d <= 8,
                rnds@.len() == d,
                max_excl > 0,
            decreases 8 - d,
        {
            rnds.push(rnd_below(max_excl));
            d = d + 1;
        }
        sort8(&mut rnds);

        let mut lne_idx: usize = 0;
        let row_base = smd_idx * 8;
        proof {
            assert(row_base + 8 <= blk_len as int) by {
                vstd::arithmetic::mul::lemma_mul_inequality(
                    smd_idx as int + 1,
                    smd_len as int,
                    8,
                );
                vstd::arithmetic::mul::lemma_mul_is_commutative(smd_idx as int + 1, 8);
                vstd::arithmetic::mul::lemma_mul_is_commutative(smd_len as int, 8);
                vstd::arithmetic::mul::lemma_mul_is_distributive_add_other_way(
                    8,
                    smd_idx as int,
                    1,
                );
            }
            assert(16 <= row_base) by {
                vstd::arithmetic::mul::lemma_mul_inequality(2, smd_idx as int, 8);
                vstd::arithmetic::mul::lemma_mul_is_commutative(smd_idx as int, 8);
            }
        }
        while lne_idx < 8
            invariant
                lne_idx <= 8,
                row_base as int == smd_idx as int * 8,
                16 <= row_base,
                row_base + 8 <= blk_len as int,
                blk@.len() == blk_len,
                rnds@.len() == 8,
                dlt_max as nat == dlt_max_spec(bit_len as nat),
                forall|i: int| 0 <= i < 8 ==> blk@[i] == 0,
                forall|i: int| 8 <= i < 16 ==> blk@[i] == dlt_max,
                forall|i: int, j: int|
                    0 <= i <= j < row_base + lne_idx ==> blk@[i] <= blk@[j],
                forall|i: int|
                    8 <= i < row_base + lne_idx ==> (#[trigger] blk@[i]) - blk@[i - 8]
                        <= dlt_max,
                forall|i: int| row_base + lne_idx <= i < blk_len ==> blk@[i] == 0,
            decreases 8 - lne_idx,
        {
            // Calculate the previous and current block indexes
            let cur_blk_idx = row_base + lne_idx;
            let prv_blk_idx = cur_blk_idx - 8;
            // Calculate the current value from the neighbor element to keep
            // the sort order; saturate so the ceiling repeats at the end
            let base = blk[cur_blk_idx - 1];
            let mut val = base.saturating_add(rnds[lne_idx]);

            // Ensure the current value does not produce a SIMD difference
            // larger than the bit-length allows
            proof {
                assert(blk@[prv_blk_idx as int] <= blk@[cur_blk_idx - 1]);
            }
            let dlt = val - blk[prv_blk_idx];
            if dlt > dlt_max {
                val = blk[prv_blk_idx] + dlt_max;
            }
            proof {
                assert(val >= base);
                assert(val - blk@[prv_blk_idx as int] <= dlt_max);
            }
            blk.set(cur_blk_idx, val);
            lne_idx = lne_idx + 1;
        }
        proof {
            assert((smd_idx as int + 1) * 8 == row_base + 8) by {
                vstd::arithmetic::mul::lemma_mul_is_distributive_add_other_way(
                    8,
                    smd_idx as int,
                    1,
                );
                vstd::arithmetic::mul::lemma_mul_is_commutative(smd_idx as int + 1, 8);
                vstd::arithmetic::mul::lemma_mul_is_commutative(smd_idx as int, 8);
            }
        }
        smd_idx = smd_idx + 1;
    }
    proof {
        assert(smd_idx * 8 == blk_len as int);
        lemma_gen_rows(blk@, blk_len as int, dlt_max as int);
    }
    blk
}

/// Bridges flat-index delta bounds to the row-and-lane form of the block
/// codec's contracts.
proof fn lemma_gen_rows(s: Seq<u32>, blk_len: int, dlt_max: int)
    requires
        s.len() == blk_len,
        blk_len % 8 == 0,
        blk_len >= 16,
        forall|i: int| 8 <= i < blk_len ==> (#[trigger] s[i]) - s[i - 8] <= dlt_max,
    ensures
        forall|e: int, l: int|
            1 <= e < blk_len / 8 && 0 <= l < 8 ==> (#[trigger] s[e * 8 + l]) - s[(e - 1) * 8
                + l] <= dlt_max,
{
    assert forall|e: int, l: int|
        1 <= e < blk_len / 8 && 0 <= l < 8 implies (#[trigger] s[e * 8 + l]) - s[(e - 1) * 8
        + l] <= dlt_max by {
        assert(8 <= e * 8 + l < blk_len) by {
            vstd::arithmetic::mul::lemma_mul_inequality(e + 1, blk_len / 8, 8);
            vstd::arithmetic::mul::lemma_mul_is_commutative(e + 1, 8);
            vstd::arithmetic::mul::lemma_mul_is_commutative(blk_len / 8, 8);
            vstd::arithmetic::div_mod::lemma_fundamental_div_mod(blk_len, 8);
            vstd::arithmetic::mul::lemma_mul_is_distributive_add_other_way(8, e, 1);
            vstd::arithmetic::mul::lemma_mul_inequality(1, e, 8);
            vstd::arithmetic::mul::lemma_mul_is_commutative(e, 8);
        }
        assert((e - 1) * 8 + l == e * 8 + l - 8) by {
            vstd::arithmetic::mul::lemma_mul_is_distributive_add_other_way(8, e - 1, 1);
            vstd::arithmetic::mul::lemma_mul_is_commutative(e - 1, 8);
            vstd::arithmetic::mul::lemma_mul_is_commutative(e, 8);
        }
    }
}

/// The block the generator returns measures exactly the requested width:
/// its row deltas all fit, and the second row misses every smaller width.
pub proof fn lemma_gen_blk_width(s: Seq<u32>, bit_len: nat)
    requires
        s.len() % 8 == 0,
        s.len() >= 16,
        1 <= bit_len <= 32,
        forall|l: int| 0 <= l < 8 ==> s[l] == 0,
        forall|l: int| 0 <= l < 8 ==> (#[trigger] s[8 + l]) as nat == dlt_max_spec(bit_len),
        forall|i: int, j: int| 0 <= i <= j < s.len() ==> s[i] <= s[j],
        forall|e: int, l: int|
            1 <= e < s.len() as int / 8 && 0 <= l < 8 ==> (#[trigger] s[e * 8 + l]) - s[(e
                - 1) * 8 + l] <= dlt_max_spec(bit_len),
    ensures
        crate::blk::row_fits(s, bit_len),
        exists|e: int, l: int|
            1 <= e < s.len() as int / 8 && 0 <= l < 8 && (#[trigger] row_dlt(s, e, l) as nat)
                >= pow2((bit_len - 1) as nat),
{
    lemma2_to64();
    vstd::arithmetic::power2::lemma_pow2_pos(bit_len);
    assert(dlt_max_spec(bit_len) < pow2(bit_len)) by {
        if bit_len >= 32 {
            vstd::arithmetic::power2::lemma_pow2_strictly_increases(32, bit_len + 1);
            if bit_len > 32 {
                vstd::arithmetic::power2::lemma_pow2_strictly_increases(32, bit_len);
            }
        }
    }
    assert forall|e: int, l: int|
        1 <= e < s.len() as int / 8 && 0 <= l < 8 implies (#[trigger] row_dlt(s, e, l) as nat)
        < pow2(bit_len) by {
        lemma_row_index(s.len() as int, e, l);
        assert(s[(e - 1) * 8 + l] <= s[e * 8 + l]);
        assert(row_dlt(s, e, l) == s[e * 8 + l] - s[(e - 1) * 8 + l]);
    }
    // the second row's first lane carries the maximal delta
    assert(2 <= s.len() as int / 8) by {
        vstd::arithmetic::div_mod::lemma_div_is_ordered(16, s.len() as int, 8);
    }
    lemma_row_index(s.len() as int, 1, 0);
    assert(row_dlt(s, 1, 0) == s[8] - s[0]);
    assert(row_dlt(s, 1, 0) as nat == dlt_max_spec(bit_len));
    assert(dlt_max_spec(bit_len) >= pow2((bit_len - 1) as nat)) by {
        vstd::arithmetic::power2::lemma_pow2_adds((bit_len - 1) as nat, 1);
        if bit_len >= 32 {
            vstd::arithmetic::power2::lemma2_to64_rest();
            if bit_len == 32 {
            }
        }
    }
    assert(row_dlt(s, 1, 0) as nat >= pow2((bit_len - 1) as nat));
}

/// Index arithmetic for one row-and-lane pair.
proof fn lemma_row_index(blk_len: int, e: int, l: int)
    requires
        blk_len % 8 == 0,
        blk_len >= 16,
        1 <= e < blk_len / 8,
        0 <= l < 8,
    ensures
        8 <= e * 8 + l < blk_len,
        (e - 1) * 8 + l == e * 8 + l - 8,
        0 <= (e - 1) * 8 + l,
{
    vstd::arithmetic::mul::lemma_mul_inequality(e + 1, blk_len / 8, 8);
    vstd::arithmetic::mul::lemma_mul_is_commutative(e + 1, 8);
    vstd::arithmetic::mul::lemma_mul_is_commutative(blk_len / 8, 8);
    vstd::arithmetic::div_mod::lemma_fundamental_div_mod(blk_len, 8);
    vstd::arithmetic::mul::lemma_mul_is_distributive_add_other_way(8, e, 1);
    vstd::arithmetic::mul::lemma_mul_inequality(1, e, 8);
    vstd::arithmetic::mul::lemma_mul_is_commutative(e, 8);
    vstd::arithmetic::mul::lemma_mul_is_distributive_add_other_way(8, e - 1, 1);
    vstd::arithmetic::mul::lemma_mul_is_commutative(e - 1, 8);
}

} // verus!
