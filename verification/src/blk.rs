//! Per-block SIMD delta pack and unpack engine.
//!
//! A block of `B` u32 values (`B >= 16`, `B % 8 == 0`) is read as `B / 8`
//! rows of 8 lanes. Packing subtracts adjacent rows lane-wise (the first row
//! against a broadcast reference) and concatenates the low `w` bits of every
//! delta into each lane's bit stream. Lane `l`'s stream is modeled as the
//! natural number whose base-`2^w` digits are its deltas; the packed words
//! are that number's base-`2^32` digits, stored little-endian, eight lanes
//! side by side per 32-byte vector.
//!
//! The pack and unpack loops and the size oracle are all driven by the one
//! schedule of `crate::sched`, as straight-line SIMD expansions of it would
//! be.

use vstd::prelude::*;

verus! {

use vstd::arithmetic::power2::{pow2, lemma_pow2_adds, lemma_pow2_strictly_increases, lemma2_to64};
use vstd::arithmetic::div_mod::{
    lemma_fundamental_div_mod,
    lemma_fundamental_div_mod_converse,
    lemma_small_mod,
    lemma_mod_breakdown,
    lemma_div_multiples_vanish,
    lemma_mod_division_less_than_divisor,
    lemma_div_denominator,
    lemma_mod_multiples_vanish,
};
use crate::sched::{blk_itr, itm_ok, lemma_sched_step, Dir, Itr};
use vstd::arithmetic::mul::{
    lemma_mul_is_commutative,
    lemma_mul_is_distributive_add,
    lemma_mul_is_distributive_add_other_way,
    lemma_mul_inequality,
    lemma_mul_is_associative,
    lemma_mul_strict_inequality,
};

/// Lane-wise wrapping delta of row `e` against its predecessor; the first
/// row is measured against the broadcast reference `r`.
pub open spec fn dlt(u: Seq<u32>, r: u32, e: int, l: int) -> u32 {
    vstd::wrapping::u32_specs::wrapping_sub(
        u[e * 8 + l],
        if e == 0 {
            r
        } else {
            u[(e - 1) * 8 + l]
        },
    )
}

/// Every delta of the block fits in `w` bits: the block is representable at
/// width `w`.
pub open spec fn fits(u: Seq<u32>, r: u32, w: nat) -> bool {
    forall|e: int, l: int|
        0 <= e < u.len() as int / 8 && 0 <= l < 8 ==> (#[trigger] dlt(u, r, e, l) as nat) < pow2(w)
}

/// Lane `l`'s bit stream from element `e` on, as a natural number: the
/// deltas are its base-`2^w` digits, least significant first.
pub open spec fn lane_nat(u: Seq<u32>, r: u32, w: nat, l: int, e: int) -> nat
    decreases u.len() as int / 8 - e,
{
    if e < 0 || e >= u.len() as int / 8 {
        0
    } else {
        (dlt(u, r, e, l) as nat) + pow2(w) * lane_nat(u, r, w, l, e + 1)
    }
}

/// The `k`-th packed 32-bit word of lane `l`: a base-`2^32` digit of the
/// lane's stream.
pub open spec fn pck_word(u: Seq<u32>, r: u32, w: nat, l: int, k: int) -> nat {
    (lane_nat(u, r, w, l, 0) / pow2((32 * k) as nat)) % pow2(32)
}

/// The u32 read little-endian from four bytes of `s` at `off`.
pub open spec fn le_word(s: Seq<u8>, off: int) -> nat {
    (s[off] as nat) + 256 * ((s[off + 1] as nat) + 256 * ((s[off + 2] as nat) + 256 * (s[off
        + 3] as nat)))
}

/// Byte `m` (little-endian) of the u32 `v`.
pub open spec fn u32_byte(v: u32, m: int) -> u8 {
    (((v as nat) / pow2((8 * m) as nat)) % 256) as u8
}

/// Number of packed 32-bit words per lane at width `w` for `n` rows.
pub open spec fn lane_words(w: nat, n: nat) -> nat {
    (w * n + 31) / 32
}

/// Exact packed byte length for width `w` and block element count `b`.
pub open spec fn byt_len_spec(w: nat, b: nat) -> nat {
    if w == 0 {
        0
    } else if w == 32 {
        4 * b
    } else {
        32 * lane_words(w, b / 8)
    }
}

/// Lane-wise wrapping delta between adjacent rows, independent of any
/// reference value; this is what the width detector measures.
pub open spec fn row_dlt(u: Seq<u32>, e: int, l: int) -> u32 {
    vstd::wrapping::u32_specs::wrapping_sub(u[e * 8 + l], u[(e - 1) * 8 + l])
}

/// All row deltas of the block fit in `w` bits.
pub open spec fn row_fits(u: Seq<u32>, w: nat) -> bool {
    forall|e: int, l: int|
        1 <= e < u.len() as int / 8 && 0 <= l < 8 ==> (#[trigger] row_dlt(u, e, l) as nat) < pow2(
            w,
        )
}

/// The stream of a block whose deltas fit in `w` bits is below `2^(w * n)`
/// counted from element `e`.
pub proof fn lemma_lane_nat_bound(u: Seq<u32>, r: u32, w: nat, l: int, e: int)
    requires
        fits(u, r, w),
        0 <= e <= u.len() as int / 8,
        0 <= l < 8,
    ensures
        lane_nat(u, r, w, l, e) < pow2(w * (u.len() as int / 8 - e) as nat),
    decreases u.len() as int / 8 - e,
{
    let n = u.len() as int / 8;
    vstd::arithmetic::power2::lemma_pow2_pos(w * (n - e) as nat);
    vstd::arithmetic::power2::lemma_pow2_pos(w);
    if e < n {
        lemma_lane_nat_bound(u, r, w, l, e + 1);
        let rest = lane_nat(u, r, w, l, e + 1);
        let d = dlt(u, r, e, l) as nat;
        assert(d < pow2(w));
        assert(pow2(w) * rest + d < pow2(w) * (rest + 1)) by {
            lemma_mul_is_distributive_add(pow2(w) as int, rest as int, 1);
        }
        assert(pow2(w) * (rest + 1) <= pow2(w) * pow2(w * (n - e - 1) as nat)) by {
            lemma_mul_inequality((rest + 1) as int, pow2(w * (n - e - 1) as nat) as int, pow2(
                w,
            ) as int);
            lemma_mul_is_commutative(pow2(w) as int, (rest + 1) as int);
            lemma_mul_is_commutative(pow2(w) as int, pow2(w * (n - e - 1) as nat) as int);
        }
        lemma_pow2_adds(w, w * (n - e - 1) as nat);
        assert(w + w * (n - e - 1) as nat == w * (n - e) as nat) by {
            lemma_mul_is_distributive_add(w as int, 1, n - e - 1);
        }
    }
}

/// Dividing the stream by `2^(w * e)` discards the first `e` digits.
pub proof fn lemma_lane_nat_shift(u: Seq<u32>, r: u32, w: nat, l: int, e: int)
    requires
        fits(u, r, w),
        1 <= w,
        0 <= e <= u.len() as int / 8,
        0 <= l < 8,
    ensures
        lane_nat(u, r, w, l, 0) / pow2((w * e) as nat) == lane_nat(u, r, w, l, e),
    decreases e,
{
    vstd::arithmetic::power2::lemma_pow2_pos(w);
    if e == 0 {
        vstd::arithmetic::power2::lemma_pow2_pos(0);
        assert(pow2(0) == 1) by {
            lemma2_to64();
        }
        lemma_div_multiples_vanish(lane_nat(u, r, w, l, 0) as int, 1);
        assert(lane_nat(u, r, w, l, 0) / 1 == lane_nat(u, r, w, l, 0)) by {
            lemma_fundamental_div_mod_converse(
                lane_nat(u, r, w, l, 0) as int,
                1,
                lane_nat(u, r, w, l, 0) as int,
                0,
            );
        }
    } else {
        lemma_lane_nat_shift(u, r, w, l, e - 1);
        let a = lane_nat(u, r, w, l, e - 1);
        let n = u.len() as int / 8;
        vstd::arithmetic::power2::lemma_pow2_pos((w * (e - 1)) as nat);
        // peel one digit: a / 2^w == the stream from e
        assert(a / pow2(w) == lane_nat(u, r, w, l, e)) by {
            if e - 1 < n {
                let d = dlt(u, r, e - 1, l) as nat;
                let rest = lane_nat(u, r, w, l, e);
                assert(a == d + pow2(w) * rest);
                assert((d + pow2(w) * rest) as int / pow2(w) as int == rest) by {
                    lemma_fundamental_div_mod_converse(
                        (d + pow2(w) * rest) as int,
                        pow2(w) as int,
                        rest as int,
                        d as int,
                    );
                }
            } else {
                assert(a == 0);
                assert(lane_nat(u, r, w, l, e) == 0);
                assert(0int / pow2(w) as int == 0) by {
                    lemma_fundamental_div_mod_converse(0int, pow2(w) as int, 0, 0);
                }
            }
        }
        // combine the two divisions
        lemma_div_denominator(
            lane_nat(u, r, w, l, 0) as int,
            pow2((w * (e - 1)) as nat) as int,
            pow2(w) as int,
        );
        lemma_pow2_adds((w * (e - 1)) as nat, w);
        assert((w * (e - 1)) as nat + w == (w * e) as nat) by {
            lemma_mul_is_distributive_add(w as int, e - 1, 1);
        }
    }
}

/// Digit extraction: the bits `[w e, w e + w)` of the stream are exactly
/// delta `e`.
pub proof fn lemma_lane_digit(u: Seq<u32>, r: u32, w: nat, l: int, e: int)
    requires
        fits(u, r, w),
        1 <= w,
        0 <= e < u.len() as int / 8,
        0 <= l < 8,
    ensures
        (lane_nat(u, r, w, l, 0) / pow2((w * e) as nat)) % pow2(w) == dlt(u, r, e, l) as nat,
{
    lemma_lane_nat_shift(u, r, w, l, e);
    let d = dlt(u, r, e, l) as nat;
    let rest = lane_nat(u, r, w, l, e + 1);
    vstd::arithmetic::power2::lemma_pow2_pos(w);
    assert(lane_nat(u, r, w, l, e) == d + pow2(w) * rest);
    assert((d + pow2(w) * rest) % pow2(w) == d) by {
        lemma_mod_multiples_vanish(rest as int, d as int, pow2(w) as int);
        lemma_mul_is_commutative(pow2(w) as int, rest as int);
        lemma_small_mod(d, pow2(w));
    }
}

proof fn lemma_u32_le_bytes(v: u32)
    by (bit_vector)
    ensures
        (v & 0xff) as nat + 256 * (((v >> 8u32) & 0xff) as nat + 256 * (((v >> 16u32)
            & 0xff) as nat + 256 * ((v >> 24u32) & 0xff) as nat)) == v as nat,
        v & 0xff < 256,
        (v >> 8u32) & 0xff < 256,
        (v >> 16u32) & 0xff < 256,
        (v >> 24u32) & 0xff < 256,
{
}

proof fn lemma_u32_from_le_bytes(b0: u8, b1: u8, b2: u8, b3: u8)
    by (bit_vector)
    ensures
        ((b0 as u32) | ((b1 as u32) << 8u32) | ((b2 as u32) << 16u32) | ((b3 as u32)
            << 24u32)) as nat == (b0 as nat) + 256 * ((b1 as nat) + 256 * ((b2 as nat) + 256 * (
        b3 as nat))),
{
}

/// The little-endian bytes of `v` are the byte digits `u32_byte` names.
proof fn lemma_u32_byte_digits(v: u32)
    ensures
        u32_byte(v, 0) == (v & 0xff),
        u32_byte(v, 1) == ((v >> 8u32) & 0xff),
        u32_byte(v, 2) == ((v >> 16u32) & 0xff),
        u32_byte(v, 3) == ((v >> 24u32) & 0xff),
{
    lemma_u32_le_bytes(v);
    lemma2_to64();
    let b0 = (v & 0xff) as nat;
    let b1 = ((v >> 8u32) & 0xff) as nat;
    let b2 = ((v >> 16u32) & 0xff) as nat;
    let b3 = ((v >> 24u32) & 0xff) as nat;
    assert(v as nat == b0 + 256 * (b1 + 256 * (b2 + 256 * b3)));
    lemma_fundamental_div_mod_converse(v as int, 256, (b1 + 256 * (b2 + 256 * b3)) as int,
        b0 as int);
    assert((v as nat) % 256 == b0 && (v as nat) / 256 == b1 + 256 * (b2 + 256 * b3));
    lemma_fundamental_div_mod_converse((b1 + 256 * (b2 + 256 * b3)) as int, 256, (b2 + 256
        * b3) as int, b1 as int);
    lemma_fundamental_div_mod_converse((b2 + 256 * b3) as int, 256, b3 as int, b2 as int);
    lemma_small_mod(b3, 256);
    assert(pow2(0) == 1 && pow2(8) == 256 && pow2(16) == 0x10000 && pow2(24) == 0x1000000);
    assert((v as nat) / 1 == v as nat && (b3) / 1 == b3) by {
        lemma_fundamental_div_mod_converse(v as int, 1, v as int, 0);
        lemma_fundamental_div_mod_converse(b3 as int, 1, b3 as int, 0);
    }
    assert((v as nat) / pow2(16) == (v as nat) / 256 / 256) by {
        lemma_div_denominator(v as int, 256, 256);
    }
    assert((v as nat) / pow2(24) == (v as nat) / pow2(16) / 256) by {
        lemma_div_denominator(v as int, 0x10000, 256);
    }
}

/// Writes the eight lanes of `a` little-endian into 32 bytes of `pck` at
/// byte offset `off`; all other bytes are untouched.
fn v_store(pck: &mut Vec<u8>, off: usize, a: &Vec<u32>) -> (nothing: ())
    requires
        a@.len() == 8,
        off + 32 <= old(pck)@.len(),
    ensures
        final(pck)@.len() == old(pck)@.len(),
        forall|l: int|
            0 <= l < 8 ==> le_word(final(pck)@, off + 4 * l) == a@[l] as nat,
        forall|l: int, m: int|
            0 <= l < 8 && 0 <= m < 4 ==> final(pck)@[off + 4 * l + m] == u32_byte(a@[l], m),
        forall|i: int|
            0 <= i < final(pck)@.len() && !(off <= i < off + 32) ==> final(pck)@[i] == old(
                pck,
            )@[i],
{
    let mut l: usize = 0;
    proof {
        assert(pck.len() == pck@.len());
    }
    while l < 8
        invariant
            a@.len() == 8,
            l <= 8,
            off + 32 <= pck@.len(),
            pck@.len() == old(pck)@.len(),
            pck@.len() <= usize::MAX,
            forall|j: int| 0 <= j < l ==> le_word(pck@, off + 4 * j) == a@[j] as nat,
            forall|j: int, m: int|
                0 <= j < l && 0 <= m < 4 ==> pck@[off + 4 * j + m] == u32_byte(a@[j], m),
            forall|i: int|
                0 <= i < pck@.len() && !(off <= i < off + 4 * l) ==> pck@[i] == old(pck)@[i],
        decreases 8 - l,
    {
        let v = a[l];
        proof {
            lemma_u32_le_bytes(v);
            lemma_u32_byte_digits(v);
        }
        pck.set(off + 4 * l, (v & 0xff) as u8);
        pck.set(off + 4 * l + 1, ((v >> 8) & 0xff) as u8);
        pck.set(off + 4 * l + 2, ((v >> 16) & 0xff) as u8);
        pck.set(off + 4 * l + 3, ((v >> 24) & 0xff) as u8);
        l = l + 1;
    }
}

/// Reads the eight lanes of one packed vector, little-endian, from 32 bytes
/// of `pck` at byte offset `off`.
fn v_load_pck(pck: &[u8], off: usize) -> (r: Vec<u32>)
    requires
        off + 32 <= pck@.len(),
    ensures
        r@.len() == 8,
        forall|l: int| 0 <= l < 8 ==> r@[l] as nat == le_word(pck@, off + 4 * l),
{
    let n = pck.len();
    let mut r: Vec<u32> = Vec::new();
    let mut l: usize = 0;
    while l < 8
        invariant
            off + 32 <= pck@.len(),
            n == pck@.len(),
            l <= 8,
            r@.len() == l,
            forall|j: int| 0 <= j < l ==> r@[j] as nat == le_word(pck@, off + 4 * j),
        decreases 8 - l,
    {
        let b0 = pck[off + 4 * l];
        let b1 = pck[off + 4 * l + 1];
        let b2 = pck[off + 4 * l + 2];
        let b3 = pck[off + 4 * l + 3];
        let v = (b0 as u32) | ((b1 as u32) << 8) | ((b2 as u32) << 16) | ((b3 as u32) << 24);
        proof {
            lemma_u32_from_le_bytes(b0, b1, b2, b3);
        }
        r.push(v);
        l = l + 1;
    }
    r
}

/// Loads row `off` of the unpacked block: eight adjacent lanes.
fn v_load(unp: &[u32], off: usize) -> (r: Vec<u32>)
    requires
        off * 8 + 8 <= unp@.len(),
    ensures
        r@.len() == 8,
        forall|l: int| 0 <= l < 8 ==> r@[l] == unp@[off * 8 + l],
{
    let n = unp.len();
    let mut r: Vec<u32> = Vec::new();
    let mut l: usize = 0;
    while l < 8
        invariant
            off * 8 + 8 <= unp@.len(),
            n == unp@.len(),
            l <= 8,
            r@.len() == l,
            forall|j: int| 0 <= j < l ==> r@[j] == unp@[off * 8 + j],
        decreases 8 - l,
    {
        r.push(unp[off * 8 + l]);
        l = l + 1;
    }
    r
}

/// Broadcasts a scalar to all eight lanes.
fn v_bcast(x: u32) -> (r: Vec<u32>)
    ensures
        r@.len() == 8,
        forall|l: int| 0 <= l < 8 ==> r@[l] == x,
{
    let mut r: Vec<u32> = Vec::new();
    let mut l: usize = 0;
    while l < 8
        invariant
            l <= 8,
            r@.len() == l,
            forall|j: int| 0 <= j < l ==> r@[j] == x,
        decreases 8 - l,
    {
        r.push(x);
        l = l + 1;
    }
    r
}

/// Lane-wise wrapping subtraction.
fn v_sub(a: &Vec<u32>, b: &Vec<u32>) -> (r: Vec<u32>)
    requires
        a@.len() == 8,
        b@.len() == 8,
    ensures
        r@.len() == 8,
        forall|l: int|
            0 <= l < 8 ==> r@[l] == vstd::wrapping::u32_specs::wrapping_sub(a@[l], b@[l]),
{
    let mut r: Vec<u32> = Vec::new();
    let mut l: usize = 0;
    while l < 8
        invariant
            a@.len() == 8,
            b@.len() == 8,
            l <= 8,
            r@.len() == l,
            forall|j: int|
                0 <= j < l ==> r@[j] == vstd::wrapping::u32_specs::wrapping_sub(a@[j], b@[j]),
        decreases 8 - l,
    {
        r.push(a[l].wrapping_sub(b[l]));
        l = l + 1;
    }
    r
}

/// Lane-wise wrapping addition.
fn v_add(a: &Vec<u32>, b: &Vec<u32>) -> (r: Vec<u32>)
    requires
        a@.len() == 8,
        b@.len() == 8,
    ensures
        r@.len() == 8,
        forall|l: int|
            0 <= l < 8 ==> r@[l] == vstd::wrapping::u32_specs::wrapping_add(a@[l], b@[l]),
{
    let mut r: Vec<u32> = Vec::new();
    let mut l: usize = 0;
    while l < 8
        invariant
            a@.len() == 8,
            b@.len() == 8,
            l <= 8,
            r@.len() == l,
            forall|j: int|
                0 <= j < l ==> r@[j] == vstd::wrapping::u32_specs::wrapping_add(a@[j], b@[j]),
        decreases 8 - l,
    {
        r.push(a[l].wrapping_add(b[l]));
        l = l + 1;
    }
    r
}

/// Lane-wise bitwise or.
fn v_or(a: &Vec<u32>, b: &Vec<u32>) -> (r: Vec<u32>)
    requires
        a@.len() == 8,
        b@.len() == 8,
    ensures
        r@.len() == 8,
        forall|l: int| 0 <= l < 8 ==> r@[l] == (a@[l] | b@[l]),
{
    let mut r: Vec<u32> = Vec::new();
    let mut l: usize = 0;
    while l < 8
        invariant
            a@.len() == 8,
            b@.len() == 8,
            l <= 8,
            r@.len() == l,
            forall|j: int| 0 <= j < l ==> r@[j] == (a@[j] | b@[j]),
        decreases 8 - l,
    {
        r.push(a[l] | b[l]);
        l = l + 1;
    }
    r
}

/// Lane-wise logical left shift by an immediate.
fn v_shl(a: &Vec<u32>, s: u32) -> (r: Vec<u32>)
    requires
        a@.len() == 8,
        s < 32,
    ensures
        r@.len() == 8,
        forall|l: int| 0 <= l < 8 ==> r@[l] == (a@[l] << s),
{
    let mut r: Vec<u32> = Vec::new();
    let mut l: usize = 0;
    while l < 8
        invariant
            a@.len() == 8,
            s < 32,
            l <= 8,
            r@.len() == l,
            forall|j: int| 0 <= j < l ==> r@[j] == (a@[j] << s),
        decreases 8 - l,
    {
        r.push(a[l] << s);
        l = l + 1;
    }
    r
}

/// Lane-wise logical right shift by an immediate.
fn v_shr(a: &Vec<u32>, s: u32) -> (r: Vec<u32>)
    requires
        a@.len() == 8,
        s < 32,
    ensures
        r@.len() == 8,
        forall|l: int| 0 <= l < 8 ==> r@[l] == (a@[l] >> s),
{
    let mut r: Vec<u32> = Vec::new();
    let mut l: usize = 0;
    while l < 8
        invariant
            a@.len() == 8,
            s < 32,
            l <= 8,
            r@.len() == l,
            forall|j: int| 0 <= j < l ==> r@[j] == (a@[j] >> s),
        decreases 8 - l,
    {
        r.push(a[l] >> s);
        l = l + 1;
    }
    r
}

/// Lane-wise bitwise and with a broadcast mask.
fn v_and(a: &Vec<u32>, m: u32) -> (r: Vec<u32>)
    requires
        a@.len() == 8,
    ensures
        r@.len() == 8,
        forall|l: int| 0 <= l < 8 ==> r@[l] == (a@[l] & m),
{
    let mut r: Vec<u32> = Vec::new();
    let mut l: usize = 0;
    while l < 8
        invariant
            a@.len() == 8,
            l <= 8,
            r@.len() == l,
            forall|j: int| 0 <= j < l ==> r@[j] == (a@[j] & m),
        decreases 8 - l,
    {
        r.push(a[l] & m);
        l = l + 1;
    }
    r
}

/// `blk_byt_len` returns the packed byte length of a block of `elm_per_blk`
/// elements at bit width `elm_bit_len`: zero at width 0, the raw size at
/// width 32, and otherwise one full 32-byte vector for every 256 packed bits
/// or part thereof, as the schedule stores them.
pub fn blk_byt_len(elm_bit_len: u8, elm_per_blk: usize) -> (r: usize)
    requires
        elm_bit_len <= 32,
        elm_per_blk >= 16,
        elm_per_blk % 8 == 0,
        elm_per_blk * 32 + 256 <= usize::MAX,
    ensures
        r == byt_len_spec(elm_bit_len as nat, elm_per_blk as nat),
{
    if elm_bit_len == 0 {
        0
    } else if elm_bit_len == 32 {
        4 * elm_per_blk
    } else {
        let n = elm_per_blk / 8;
        let w = elm_bit_len as usize;
        proof {
            lemma_mul_inequality(w as int, 32, n as int);
            lemma_mul_is_commutative(w as int, n as int);
            lemma_mul_is_commutative(32, n as int);
            assert(n * 32 <= elm_per_blk * 32) by {
                lemma_mul_inequality(n as int, elm_per_blk as int, 32);
                lemma_mul_is_commutative(elm_per_blk as int, 32);
            }
            assert((w * n + 31) / 32 * 32 <= w * n + 31) by {
                lemma_fundamental_div_mod((w * n + 31) as int, 32);
                lemma_mod_division_less_than_divisor((w * n + 31) as int, 32);
                lemma_mul_is_commutative(32, ((w * n + 31) / 32) as int);
            }
        }
        32 * ((w * n + 31) / 32)
    }
}

proof fn lemma_u32_or_cover(x: u32, y: u32, c: u32)
    by (bit_vector)
    requires
        c < 32,
    ensures
        x <= (x | y),
        y <= (x | y),
        ((x | y) >> c) & 1 == 1 <==> ((x >> c) & 1 == 1 || (y >> c) & 1 == 1),
{
}

proof fn lemma_u32_top_bit(x: u32, c: u32)
    by (bit_vector)
    requires
        c < 32,
    ensures
        (x >> c) & 1 == 1 ==> x >= (1u32 << c),
        ((x as u64) >= (1u64 << (c as u64)) && (x as u64) < (1u64 << ((c + 1) as u64))) ==> (x
            >> c) & 1 == 1,
        (1u32 << c) as u64 == 1u64 << (c as u64),
{
}

/// `(1 << c)` equals `pow2(c)` in every width that holds it.
proof fn lemma_u32_shl1_pow2(c: u32)
    requires
        c < 32,
    ensures
        (1u32 << c) as nat == pow2(c as nat),
        (1u64 << (c as u64)) as nat == pow2(c as nat),
{
    vstd::bits::lemma_u32_pow2_no_overflow(c as nat);
    vstd::bits::lemma_u32_shl_is_mul(1u32, c);
    lemma_u32_top_bit(0, c);
}

/// Number of significant bits of `v`: the smallest `c` with `v < 2^c`.
fn u32_bit_width(v: u32) -> (r: u8)
    ensures
        r <= 32,
        (v as nat) < pow2(r as nat),
        r > 0 ==> (v as nat) >= pow2((r - 1) as nat),
{
    let mut x = v;
    let mut c: u8 = 0;
    proof {
        lemma2_to64();
        vstd::arithmetic::mul::lemma_mul_basics(pow2(0) as int);
    }
    while x > 0
        invariant
            c <= 32,
            (x as nat) * pow2(c as nat) <= v as nat,
            (v as nat) < (x as nat + 1) * pow2(c as nat),
            c > 0 ==> (v as nat) >= pow2((c - 1) as nat),
            x == 0 ==> (c > 0 ==> (v as nat) >= pow2((c - 1) as nat)),
        decreases x,
    {
        proof {
            let xn = x as nat;
            let pc = pow2(c as nat);
            lemma2_to64();
            lemma_pow2_adds(c as nat, 1);
            assert(pow2(c as nat + 1) == pc * 2);
            vstd::arithmetic::mul::lemma_mul_basics(pow2(c as nat + 1) as int);
            vstd::arithmetic::mul::lemma_mul_basics(pc as int);
            assert(x >> 1u32 == x / 2) by (bit_vector);
            // the bounds carry to the halved value at the doubled weight
            assert((xn / 2) * (pc * 2) <= xn * pc) by {
                lemma_fundamental_div_mod(xn as int, 2);
                lemma_mul_is_associative((xn / 2) as int, pc as int, 2);
                lemma_mul_is_commutative(pc as int, 2);
                lemma_mul_inequality((2 * (xn / 2)) as int, xn as int, pc as int);
                lemma_mul_is_commutative((2 * (xn / 2)) as int, pc as int);
                lemma_mul_is_commutative(xn as int, pc as int);
                lemma_mul_is_associative(2, (xn / 2) as int, pc as int);
                lemma_mul_is_commutative(2, ((xn / 2) as int) * (pc as int));
            }
            assert((xn + 1) * pc <= ((xn / 2) + 1) * (pc * 2)) by {
                lemma_fundamental_div_mod(xn as int, 2);
                assert(xn + 1 <= (xn / 2 + 1) * 2);
                lemma_mul_inequality((xn + 1) as int, ((xn / 2 + 1) * 2) as int, pc as int);
                lemma_mul_is_commutative((xn + 1) as int, pc as int);
                lemma_mul_is_commutative(((xn / 2 + 1) * 2) as int, pc as int);
                lemma_mul_is_associative((xn / 2 + 1) as int, 2, pc as int);
                lemma_mul_is_commutative(2, pc as int);
            }
            // the weight never overflows 32 bits while x > 0
            if c >= 32 {
                lemma_mul_inequality(1, x as int, pow2(c as nat) as int);
                lemma_mul_is_commutative(1, pow2(c as nat) as int);
                lemma_mul_is_commutative(x as int, pow2(c as nat) as int);
                assert(pow2(32) <= v as nat);
                assert((v as nat) < 0x1_0000_0000);
                assert(false);
            }
            // once past this step the value seen so far reaches 2^c
            vstd::arithmetic::mul::lemma_mul_basics(pow2(c as nat) as int);
            lemma_mul_inequality(1, x as int, pow2(c as nat) as int);
            lemma_mul_is_commutative(1, pow2(c as nat) as int);
            lemma_mul_is_commutative(x as int, pow2(c as nat) as int);
        }
        x = x >> 1;
        c = c + 1;
    }
    proof {
        vstd::arithmetic::mul::lemma_mul_basics(pow2(c as nat) as int);
    }
    c
}

/// `blk_bit_len` returns the minimum bit width that covers every delta
/// between adjacent SIMD rows of the block. The first row is not measured
/// against any reference.
pub fn blk_bit_len(blk: &[u32]) -> (r: u8)
    requires
        blk@.len() >= 16,
        blk@.len() % 8 == 0,
    ensures
        r <= 32,
        row_fits(blk@, r as nat),
        r > 0 ==> exists|e: int, l: int|
            1 <= e < blk@.len() as int / 8 && 0 <= l < 8 && (#[trigger] row_dlt(
                blk@,
                e,
                l,
            ) as nat) >= pow2((r - 1) as nat),
{
    let n_elm = blk.len();
    let n = n_elm / 8;
    let mut acm: u32 = 0;
    let mut e: usize = 1;
    proof {
        assert forall|c: u32| c < 32 implies (0u32 >> c) & 1 == 0 by {
            lemma_u32_zero_bits(c);
        }
    }
    while e < n
        invariant
            n_elm == blk@.len(),
            n == n_elm / 8,
            n_elm % 8 == 0,
            1 <= e <= n,
            forall|i: int, l: int|
                1 <= i < e && 0 <= l < 8 ==> (#[trigger] row_dlt(blk@, i, l)) <= acm,
            forall|c: u32|
                c < 32 && (acm >> c) & 1 == 1 ==> exists|i: int, l: int|
                    1 <= i < e && 0 <= l < 8 && (#[trigger] row_dlt(blk@, i, l) >> c) & 1 == 1,
        decreases n - e,
    {
        let mut l: usize = 0;
        while l < 8
            invariant
                n_elm == blk@.len(),
                n == n_elm / 8,
                n_elm % 8 == 0,
                1 <= e < n,
                l <= 8,
                forall|i: int, j: int|
                    1 <= i < e && 0 <= j < 8 ==> (#[trigger] row_dlt(blk@, i, j)) <= acm,
                forall|j: int| 0 <= j < l ==> (#[trigger] row_dlt(blk@, e as int, j)) <= acm,
                forall|c: u32|
                    c < 32 && (acm >> c) & 1 == 1 ==> exists|i: int, j: int|
                        (1 <= i < e && 0 <= j < 8 || i == e && 0 <= j < l) && (#[trigger] row_dlt(
                            blk@,
                            i,
                            j,
                        ) >> c) & 1 == 1,
            decreases 8 - l,
        {
            proof {
                assert(e * 8 + l < n * 8 <= n_elm) by {
                    lemma_mul_inequality((e + 1) as int, n as int, 8);
                    lemma_mul_is_distributive_add_other_way(8, e as int, 1);
                    lemma_mul_is_commutative((e + 1) as int, 8);
                    lemma_mul_is_commutative(n as int, 8);
                    lemma_fundamental_div_mod(n_elm as int, 8);
                }
                assert((e - 1) * 8 + l >= 0) by {
                    vstd::arithmetic::mul::lemma_mul_nonnegative((e - 1) as int, 8);
                    lemma_mul_is_commutative((e - 1) as int, 8);
                }
            }
            let d = blk[e * 8 + l].wrapping_sub(blk[(e - 1) * 8 + l]);
            let ghost acm0 = acm;
            proof {
                assert(d == row_dlt(blk@, e as int, l as int));
            }
            acm = acm | d;
            proof {
                assert forall|c: u32| c < 32 implies ((acm0 >> c) & 1 == 1 ==> (acm >> c) & 1
                    == 1) && ((d >> c) & 1 == 1 ==> (acm >> c) & 1 == 1) && ((acm >> c) & 1 == 1
                    ==> ((acm0 >> c) & 1 == 1 || (d >> c) & 1 == 1)) by {
                    lemma_u32_or_cover(acm0, d, c);
                }
                assert forall|i: int, j: int|
                    1 <= i < e && 0 <= j < 8 || i == e && 0 <= j < l + 1 implies (
                #[trigger] row_dlt(blk@, i, j)) <= acm by {
                    lemma_u32_or_cover(acm0, d, 0);
                }
            }
            l = l + 1;
        }
        e = e + 1;
    }
    let r = u32_bit_width(acm);
    proof {
        lemma2_to64();
        // every delta is bounded by the accumulated or
        assert forall|i: int, j: int| 1 <= i < blk@.len() as int / 8 && 0 <= j < 8 implies (
        #[trigger] row_dlt(blk@, i, j) as nat) < pow2(r as nat) by {
            assert(row_dlt(blk@, i, j) <= acm);
        }
        // the top bit of the or came from some delta
        if r > 0 {
            let c = (r - 1) as u32;
            lemma_u32_shl1_pow2(c);
            lemma_u32_shl1_pow2_succ(c);
            lemma_u32_top_bit(acm, c);
            assert((acm >> c) & 1 == 1);
            let (i, j): (int, int) = choose|i: int, j: int|
                1 <= i < n && 0 <= j < 8 && (#[trigger] row_dlt(blk@, i, j) >> c) & 1 == 1;
            lemma_u32_top_bit(row_dlt(blk@, i, j), c);
            assert(row_dlt(blk@, i, j) as nat >= pow2(c as nat));
        }
    }
    r
}

proof fn lemma_u32_zero_bits(c: u32)
    by (bit_vector)
    ensures
        (0u32 >> c) & 1 == 0,
{
}

/// `2^(c + 1)` in 64-bit form, for the top-bit argument at `c == 31`.
proof fn lemma_u32_shl1_pow2_succ(c: u32)
    requires
        c < 32,
    ensures
        (1u64 << ((c + 1) as u64)) as nat == pow2((c + 1) as nat),
{
    vstd::bits::lemma_u64_pow2_no_overflow((c + 1) as nat);
    vstd::bits::lemma_u64_shl_is_mul(1u64, (c + 1) as u64);
}

proof fn lemma_u32_or_shl_add(a: u32, d: u32, s: u32)
    by (bit_vector)
    requires
        s < 32,
        a < (1u32 << s) || s == 0,
        s == 0 ==> a == 0,
    ensures
        (a | (d << s)) == a + (d << s),
        (1u32 << s) as nat > 0,
{
}

proof fn lemma_u32_shl_as_u64(d: u32, s: u32)
    by (bit_vector)
    requires
        s < 32,
    ensures
        (d << s) as u64 == ((d as u64) << (s as u64)) % 0x1_0000_0000,
{
}

/// A whole `w`-bit value ors into a word at position `s` without loss.
proof fn lemma_pck_or_shl(a: u32, d: u32, s: u32, w: u32)
    requires
        1 <= w <= 32,
        s + w <= 32,
        (a as nat) < pow2(s as nat),
        (d as nat) < pow2(w as nat),
    ensures
        (a | (d << s)) as nat == a as nat + (d as nat) * pow2(s as nat),
{
    lemma2_to64();
    lemma_u32_shl1_pow2(s);
    lemma_u32_or_shl_add(a, d, s);
    assert((d as nat) * pow2(s as nat) < pow2((s + w) as nat)) by {
        lemma_pow2_adds(s as nat, w as nat);
        lemma_mul_strict_inequality(d as int, pow2(w as nat) as int, pow2(s as nat) as int);
        lemma_mul_is_commutative(d as int, pow2(s as nat) as int);
        lemma_mul_is_commutative(pow2(w as nat) as int, pow2(s as nat) as int);
        vstd::arithmetic::power2::lemma_pow2_pos(s as nat);
    }
    if s + w < 32 {
        lemma_pow2_strictly_increases((s + w) as nat, 32);
    }
    lemma2_to64();
    vstd::bits::lemma_u32_shl_is_mul(d, s);
}

/// Only the low `32 - s` bits of the value survive the or at position `s`.
proof fn lemma_pck_or_shl_trunc(a: u32, d: u32, s: u32)
    requires
        1 <= s < 32,
        (a as nat) < pow2(s as nat),
    ensures
        (a | (d << s)) as nat == a as nat + ((d as nat) % pow2((32 - s) as nat)) * pow2(
            s as nat,
        ),
{
    lemma_u32_shl1_pow2(s);
    lemma_u32_or_shl_add(a, d, s);
    lemma_u32_shl_as_u64(d, s);
    vstd::bits::lemma_u64_pow2_no_overflow(s as nat);
    lemma2_to64();
    assert((d as nat) * pow2(s as nat) <= u64::MAX) by {
        lemma_pow2_strictly_increases(s as nat, 32);
        lemma_mul_inequality(d as int, 0xffff_ffff, pow2(s as nat) as int);
        lemma_mul_inequality(pow2(s as nat) as int, pow2(32) as int, 0xffff_ffff);
        lemma_mul_is_commutative(d as int, pow2(s as nat) as int);
        lemma_mul_is_commutative(0xffff_ffff, pow2(s as nat) as int);
    }
    vstd::bits::lemma_u64_shl_is_mul(d as u64, s as u64);
    let c = (32 - s) as nat;
    let q = (d as nat) / pow2(c);
    let rr = (d as nat) % pow2(c);
    vstd::arithmetic::power2::lemma_pow2_pos(c);
    vstd::arithmetic::power2::lemma_pow2_pos(s as nat);
    lemma_fundamental_div_mod(d as int, pow2(c) as int);
    lemma_pow2_adds(c, s as nat);
    // d * 2^s splits into a multiple of 2^32 plus the surviving low part
    assert((d as nat) * pow2(s as nat) == q * pow2(32) + rr * pow2(s as nat)) by {
        assert(d as nat == pow2(c) * q + rr);
        lemma_mul_is_distributive_add_other_way(
            pow2(s as nat) as int,
            (pow2(c) * q) as int,
            rr as int,
        );
        lemma_mul_is_commutative((pow2(c) * q) as int, pow2(s as nat) as int);
        lemma_mul_is_associative(pow2(s as nat) as int, pow2(c) as int, q as int);
        lemma_mul_is_commutative(pow2(s as nat) as int, pow2(c) as int);
        lemma_mul_is_commutative((pow2(c) * pow2(s as nat)) as int, q as int);
        lemma_mul_is_commutative(rr as int, pow2(s as nat) as int);
    }
    assert((q * pow2(32) + rr * pow2(s as nat)) % pow2(32) == rr * pow2(s as nat)) by {
        lemma_mod_multiples_vanish(q as int, (rr * pow2(s as nat)) as int, pow2(32) as int);
        assert(rr * pow2(s as nat) < pow2(32)) by {
            lemma_mul_strict_inequality(rr as int, pow2(c) as int, pow2(s as nat) as int);
            lemma_mul_is_commutative(rr as int, pow2(s as nat) as int);
            lemma_mul_is_commutative(pow2(c) as int, pow2(s as nat) as int);
        }
        lemma_small_mod(rr * pow2(s as nat), pow2(32));
    }
    assert((d << s) as nat == ((d as nat) * pow2(s as nat)) % pow2(32));
}

/// Reducing modulo a smaller power of two first makes no difference.
proof fn lemma_pow2_mod_mod(y: nat, c: nat, w: nat)
    requires
        c <= w,
    ensures
        (y % pow2(w)) % pow2(c) == y % pow2(c),
{
    vstd::arithmetic::power2::lemma_pow2_pos(c);
    vstd::arithmetic::power2::lemma_pow2_pos((w - c) as nat);
    lemma_pow2_adds(c, (w - c) as nat);
    vstd::arithmetic::div_mod::lemma_mod_mod(y as int, pow2(c) as int, pow2((w - c) as nat) as int);
}

/// A value below `a * b` divided by `a` stays below `b`.
proof fn lemma_div_bound(x: nat, a: nat, b: nat)
    requires
        a > 0,
        x < a * b,
    ensures
        x / a < b,
{
    vstd::arithmetic::div_mod::lemma_multiply_divide_lt(x as int, a as int, b as int);
}

/// The positional (schedule-only) part of the pack and unpack loop
/// invariants: offsets follow the lane bit count `t`.
pub open spec fn blk_pos(w: int, n: int, t: int, unp_off: int, pck_off: int) -> bool {
    &&& 0 <= t <= n * w
    &&& (t < n * w ==> pck_off == t / 32)
    &&& (t == n * w ==> pck_off == (n * w + 31) / 32)
    &&& (t % w == 0 ==> unp_off == t / w)
    &&& (t % w != 0 ==> unp_off == t / w + 1)
}

/// The semantic part of the pack loop invariant: the `kc` stored words are
/// the streams' base-`2^32` digits, the accumulators hold the partial words,
/// a straddled delta is retained.
pub open spec fn pck_sem(
    u: Seq<u32>,
    r: u32,
    w: nat,
    t: int,
    kc: int,
    accs: Seq<u32>,
    prvs: Seq<u32>,
    dls: Seq<u32>,
    unp_off: int,
    pckb: Seq<u8>,
) -> bool {
    &&& (forall|l: int|
        0 <= l < 8 ==> (#[trigger] prvs[l]) == (if unp_off == 0 {
            r
        } else {
            u[(unp_off - 1) * 8 + l]
        }))
    &&& (forall|k: int, l: int|
        0 <= k < kc && 0 <= l < 8 ==> le_word(pckb, 32 * k + 4 * l) == pck_word(u, r, w, l, k))
    &&& (t % 32 != 0 ==> forall|l: int|
        0 <= l < 8 ==> (#[trigger] accs[l]) as nat == (lane_nat(u, r, w, l, 0) / pow2(
            (32 * (t / 32)) as nat,
        )) % pow2((t % 32) as nat))
    &&& (t % (w as int) != 0 ==> forall|l: int|
        0 <= l < 8 ==> (#[trigger] dls[l]) == dlt(u, r, t / (w as int), l))
}

/// A step that consumes an element finds one to load: the element index is
/// still inside the block.
proof fn lemma_load_ok(w: int, n: int, t: int, unp_off: int, n_elm: int)
    requires
        1 <= w,
        0 <= t < n * w,
        t % w == 0,
        unp_off == t / w,
        n_elm == 8 * n,
    ensures
        unp_off < n,
        unp_off * 8 + 8 <= n_elm,
        t == unp_off * w,
        t >= 1 ==> unp_off >= 1,
{
    vstd::arithmetic::mul::lemma_mul_basics(w);
    lemma_fundamental_div_mod(t, w);
    lemma_mul_is_commutative(w, t / w);
    assert(t / w < n) by {
        if t / w >= n {
            lemma_mul_inequality(n, t / w, w);
            lemma_mul_is_commutative(n, w);
            lemma_mul_is_commutative(t / w, w);
            assert(false);
        }
    }
    assert((unp_off + 1) * 8 <= n * 8) by {
        lemma_mul_inequality(unp_off + 1, n, 8);
        lemma_mul_is_commutative(unp_off + 1, 8);
        lemma_mul_is_commutative(n, 8);
    }
    lemma_mul_is_distributive_add_other_way(8, unp_off, 1);
}

/// The word slot a step stores to lies inside the packed area.
proof fn lemma_store_ok(w: int, n: int, t: int, pck_off: int, big_w: int)
    requires
        1 <= w,
        0 <= t < n * w,
        pck_off == t / 32,
        big_w == (n * w + 31) / 32,
    ensures
        32 * pck_off + 32 <= 32 * big_w,
        pck_off < big_w,
{
    let q = (n * w - 1) / 32;
    let rr = (n * w - 1) % 32;
    lemma_fundamental_div_mod(n * w - 1, 32);
    assert(n * w + 31 == 32 * (q + 1) + rr) by {
        lemma_mul_is_distributive_add(32, q, 1);
    }
    lemma_fundamental_div_mod_converse(n * w + 31, 32, q + 1, rr);
    vstd::arithmetic::div_mod::lemma_div_is_ordered(t, n * w - 1, 32);
    assert(pck_off <= q && big_w == q + 1);
    lemma_mul_inequality(pck_off + 1, big_w, 32);
    lemma_mul_is_commutative(pck_off + 1, 32);
    lemma_mul_is_commutative(big_w, 32);
    lemma_mul_is_distributive_add(32, pck_off, 1);
}

/// A fresh element opens a fresh word: the step's output lanes hold exactly
/// the element's deltas, which are the low `w` bits of the remaining stream.
proof fn lemma_pck_zro_sem(
    u: Seq<u32>,
    r: u32,
    w: nat,
    t: int,
    t2: int,
    nxt: Seq<u32>,
    prvs: Seq<u32>,
    curv: Seq<u32>,
    unp_off: int,
)
    requires
        fits(u, r, w),
        1 <= w <= 31,
        nxt.len() == 8 && prvs.len() == 8 && curv.len() == 8,
        0 <= t < (u.len() as int / 8) * w,
        t % (w as int) == 0,
        t % 32 == 0,
        unp_off == t / (w as int),
        1 <= unp_off,
        t2 == t + w,
        forall|l: int| 0 <= l < 8 ==> (#[trigger] prvs[l]) == u[(unp_off - 1) * 8 + l],
        forall|l: int| 0 <= l < 8 ==> (#[trigger] curv[l]) == u[unp_off * 8 + l],
        forall|l: int|
            0 <= l < 8 ==> (#[trigger] nxt[l]) == vstd::wrapping::u32_specs::wrapping_sub(
                curv[l],
                prvs[l],
            ),
    ensures
        forall|l: int|
            0 <= l < 8 ==> (#[trigger] nxt[l]) as nat == (lane_nat(u, r, w, l, 0) / pow2(
                (32 * (t2 / 32)) as nat,
            )) % pow2((t2 % 32) as nat),
{
    let n = u.len() as int / 8;
    let e = t / (w as int);
    lemma_fundamental_div_mod(t, w as int);
    lemma_mul_is_commutative(w as int, e);
    assert(e < n) by {
        if e >= n {
            lemma_mul_inequality(n, e, w as int);
            lemma_mul_is_commutative(n, w as int);
            lemma_mul_is_commutative(e, w as int);
            assert(false);
        }
    }
    lemma_fundamental_div_mod_converse(t2, 32, t / 32, w as int);
    assert(t2 / 32 == t / 32 && t2 % 32 == w);
    assert forall|l: int| 0 <= l < 8 implies (#[trigger] nxt[l]) as nat == (lane_nat(
        u,
        r,
        w,
        l,
        0,
    ) / pow2((32 * (t2 / 32)) as nat)) % pow2((t2 % 32) as nat) by {
        assert(nxt[l] == dlt(u, r, e, l));
        lemma_lane_digit(u, r, w, l, e);
        assert((w * e) as nat == (32 * (t / 32)) as nat) by {
            lemma_fundamental_div_mod(t, 32);
            lemma_mul_is_commutative(w as int, e);
        }
    }
}

/// A whole element enters the current word at bit position `s`.
proof fn lemma_pck_fwd_sem(
    u: Seq<u32>,
    r: u32,
    w: nat,
    t: int,
    t2: int,
    s: u32,
    accs: Seq<u32>,
    dvs: Seq<u32>,
    nxt: Seq<u32>,
    prvs: Seq<u32>,
    curv: Seq<u32>,
    unp_off: int,
)
    requires
        fits(u, r, w),
        1 <= w <= 31,
        accs.len() == 8 && dvs.len() == 8 && nxt.len() == 8 && prvs.len() == 8 && curv.len()
            == 8,
        0 <= t < (u.len() as int / 8) * w,
        t % (w as int) == 0,
        unp_off == t / (w as int),
        1 <= unp_off,
        s == t % 32,
        0 < s,
        s + w <= 32,
        t2 == t + w,
        forall|l: int| 0 <= l < 8 ==> (#[trigger] prvs[l]) == u[(unp_off - 1) * 8 + l],
        forall|l: int| 0 <= l < 8 ==> (#[trigger] curv[l]) == u[unp_off * 8 + l],
        forall|l: int|
            0 <= l < 8 ==> (#[trigger] dvs[l]) == vstd::wrapping::u32_specs::wrapping_sub(
                curv[l],
                prvs[l],
            ),
        forall|l: int|
            0 <= l < 8 ==> (#[trigger] accs[l]) as nat == (lane_nat(u, r, w, l, 0) / pow2(
                (32 * (t / 32)) as nat,
            )) % pow2(s as nat),
        forall|l: int| 0 <= l < 8 ==> (#[trigger] nxt[l]) == (accs[l] | (dvs[l] << s)),
    ensures
        t2 % 32 != 0 ==> forall|l: int|
            0 <= l < 8 ==> (#[trigger] nxt[l]) as nat == (lane_nat(u, r, w, l, 0) / pow2(
                (32 * (t2 / 32)) as nat,
            )) % pow2((t2 % 32) as nat),
        t2 % 32 == 0 ==> forall|l: int|
            0 <= l < 8 ==> (#[trigger] nxt[l]) as nat == pck_word(u, r, w, l, t2 / 32 - 1),
{
    let n = u.len() as int / 8;
    let e = t / (w as int);
    let k = t / 32;
    lemma_fundamental_div_mod(t, w as int);
    lemma_fundamental_div_mod(t, 32);
    lemma_mul_is_commutative(w as int, e);
    assert(e < n) by {
        if e >= n {
            lemma_mul_inequality(n, e, w as int);
            lemma_mul_is_commutative(n, w as int);
            lemma_mul_is_commutative(e, w as int);
            assert(false);
        }
    }
    lemma_u32_shl1_pow2(s);
    lemma_u32_shl1_pow2(w as u32);
    vstd::arithmetic::power2::lemma_pow2_pos(s as nat);
    vstd::arithmetic::power2::lemma_pow2_pos((32 * k) as nat);
    assert forall|l: int| 0 <= l < 8 implies (#[trigger] nxt[l]) as nat == (lane_nat(
        u,
        r,
        w,
        l,
        0,
    ) / pow2((32 * k) as nat)) % pow2((s + w) as nat) by {
        let nn = lane_nat(u, r, w, l, 0);
        let x = nn / pow2((32 * k) as nat);
        let d = dvs[l];
        assert(d == dlt(u, r, e, l));
        assert((d as nat) < pow2(w));
        // or of disjoint parts is their sum
        lemma_pck_or_shl(accs[l], d, s, w as u32);
        assert(nxt[l] as nat == accs[l] as nat + (d as nat) * pow2(s as nat));
        // the incoming delta is the next digit of the stream
        lemma_lane_digit(u, r, w, l, e);
        lemma_div_denominator(nn as int, pow2((32 * k) as nat) as int, pow2(s as nat) as int);
        lemma_pow2_adds((32 * k) as nat, s as nat);
        assert(32 * k + s == t && (w * e) as nat == t as nat);
        assert(x / pow2(s as nat) == nn / pow2(t as nat));
        assert((x / pow2(s as nat)) % pow2(w) == d as nat);
        lemma_seg_split(x, s as nat, w);
        lemma_mul_is_commutative(pow2(s as nat) as int, d as int);
    }
    if s + w < 32 {
        lemma_fundamental_div_mod_converse(t2, 32, k, (s + w) as int);
    } else {
        assert(t2 == (k + 1) * 32) by {
            lemma_mul_is_distributive_add_other_way(32, k, 1);
            lemma_mul_is_commutative(k, 32);
            lemma_mul_is_commutative(k + 1, 32);
        }
        lemma_fundamental_div_mod_converse(t2, 32, k + 1, 0);
        assert(t2 / 32 - 1 == k);
    }
}

/// Only the low bits of the element fit: the or tops up the word exactly.
proof fn lemma_pck_prt_sem(
    u: Seq<u32>,
    r: u32,
    w: nat,
    t: int,
    t2: int,
    s: u32,
    accs: Seq<u32>,
    dvs: Seq<u32>,
    nxt: Seq<u32>,
    prvs: Seq<u32>,
    curv: Seq<u32>,
    unp_off: int,
)
    requires
        fits(u, r, w),
        1 <= w <= 31,
        accs.len() == 8 && dvs.len() == 8 && nxt.len() == 8 && prvs.len() == 8 && curv.len()
            == 8,
        0 <= t < (u.len() as int / 8) * w,
        t % (w as int) == 0,
        unp_off == t / (w as int),
        1 <= unp_off,
        s == t % 32,
        0 < s < 32,
        s + w > 32,
        t2 == t + (32 - s),
        forall|l: int| 0 <= l < 8 ==> (#[trigger] prvs[l]) == u[(unp_off - 1) * 8 + l],
        forall|l: int| 0 <= l < 8 ==> (#[trigger] curv[l]) == u[unp_off * 8 + l],
        forall|l: int|
            0 <= l < 8 ==> (#[trigger] dvs[l]) == vstd::wrapping::u32_specs::wrapping_sub(
                curv[l],
                prvs[l],
            ),
        forall|l: int|
            0 <= l < 8 ==> (#[trigger] accs[l]) as nat == (lane_nat(u, r, w, l, 0) / pow2(
                (32 * (t / 32)) as nat,
            )) % pow2(s as nat),
        forall|l: int| 0 <= l < 8 ==> (#[trigger] nxt[l]) == (accs[l] | (dvs[l] << s)),
    ensures
        forall|l: int|
            0 <= l < 8 ==> (#[trigger] nxt[l]) as nat == pck_word(u, r, w, l, t / 32),
        forall|l: int| 0 <= l < 8 ==> (#[trigger] dvs[l]) == dlt(u, r, t2 / (w as int), l),
        t2 / 32 == t / 32 + 1,
        t2 % 32 == 0,
    decreases 0int,
{
    let n = u.len() as int / 8;
    let e = t / (w as int);
    let k = t / 32;
    lemma_fundamental_div_mod(t, w as int);
    lemma_fundamental_div_mod(t, 32);
    lemma_mul_is_commutative(w as int, e);
    assert(e < n) by {
        if e >= n {
            lemma_mul_inequality(n, e, w as int);
            lemma_mul_is_commutative(n, w as int);
            lemma_mul_is_commutative(e, w as int);
            assert(false);
        }
    }
    lemma_u32_shl1_pow2(s);
    lemma_u32_shl1_pow2((32 - s) as u32);
    vstd::arithmetic::power2::lemma_pow2_pos(s as nat);
    vstd::arithmetic::power2::lemma_pow2_pos((32 * k) as nat);
    assert forall|l: int| 0 <= l < 8 implies (#[trigger] nxt[l]) as nat == pck_word(
        u,
        r,
        w,
        l,
        k,
    ) by {
        let nn = lane_nat(u, r, w, l, 0);
        let x = nn / pow2((32 * k) as nat);
        let d = dvs[l];
        assert(d == dlt(u, r, e, l));
        lemma_pck_or_shl_trunc(accs[l], d, s);
        assert(nxt[l] as nat == accs[l] as nat + ((d as nat) % pow2((32 - s) as nat)) * pow2(
            s as nat,
        ));
        lemma_lane_digit(u, r, w, l, e);
        lemma_div_denominator(nn as int, pow2((32 * k) as nat) as int, pow2(s as nat) as int);
        lemma_pow2_adds((32 * k) as nat, s as nat);
        assert(32 * k + s == t && (w * e) as nat == t as nat);
        assert(x / pow2(s as nat) == nn / pow2(t as nat));
        assert((x / pow2(s as nat)) % pow2(w) == d as nat);
        // only the low 32 - s bits of the digit are taken
        lemma_pow2_mod_mod(nn / pow2(t as nat), (32 - s) as nat, w);
        assert((x / pow2(s as nat)) % pow2((32 - s) as nat) == (d as nat) % pow2(
            (32 - s) as nat,
        ));
        lemma_seg_split(x, s as nat, (32 - s) as nat);
        lemma_mul_is_commutative(pow2(s as nat) as int, ((d as nat) % pow2(
            (32 - s) as nat,
        )) as int);
        assert(nxt[l] as nat == x % pow2(32));
    }
    lemma_fundamental_div_mod_converse(t2, 32, k + 1, 0);
    // the element is only partly consumed: its index is unchanged at t2
    assert(t2 / (w as int) == e) by {
        assert(32 - s < w);
        lemma_fundamental_div_mod_converse(t2, w as int, e, 32 - s);
    }
}

/// The high bits of a straddled element open the next word.
proof fn lemma_pck_bck_sem(
    u: Seq<u32>,
    r: u32,
    w: nat,
    t: int,
    t2: int,
    p: u32,
    dls: Seq<u32>,
    nxt: Seq<u32>,
)
    requires
        fits(u, r, w),
        1 <= w <= 31,
        dls.len() == 8 && nxt.len() == 8,
        0 <= t,
        t % (w as int) != 0,
        t % 32 == 0,
        t == (t / (w as int)) * (w as int) + (32 - ((t / (w as int)) * (w as int)) % 32),
        p == 32 - ((t / (w as int)) * (w as int)) % 32,
        0 < p < w,
        t2 == t + (w - p),
        t / (w as int) < u.len() as int / 8,
        forall|l: int| 0 <= l < 8 ==> (#[trigger] dls[l]) == dlt(u, r, t / (w as int), l),
        forall|l: int| 0 <= l < 8 ==> (#[trigger] nxt[l]) == (dls[l] >> p),
    ensures
        forall|l: int|
            0 <= l < 8 ==> (#[trigger] nxt[l]) as nat == (lane_nat(u, r, w, l, 0) / pow2(
                (32 * (t2 / 32)) as nat,
            )) % pow2((t2 % 32) as nat),
        t2 / 32 == t / 32,
        t2 % 32 == w - p,
{
    let n = u.len() as int / 8;
    let e = t / (w as int);
    let k = t / 32;
    lemma_fundamental_div_mod(t, 32);
    lemma_fundamental_div_mod_converse(t2, 32, k, w - p);
    vstd::arithmetic::power2::lemma_pow2_pos(p as nat);
    vstd::arithmetic::power2::lemma_pow2_pos((w * e) as nat);
    assert forall|l: int| 0 <= l < 8 implies (#[trigger] nxt[l]) as nat == (lane_nat(
        u,
        r,
        w,
        l,
        0,
    ) / pow2((32 * k) as nat)) % pow2((w - p) as nat) by {
        let nn = lane_nat(u, r, w, l, 0);
        let d = dls[l];
        vstd::bits::lemma_u32_shr_is_div(d, p);
        lemma_u32_shl1_pow2(p);
        lemma_lane_digit(u, r, w, l, e);
        let y = nn / pow2((w * e) as nat);
        // the stream above t is the digit's high part
        lemma_div_denominator(nn as int, pow2((w * e) as nat) as int, pow2(p as nat) as int);
        lemma_pow2_adds((w * e) as nat, p as nat);
        assert((w * e) as int + p == t) by {
            lemma_mul_is_commutative(w as int, e);
        }
        assert(32 * k == t);
        assert(nn / pow2((32 * k) as nat) == y / pow2(p as nat));
        lemma_seg_split(y, p as nat, (w - p) as nat);
        assert(y % pow2(w) == d as nat);
        assert(y % pow2(p as nat) + pow2(p as nat) * ((y / pow2(p as nat)) % pow2(
            (w - p) as nat,
        )) == d as nat);
        lemma_mod_division_less_than_divisor(y as int, pow2(p as nat) as int);
        let z = (y / pow2(p as nat)) % pow2((w - p) as nat);
        let rem = y % pow2(p as nat);
        // divide the digit's decomposition by 2^p: the low part vanishes
        lemma_div_vanish_nat(rem, z, pow2(p as nat));
        assert(d as nat == rem + z * pow2(p as nat)) by {
            lemma_mul_is_commutative(z as int, pow2(p as nat) as int);
        }
        assert((d as nat) / pow2(p as nat) == (y / pow2(p as nat)) % pow2((w - p) as nat));
    }
}

/// The final store writes the last, possibly partial, word exactly.
proof fn lemma_pck_last_sem(
    u: Seq<u32>,
    r: u32,
    w: nat,
    t2: int,
    k: int,
    sum: int,
    outs: Seq<u32>,
)
    requires
        fits(u, r, w),
        1 <= w <= 31,
        outs.len() == 8,
        t2 == (u.len() as int / 8) * w,
        1 <= sum <= 32,
        t2 == 32 * k + sum,
        sum == 32 ==> forall|l: int|
            0 <= l < 8 ==> (#[trigger] outs[l]) as nat == pck_word(u, r, w, l, k),
        sum < 32 ==> forall|l: int|
            0 <= l < 8 ==> (#[trigger] outs[l]) as nat == (lane_nat(u, r, w, l, 0) / pow2(
                (32 * k) as nat,
            )) % pow2(sum as nat),
    ensures
        forall|l: int| 0 <= l < 8 ==> (#[trigger] outs[l]) as nat == pck_word(u, r, w, l, k),
{
    let n = u.len() as int / 8;
    if sum < 32 {
        assert forall|l: int| 0 <= l < 8 implies (#[trigger] outs[l]) as nat == pck_word(
            u,
            r,
            w,
            l,
            k,
        ) by {
            let nn = lane_nat(u, r, w, l, 0);
            lemma_lane_nat_bound(u, r, w, l, 0);
            assert(nn < pow2((w * n) as nat)) by {
                lemma_mul_is_commutative(w as int, n);
            }
            vstd::arithmetic::power2::lemma_pow2_pos((32 * k) as nat);
            lemma_pow2_adds((32 * k) as nat, sum as nat);
            assert(pow2((32 * k) as nat) * pow2(sum as nat) == pow2((w * n) as nat)) by {
                lemma_mul_is_commutative(w as int, n);
                assert((32 * k + sum) as nat == (w * n) as nat);
            }
            lemma_div_bound(nn, pow2((32 * k) as nat), pow2(sum as nat));
            let x = nn / pow2((32 * k) as nat);
            lemma_small_mod(x, pow2(sum as nat));
            lemma_pow2_strictly_increases(sum as nat, 32);
            lemma_small_mod(x, pow2(32));
        }
    }
}

/// After the final store the word counter equals the lane word count.
proof fn lemma_last_word_count(w: int, n: int, k: int, sum: int)
    requires
        1 <= w,
        1 <= n,
        1 <= sum <= 32,
        n * w == 32 * k + sum,
        0 <= k,
    ensures
        (n * w + 31) / 32 == k + 1,
{
    assert(n * w + 31 == 32 * (k + 1) + (sum - 1)) by {
        lemma_mul_is_distributive_add(32, k, 1);
    }
    lemma_fundamental_div_mod_converse(n * w + 31, 32, k + 1, sum - 1);
}

/// A stored vector extends the run of correct packed words by one.
proof fn lemma_store_words(
    u: Seq<u32>,
    r: u32,
    w: nat,
    pre: Seq<u8>,
    post: Seq<u8>,
    koff: int,
)
    requires
        pre.len() == post.len(),
        0 <= koff,
        32 * koff + 32 <= post.len(),
        forall|i: int|
            0 <= i < post.len() && !(32 * koff <= i < 32 * koff + 32) ==> post[i] == pre[i],
        forall|k: int, l: int|
            0 <= k < koff && 0 <= l < 8 ==> le_word(pre, 32 * k + 4 * l) == pck_word(u, r, w, l, k),
        forall|l: int| 0 <= l < 8 ==> le_word(post, 32 * koff + 4 * l) == pck_word(u, r, w, l, koff),
    ensures
        forall|k: int, l: int|
            0 <= k < koff + 1 && 0 <= l < 8 ==> le_word(post, 32 * k + 4 * l) == pck_word(
                u,
                r,
                w,
                l,
                k,
            ),
{
    assert forall|k: int, l: int| 0 <= k < koff + 1 && 0 <= l < 8 implies le_word(
        post,
        32 * k + 4 * l,
    ) == pck_word(u, r, w, l, k) by {
        if k < koff {
            assert(32 * k + 4 * l + 3 < 32 * koff) by {
                lemma_mul_inequality(k + 1, koff, 32);
                lemma_mul_is_commutative(k + 1, 32);
                lemma_mul_is_commutative(koff, 32);
                lemma_mul_is_distributive_add(32, k, 1);
            }
            assert(le_word(post, 32 * k + 4 * l) == le_word(pre, 32 * k + 4 * l));
        }
    }
}

/// Adding a multiple of the divisor on top of a small value divides out
/// exactly.
proof fn lemma_div_vanish_nat(a: nat, b: nat, m: nat)
    requires
        m > 0,
        a < m,
    ensures
        (a + b * m) / m == b,
{
    lemma_mul_is_commutative(b as int, m as int);
    lemma_fundamental_div_mod_converse((a + b * m) as int, m as int, b as int, a as int);
}

/// Splitting a value's low `s + c` bits at position `s`./// Splitting a value's low `s + c` bits at position `s`.
proof fn lemma_seg_split(x: nat, s: nat, c: nat)
    ensures
        x % pow2(s + c) == x % pow2(s) + pow2(s) * ((x / pow2(s)) % pow2(c)),
{
    vstd::arithmetic::power2::lemma_pow2_pos(s);
    vstd::arithmetic::power2::lemma_pow2_pos(c);
    lemma_pow2_adds(s, c);
    lemma_mod_breakdown(x as int, pow2(s) as int, pow2(c) as int);
}


/// `blk_pck` packs a block into caller-supplied bytes.
///
/// Width 0 writes nothing. Width 32 is a raw little-endian byte copy of the
/// block; the reference is ignored. For widths 1 to 31 the schedule drives a
/// delta pack: whenever the block is representable at the width, every
/// packed 32-bit word equals the matching base-`2^32` digit of its lane's
/// delta stream, which pins each output byte. Bytes past the packed length
/// are never touched.
pub fn blk_pck(elm_bit_len: u8, fst: u32, unp: &[u32], pck: &mut Vec<u8>)
    requires
        elm_bit_len <= 32,
        unp@.len() >= 16,
        unp@.len() % 8 == 0,
        unp@.len() * 32 + 256 <= usize::MAX,
        old(pck)@.len() >= byt_len_spec(elm_bit_len as nat, unp@.len() as nat),
    ensures
        final(pck)@.len() == old(pck)@.len(),
        forall|i: int|
            byt_len_spec(elm_bit_len as nat, unp@.len() as nat) <= i < final(pck)@.len()
                ==> final(pck)@[i] == old(pck)@[i],
        elm_bit_len == 32 ==> forall|i: int|
            0 <= i < 4 * unp@.len() ==> final(pck)@[i] == u32_byte(unp@[i / 4], i % 4),
        1 <= elm_bit_len <= 31 && fits(unp@, fst, elm_bit_len as nat) ==> forall|k: int, l: int|
            0 <= k < lane_words(elm_bit_len as nat, (unp@.len() as int / 8) as nat) && 0 <= l < 8
                ==> le_word(final(pck)@, 32 * k + 4 * l) == pck_word(
                unp@,
                fst,
                elm_bit_len as nat,
                l,
                k,
            ),
{
    let n_elm = unp.len();
    if elm_bit_len == 0 {
        return ;
    }
    if elm_bit_len == 32 {
        let mut i: usize = 0;
        proof {
            assert(pck.len() == pck@.len());
        }
        while i < n_elm
            invariant
                n_elm == unp@.len(),
                pck@.len() == old(pck)@.len(),
                pck@.len() <= usize::MAX,
                4 * n_elm <= pck@.len(),
                i <= n_elm,
                forall|j: int| 0 <= j < 4 * i ==> pck@[j] == u32_byte(unp@[j / 4], j % 4),
                forall|j: int| 4 * i <= j < pck@.len() ==> pck@[j] == old(pck)@[j],
            decreases n_elm - i,
        {
            let v = unp[i];
            proof {
                lemma_u32_le_bytes(v);
                lemma_u32_byte_digits(v);
            }
            pck.set(4 * i, (v & 0xff) as u8);
            pck.set(4 * i + 1, ((v >> 8) & 0xff) as u8);
            pck.set(4 * i + 2, ((v >> 16) & 0xff) as u8);
            pck.set(4 * i + 3, ((v >> 24) & 0xff) as u8);
            proof {
                assert forall|j: int| 0 <= j < 4 * (i + 1) implies pck@[j] == u32_byte(
                    unp@[j / 4],
                    j % 4,
                ) by {
                    if 4 * i <= j {
                        lemma_fundamental_div_mod_converse(j, 4, i as int, j - 4 * i);
                    }
                }
            }
            i = i + 1;
        }
        return ;
    }
    // widths 1 to 31: drive the schedule
    let wu = elm_bit_len as usize;
    let ghost u = unp@;
    let ghost wn: nat = elm_bit_len as nat;
    let ghost wi: int = elm_bit_len as int;
    let ghost n: int = n_elm as int / 8;
    let ghost big_w: int = lane_words(wn, n as nat) as int;
    proof {
        assert(wu * n_elm + 256 <= usize::MAX) by {
            lemma_mul_inequality(wu as int, 32, n_elm as int);
            lemma_mul_is_commutative(wu as int, n_elm as int);
            lemma_mul_is_commutative(32, n_elm as int);
        }
    }
    let mut itr = blk_itr(wu, n_elm);
    let mut acc: Vec<u32> = v_bcast(0);
    let mut prv: Vec<u32> = v_bcast(fst);
    let mut dl: Vec<u32> = v_bcast(0);
    let mut unp_off: usize = 0;
    let mut pck_off: usize = 0;
    proof {
        assert(pck.len() == pck@.len());
        assert(8 * (n * wi) == wu * n_elm) by {
            lemma_fundamental_div_mod(n_elm as int, 8);
            lemma_mul_is_associative(wi, 8, n);
            lemma_mul_is_commutative(wi, 8);
            lemma_mul_is_associative(8, wi, n);
            lemma_mul_is_commutative(wi, n);
            lemma_mul_is_associative(8, n, wi);
        }
        assert(itr.blk_bit_len as int == 8 * (n * wi));
        assert(big_w == (n * wi + 31) / 32) by {
            lemma_mul_is_commutative(wi, n);
            assert((wn * (n as nat)) as int == n * wi);
        }
        lemma_fundamental_div_mod_converse(0int, 8, 0, 0);
        lemma_fundamental_div_mod_converse(0int, 32, 0, 0);
        lemma_fundamental_div_mod_converse(0int, wi, 0, 0);
        // the packed length fits the buffer: 32 words per lane word count
        assert(pck@.len() >= 32 * big_w);
    }
    while itr.prv.blk_bit_sum != itr.blk_bit_len
        invariant
            n_elm == unp@.len(),
            u == unp@,
            wn == elm_bit_len as nat,
            wi == wn as int,
            1 <= wi <= 31,
            n == n_elm as int / 8,
            n_elm % 8 == 0,
            n_elm >= 16,
            n >= 2,
            n_elm as int == 8 * n,
            n_elm * 32 + 256 <= usize::MAX,
            big_w == lane_words(wn, n as nat) as int,
            big_w == (n * wi + 31) / 32,
            itr.wf(),
            itr.elm_bit_len == wu,
            wu == wi,
            itr.elm_per_blk == n_elm,
            itr.blk_bit_len as int == 8 * (n * wi),
            itm_ok(wi, itr.prv),
            acc@.len() == 8,
            prv@.len() == 8,
            dl@.len() == 8,
            pck@.len() == old(pck)@.len(),
            pck@.len() >= 32 * big_w,
            pck@.len() <= usize::MAX,
            blk_pos(wi, n, itr.prv.blk_bit_sum as int / 8, unp_off as int, pck_off as int),
            forall|i: int| 32 * pck_off <= i < pck@.len() ==> pck@[i] == old(pck)@[i],
            fits(u, fst, wn) ==> pck_sem(
                u,
                fst,
                wn,
                itr.prv.blk_bit_sum as int / 8,
                pck_off as int,
                acc@,
                prv@,
                dl@,
                unp_off as int,
                pck@,
            ),
        decreases itr.blk_bit_len - itr.prv.blk_bit_sum,
    {
        let ghost pre = itr.prv;
        let ghost t: int = pre.blk_bit_sum as int / 8;
        let step = itr.next();
        let ghost cur = itr.prv;
        let ghost t2: int = cur.blk_bit_sum as int / 8;
        proof {
            lemma_fundamental_div_mod(pre.blk_bit_sum as int, 8);
            assert(pre.blk_bit_sum as int == 8 * t);
            assert(t != n * wi);
            assert(t < n * wi && t <= n * wi);
            assert(pre.blk_bit_sum as int <= usize::MAX - 256);
            lemma_sched_step(wi, n, pre, cur);
            lemma2_to64();
            lemma_fundamental_div_mod(cur.blk_bit_sum as int, 8);
            assert(cur.blk_bit_sum as int == 8 * t2);
            // the word position after the step
            if cur.lne_bit_sum < 32 {
                lemma_fundamental_div_mod_converse(t2, 32, t / 32, cur.lne_bit_sum as int);
            } else {
                lemma_fundamental_div_mod_converse(t2, 32, t / 32 + 1, 0);
            }
        }
        match step {
            None => {
                proof {
                    assert(false);
                }
            },
            Some(Itr::Fst) => {
                // first element: its deltas against the broadcast reference
                // open word 0 of every lane
                let cur_v = v_load(unp, 0);
                let nxt = v_sub(&cur_v, &prv);
                proof {
                    assert(t == 0 && t2 == wi);
                    lemma_fundamental_div_mod_converse(t2, 32, 0, wi);
                    lemma_fundamental_div_mod_converse(t2, wi, 1, 0);
                    if fits(u, fst, wn) {
                        assert forall|l: int| 0 <= l < 8 implies (#[trigger] nxt@[l]) as nat
                            == (lane_nat(u, fst, wn, l, 0) / pow2((32 * (t2 / 32)) as nat))
                            % pow2((t2 % 32) as nat) by {
                            assert(nxt@[l] == dlt(u, fst, 0, l));
                            lemma_lane_digit(u, fst, wn, l, 0);
                            lemma_lane_nat_shift(u, fst, wn, l, 0);
                            assert((wn * 0) as nat == 0 && (32 * (t2 / 32)) as nat == 0);
                        }
                    }
                }
                acc = nxt;
                prv = cur_v;
                unp_off = 1;
            },
            Some(Itr::Mdl { itm }) | Some(Itr::Lst { itm }) => {
                let ghost is_lst = t2 == n * wi;
                proof {
                    assert(itm == cur);
                    assert(t >= 1);
                    if !is_lst {
                        assert(t2 < n * wi);
                    }
                }
                match itm.shf_dir {
                    Dir::Zro => {
                        proof {
                            lemma_load_ok(wi, n, t, unp_off as int, n_elm as int);
                            // a fresh element at a word boundary
                            assert(t % 32 == 0) by {
                                if t % 32 != 0 {
                                    assert(pre.lne_bit_sum == t % 32 && pre.lne_bit_sum < 32);
                                    assert(false);
                                }
                            }
                        }
                        let cur_v = v_load(unp, unp_off);
                        let nxt = v_sub(&cur_v, &prv);
                        proof {
                            if fits(u, fst, wn) {
                                lemma_pck_zro_sem(
                                    u,
                                    fst,
                                    wn,
                                    t,
                                    t2,
                                    nxt@,
                                    prv@,
                                    cur_v@,
                                    unp_off as int,
                                );
                            }
                        }
                        acc = nxt;
                        prv = cur_v;
                        unp_off = unp_off + 1;
                    },
                    Dir::Bck => {
                        proof {
                            assert(0 < itm.shf_len < wi && itm.shf_len < 32);
                            assert(t / wi < n) by {
                                lemma_fundamental_div_mod(t, wi);
                                lemma_mul_is_commutative(wi, t / wi);
                                if t / wi >= n {
                                    lemma_mul_inequality(n, t / wi, wi);
                                    lemma_mul_is_commutative(n, wi);
                                    lemma_mul_is_commutative(t / wi, wi);
                                    assert(false);
                                }
                            }
                        }
                        let nxt = v_shr(&dl, itm.shf_len as u32);
                        proof {
                            if fits(u, fst, wn) {
                                lemma_pck_bck_sem(
                                    u,
                                    fst,
                                    wn,
                                    t,
                                    t2,
                                    itm.shf_len as u32,
                                    dl@,
                                    nxt@,
                                );
                            }
                        }
                        acc = nxt;
                    },
                    Dir::Fwd => {
                        proof {
                            lemma_load_ok(wi, n, t, unp_off as int, n_elm as int);
                            assert(0 < itm.shf_len && itm.shf_len + wi <= 32);
                            assert(itm.shf_len == t % 32);
                        }
                        let cur_v = v_load(unp, unp_off);
                        let d_v = v_sub(&cur_v, &prv);
                        let sh = v_shl(&d_v, itm.shf_len as u32);
                        let nxt = v_or(&acc, &sh);
                        proof {
                            if fits(u, fst, wn) {
                                lemma_pck_fwd_sem(
                                    u,
                                    fst,
                                    wn,
                                    t,
                                    t2,
                                    itm.shf_len as u32,
                                    acc@,
                                    d_v@,
                                    nxt@,
                                    prv@,
                                    cur_v@,
                                    unp_off as int,
                                );
                            }
                        }
                        acc = nxt;
                        prv = cur_v;
                        unp_off = unp_off + 1;
                    },
                    Dir::FwdPrt => {
                        proof {
                            lemma_load_ok(wi, n, t, unp_off as int, n_elm as int);
                            assert(0 < itm.shf_len < 32 && itm.shf_len + wi > 32);
                            assert(itm.shf_len == t % 32);
                        }
                        let cur_v = v_load(unp, unp_off);
                        let d_v = v_sub(&cur_v, &prv);
                        let sh = v_shl(&d_v, itm.shf_len as u32);
                        let nxt = v_or(&acc, &sh);
                        proof {
                            if fits(u, fst, wn) {
                                lemma_pck_prt_sem(
                                    u,
                                    fst,
                                    wn,
                                    t,
                                    t2,
                                    itm.shf_len as u32,
                                    acc@,
                                    d_v@,
                                    nxt@,
                                    prv@,
                                    cur_v@,
                                    unp_off as int,
                                );
                            }
                        }
                        acc = nxt;
                        dl = d_v;
                        prv = cur_v;
                        unp_off = unp_off + 1;
                    },
                }
                // Write the SIMD vector: mid-block when its word is full, and
                // always on the final step
                if itm.lne_bit_sum == 32 || itm.blk_bit_sum == itr.blk_bit_len {
                    let ghost pre_pck = pck@;
                    proof {
                        lemma_store_ok(wi, n, t, pck_off as int, big_w);
                    }
                    let off = 32 * pck_off;
                    v_store(pck, off, &acc);
                    proof {
                        if fits(u, fst, wn) {
                            if is_lst {
                                lemma_pck_last_sem(
                                    u,
                                    fst,
                                    wn,
                                    t2,
                                    pck_off as int,
                                    cur.lne_bit_sum as int,
                                    acc@,
                                );
                            }
                            assert forall|l: int| 0 <= l < 8 implies le_word(
                                pck@,
                                32 * (pck_off as int) + 4 * l,
                            ) == pck_word(u, fst, wn, l, pck_off as int) by {
                                assert((acc@[l] as nat) == pck_word(u, fst, wn, l, pck_off as int));
                                assert(le_word(pck@, off + 4 * l) == acc@[l] as nat);
                                assert(off as int == 32 * (pck_off as int));
                            }
                            lemma_store_words(u, fst, wn, pre_pck, pck@, pck_off as int);
                        }
                    }
                    pck_off = pck_off + 1;
                    proof {
                        if is_lst {
                            lemma_last_word_count(
                                wi,
                                n,
                                (pck_off - 1) as int,
                                cur.lne_bit_sum as int,
                            );
                        }
                    }
                }
            },
        }
    }
    proof {
        assert(itr.prv.blk_bit_sum as int / 8 == n * wi);
        assert(pck_off as int == big_w);
        assert(32 * big_w == byt_len_spec(wn, n_elm as nat)) by {
            assert(lane_words(wn, n as nat) == (wn * (n as nat) + 31) / 32);
            assert((wn * (n as nat)) as int == n * wi);
        }
    }
}


/// The words of lane `l` read back from packed bytes, from word `k` on, as
/// one natural number with base-`2^32` digits.
pub open spec fn lane_bytes_nat(s: Seq<u8>, l: int, k: int, kc: int) -> nat
    decreases kc - k,
{
    if k < 0 || k >= kc {
        0
    } else {
        le_word(s, 32 * k + 4 * l) + pow2(32) * lane_bytes_nat(s, l, k + 1, kc)
    }
}

/// The delta recovered for element `e` of lane `l` from packed bytes: bits
/// `[w e, w e + w)` of the lane's reassembled stream.
pub open spec fn ext_dlt(s: Seq<u8>, w: nat, n: int, l: int, e: int) -> nat {
    (lane_bytes_nat(s, l, 0, lane_words(w, n as nat) as int) / pow2((w * e) as nat)) % pow2(w)
}

/// Row `e` of lane `l` after unpacking: the reference plus the wrapping
/// prefix sum of the recovered deltas.
pub open spec fn unp_row(s: Seq<u8>, r: u32, w: nat, n: int, l: int, e: int) -> u32
    decreases e + 1,
{
    if e < 0 {
        r
    } else {
        vstd::wrapping::u32_specs::wrapping_add(
            unp_row(s, r, w, n, l, e - 1),
            ext_dlt(s, w, n, l, e) as u32,
        )
    }
}

/// A 32-bit word is a single base-`2^32` digit.
proof fn lemma_le_word_bound(s: Seq<u8>, off: int)
    requires
        0 <= off,
        off + 4 <= s.len(),
    ensures
        le_word(s, off) < pow2(32),
{
    lemma2_to64();
}

/// Dividing the reassembled stream by `2^(32 k)` discards the first `k`
/// words.
proof fn lemma_bytes_nat_shift(s: Seq<u8>, l: int, k: int, kc: int)
    requires
        0 <= k <= kc,
        32 * kc <= s.len(),
        0 <= l < 8,
    ensures
        lane_bytes_nat(s, l, 0, kc) / pow2((32 * k) as nat) == lane_bytes_nat(s, l, k, kc),
    decreases k,
{
    lemma2_to64();
    if k == 0 {
        lemma_fundamental_div_mod_converse(
            lane_bytes_nat(s, l, 0, kc) as int,
            1,
            lane_bytes_nat(s, l, 0, kc) as int,
            0,
        );
    } else {
        lemma_bytes_nat_shift(s, l, k - 1, kc);
        let a = lane_bytes_nat(s, l, k - 1, kc);
        assert(a / pow2(32) == lane_bytes_nat(s, l, k, kc)) by {
            if k - 1 < kc {
                let d = le_word(s, 32 * (k - 1) + 4 * l);
                let rest = lane_bytes_nat(s, l, k, kc);
                assert(32 * (k - 1) + 4 * l + 4 <= s.len()) by {
                    lemma_mul_inequality(k, kc, 32);
                    lemma_mul_is_commutative(k, 32);
                    lemma_mul_is_commutative(kc, 32);
                }
                lemma_le_word_bound(s, 32 * (k - 1) + 4 * l);
                lemma_div_vanish_nat(d, rest, pow2(32));
                lemma_mul_is_commutative(rest as int, pow2(32) as int);
            } else {
                lemma_fundamental_div_mod_converse(0int, pow2(32) as int, 0, 0);
            }
        }
        vstd::arithmetic::power2::lemma_pow2_pos((32 * (k - 1)) as nat);
        vstd::arithmetic::power2::lemma_pow2_pos(32);
        lemma_div_denominator(
            lane_bytes_nat(s, l, 0, kc) as int,
            pow2((32 * (k - 1)) as nat) as int,
            pow2(32) as int,
        );
        lemma_pow2_adds((32 * (k - 1)) as nat, 32);
    }
}

/// Word extraction: word `k` of the reassembled stream is the word stored in
/// the bytes.
proof fn lemma_bytes_word(s: Seq<u8>, l: int, k: int, kc: int)
    requires
        0 <= k < kc,
        32 * kc <= s.len(),
        0 <= l < 8,
    ensures
        (lane_bytes_nat(s, l, 0, kc) / pow2((32 * k) as nat)) % pow2(32) == le_word(
            s,
            32 * k + 4 * l,
        ),
{
    lemma_bytes_nat_shift(s, l, k, kc);
    let d = le_word(s, 32 * k + 4 * l);
    let rest = lane_bytes_nat(s, l, k + 1, kc);
    assert(32 * k + 4 * l + 4 <= s.len()) by {
        lemma_mul_inequality(k + 1, kc, 32);
        lemma_mul_is_commutative(k + 1, 32);
        lemma_mul_is_commutative(kc, 32);
        lemma_mul_is_distributive_add(32, k, 1);
    }
    lemma_le_word_bound(s, 32 * k + 4 * l);
    lemma_mod_multiples_vanish(rest as int, d as int, pow2(32) as int);
    lemma_mul_is_commutative(pow2(32) as int, rest as int);
    lemma_small_mod(d, pow2(32));
}

/// Rebuilding the stream from packed words recovers the packed stream: if
/// every stored word is the matching digit of the lane's delta stream, the
/// reassembled number is that stream.
pub proof fn lemma_bytes_rebuild(
    b: Seq<u8>,
    u: Seq<u32>,
    r: u32,
    w: nat,
    l: int,
    k: int,
    kc: int,
)
    requires
        fits(u, r, w),
        1 <= w <= 31,
        0 <= l < 8,
        0 <= k <= kc,
        kc == lane_words(w, (u.len() as int / 8) as nat) as int,
        u.len() as int % 8 == 0,
        u.len() >= 16,
        forall|kk: int, ll: int|
            0 <= kk < kc && 0 <= ll < 8 ==> le_word(b, 32 * kk + 4 * ll) == pck_word(
                u,
                r,
                w,
                ll,
                kk,
            ),
    ensures
        lane_bytes_nat(b, l, k, kc) == lane_nat(u, r, w, l, 0) / pow2((32 * k) as nat),
    decreases kc - k,
{
    let n = u.len() as int / 8;
    let nn = lane_nat(u, r, w, l, 0);
    lemma2_to64();
    vstd::arithmetic::power2::lemma_pow2_pos((32 * k) as nat);
    if k == kc {
        // beyond the last word the stream is exhausted
        assert(nn < pow2((32 * kc) as nat)) by {
            lemma_lane_nat_bound(u, r, w, l, 0);
            lemma_mul_is_commutative(w as int, n);
            assert((w * n) as int <= 32 * kc) by {
                lemma_fundamental_div_mod(n * (w as int) + 31, 32);
                lemma_mul_is_commutative(w as int, n);
            }
            if (((w as int) * n) as nat) < ((32 * kc) as nat) {
                lemma_pow2_strictly_increases(((w as int) * n) as nat, (32 * kc) as nat);
            }
        }
        vstd::arithmetic::div_mod::lemma_basic_div(nn as int, pow2((32 * k) as nat) as int);
    } else {
        lemma_bytes_rebuild(b, u, r, w, l, k + 1, kc);
        let d = le_word(b, 32 * k + 4 * l);
        assert(d == pck_word(u, r, w, l, k));
        let x = nn / pow2((32 * k) as nat);
        // a base-2^32 digit plus 2^32 times the higher digits
        lemma_div_denominator(nn as int, pow2((32 * k) as nat) as int, pow2(32) as int);
        lemma_pow2_adds((32 * k) as nat, 32);
        assert(nn / pow2((32 * (k + 1)) as nat) == x / pow2(32));
        lemma_fundamental_div_mod(x as int, pow2(32) as int);
        assert(x == pow2(32) * (x / pow2(32)) + x % pow2(32));
        assert(lane_bytes_nat(b, l, k, kc) == d + pow2(32) * lane_bytes_nat(b, l, k + 1, kc));
    }
}

/// Wrapping addition undoes wrapping subtraction.
proof fn lemma_wrap_cancel(x: u32, y: u32)
    ensures
        vstd::wrapping::u32_specs::wrapping_add(
            x,
            vstd::wrapping::u32_specs::wrapping_sub(y, x),
        ) == y,
{
}

/// Unpacking inverts packing: whenever the packed words are the digits of
/// the block's delta streams, every unpacked row equals the original row.
pub proof fn lemma_blk_round_trip(
    b: Seq<u8>,
    u: Seq<u32>,
    r: u32,
    w: nat,
    l: int,
    e: int,
)
    requires
        fits(u, r, w),
        1 <= w <= 31,
        0 <= l < 8,
        -1 <= e < u.len() as int / 8,
        u.len() as int % 8 == 0,
        u.len() >= 16,
        forall|kk: int, ll: int|
            0 <= kk < lane_words(w, (u.len() as int / 8) as nat) && 0 <= ll < 8 ==> le_word(
                b,
                32 * kk + 4 * ll,
            ) == pck_word(u, r, w, ll, kk),
    ensures
        e >= 0 ==> unp_row(b, r, w, u.len() as int / 8, l, e) == u[e * 8 + l],
        e == -1 ==> unp_row(b, r, w, u.len() as int / 8, l, e) == r,
    decreases e + 1,
{
    let n = u.len() as int / 8;
    let kc = lane_words(w, n as nat) as int;
    if e >= 0 {
        lemma_blk_round_trip(b, u, r, w, l, e - 1);
        lemma_bytes_rebuild(b, u, r, w, l, 0, kc);
        lemma_lane_digit(u, r, w, l, e);
        lemma2_to64();
        let nn = lane_nat(u, r, w, l, 0);
        assert(nn / pow2(0) == nn) by {
            lemma_fundamental_div_mod_converse(nn as int, 1, nn as int, 0);
        }
        assert(lane_bytes_nat(b, l, 0, kc) == nn);
        assert(ext_dlt(b, w, n, l, e) == dlt(u, r, e, l) as nat);
        let prior = if e == 0 {
            r
        } else {
            u[(e - 1) * 8 + l]
        };
        assert(unp_row(b, r, w, n, l, e - 1) == prior);
        lemma_wrap_cancel(prior, u[e * 8 + l]);
    }
}


/// `(x % 2^(s+c)) / 2^s == (x / 2^s) % 2^c`: dropping high bits then low
/// bits equals dropping low bits then high bits.
proof fn lemma_mod_div_swap(x: nat, s: nat, c: nat)
    ensures
        (x % pow2(s + c)) / pow2(s) == (x / pow2(s)) % pow2(c),
{
    vstd::arithmetic::power2::lemma_pow2_pos(s);
    vstd::arithmetic::power2::lemma_pow2_pos(c);
    lemma_pow2_adds(s, c);
    lemma_mod_breakdown(x as int, pow2(s) as int, pow2(c) as int);
    let z = (x / pow2(s)) % pow2(c);
    lemma_mod_division_less_than_divisor(x as int, pow2(s) as int);
    lemma_div_vanish_nat(x % pow2(s), z, pow2(s));
    lemma_mul_is_commutative(pow2(s) as int, z as int);
}

/// `(a * 2^p) % 2^(p+c) == (a % 2^c) * 2^p`.
proof fn lemma_mul_mod_shift(a: nat, p: nat, c: nat)
    ensures
        (a * pow2(p)) % pow2(p + c) == (a % pow2(c)) * pow2(p),
{
    vstd::arithmetic::power2::lemma_pow2_pos(p);
    vstd::arithmetic::power2::lemma_pow2_pos(c);
    lemma_pow2_adds(p, c);
    let q = a / pow2(c);
    let rr = a % pow2(c);
    lemma_fundamental_div_mod(a as int, pow2(c) as int);
    assert(a * pow2(p) == q * pow2(p + c) + rr * pow2(p)) by {
        assert(a == pow2(c) * q + rr);
        lemma_mul_is_distributive_add_other_way(pow2(p) as int, (pow2(c) * q) as int, rr as int);
        lemma_mul_is_commutative(a as int, pow2(p) as int);
        lemma_mul_is_commutative((pow2(c) * q) as int, pow2(p) as int);
        lemma_mul_is_associative(pow2(p) as int, pow2(c) as int, q as int);
        lemma_mul_is_commutative(pow2(p) as int, pow2(c) as int);
        lemma_mul_is_commutative((pow2(c) * pow2(p)) as int, q as int);
        lemma_mul_is_commutative(rr as int, pow2(p) as int);
    }
    vstd::arithmetic::power2::lemma_pow2_pos(p + c);
    lemma_mod_multiples_vanish(q as int, (rr * pow2(p)) as int, pow2(p + c) as int);
    lemma_mul_is_commutative(q as int, pow2(p + c) as int);
    assert(rr * pow2(p) < pow2(p + c)) by {
        lemma_mul_strict_inequality(rr as int, pow2(c) as int, pow2(p) as int);
        lemma_mul_is_commutative(rr as int, pow2(p) as int);
        lemma_mul_is_commutative(pow2(c) as int, pow2(p) as int);
    }
    lemma_small_mod(rr * pow2(p), pow2(p + c));
}

proof fn lemma_u32_or_low_add(a: u32, b: u32, p: u32)
    by (bit_vector)
    requires
        p < 32,
        a < (1u32 << p),
        b & (((1u32 << p) - 1) as u32) == 0,
    ensures
        (a | b) == a + b,
{
}

/// The mask term of the unpacker: `v & ((1 << w) - 1)` keeps `v`'s low `w`
/// bits.
proof fn lemma_u32_mask_mod(v: u32, msk: u32, w: nat)
    requires
        1 <= w < 32,
        msk as nat == pow2(w) - 1,
    ensures
        (v & msk) as nat == (v as nat) % pow2(w),
{
    vstd::bits::lemma_u32_low_bits_mask_is_mod(v, w);
    vstd::arithmetic::power2::lemma_pow2_pos(w);
    lemma2_to64();
    lemma_pow2_strictly_increases(w, 32);
    assert((pow2(w) as u32) as nat == pow2(w));
    assert(vstd::bits::low_bits_mask(w) == (pow2(w) - 1) as nat);
    assert(msk == vstd::bits::low_bits_mask(w) as u32);
    assert(v & msk == v % (pow2(w) as u32));
}

/// The semantic part of the unpack loop invariant: finished rows hold the
/// recovered prefix sums, the current word is loaded, a straddled delta's
/// low bits are retained.
pub open spec fn unp_sem(
    b: Seq<u8>,
    r: u32,
    w: nat,
    n: int,
    t: int,
    kc: int,
    smds: Seq<u32>,
    prvs: Seq<u32>,
    dls: Seq<u32>,
    unpv: Seq<u32>,
) -> bool {
    &&& (forall|j: int, l: int|
        0 <= j < t / (w as int) && 0 <= l < 8 ==> unpv[j * 8 + l] == unp_row(b, r, w, n, l, j))
    &&& (forall|l: int|
        0 <= l < 8 ==> (#[trigger] prvs[l]) == unp_row(b, r, w, n, l, t / (w as int) - 1))
    &&& (t < n * (w as int) ==> forall|l: int|
        0 <= l < 8 ==> (#[trigger] smds[l]) as nat == le_word(b, 32 * (t / 32) + 4 * l))
    &&& (t % (w as int) != 0 ==> forall|l: int|
        0 <= l < 8 ==> (#[trigger] dls[l]) as nat == (lane_bytes_nat(b, l, 0, kc) / pow2(
            (w * (t / (w as int))) as nat,
        )) % pow2((32 - ((t / (w as int)) * (w as int)) % 32) as nat))
}

/// A full element is recovered from the current word: at a word boundary
/// with no shift, or inside the word at shift `s`.
proof fn lemma_unp_elem_sem(
    b: Seq<u8>,
    r: u32,
    w: nat,
    n: int,
    kc: int,
    t: int,
    s: u32,
    msk: u32,
    smds: Seq<u32>,
    prvs: Seq<u32>,
    curs: Seq<u32>,
)
    requires
        n >= 1,
        1 <= w <= 31,
        smds.len() == 8 && prvs.len() == 8 && curs.len() == 8,
        0 <= t < n * (w as int),
        t % (w as int) == 0,
        kc == lane_words(w, n as nat) as int,
        32 * kc <= b.len(),
        s == t % 32,
        s + w <= 32,
        msk as nat == pow2(w) - 1,
        forall|l: int|
            0 <= l < 8 ==> (#[trigger] smds[l]) as nat == le_word(b, 32 * (t / 32) + 4 * l),
        forall|l: int| 0 <= l < 8 ==> (#[trigger] prvs[l]) == unp_row(b, r, w, n, l, t / (
        w as int) - 1),
        forall|l: int|
            0 <= l < 8 ==> (#[trigger] curs[l]) == vstd::wrapping::u32_specs::wrapping_add(
                prvs[l],
                ((smds[l] >> s) & msk),
            ),
    ensures
        forall|l: int| 0 <= l < 8 ==> (#[trigger] curs[l]) == unp_row(b, r, w, n, l, t / (
        w as int)),
{
    let e = t / (w as int);
    let k = t / 32;
    lemma_fundamental_div_mod(t, w as int);
    lemma_fundamental_div_mod(t, 32);
    lemma_mul_is_commutative(w as int, e);
    lemma2_to64();
    assert forall|l: int| 0 <= l < 8 implies (#[trigger] curs[l]) == unp_row(b, r, w, n, l, e) by {
        let m = lane_bytes_nat(b, l, 0, kc);
        let x = m / pow2((32 * k) as nat);
        assert(k < kc) by {
            lemma_mul_is_commutative(w as int, n);
            assert(kc == (n * (w as int) + 31) / 32);
            lemma_store_ok(w as int, n, t, k, kc);
        }
        lemma_bytes_word(b, l, k, kc);
        assert(smds[l] as nat == x % pow2(32));
        vstd::bits::lemma_u32_shr_is_div(smds[l], s);
        lemma_u32_shl1_pow2(s);
        // shifting the loaded word right by s lands on the element's bits
        lemma_mod_div_swap(x, s as nat, (32 - s) as nat);
        assert((smds[l] >> s) as nat == (x / pow2(s as nat)) % pow2((32 - s) as nat));
        lemma_u32_mask_mod((smds[l] >> s), msk, w);
        lemma_pow2_mod_mod(x / pow2(s as nat), w, (32 - s) as nat);
        assert(((smds[l] >> s) & msk) as nat == (x / pow2(s as nat)) % pow2(w));
        vstd::arithmetic::power2::lemma_pow2_pos((32 * k) as nat);
        vstd::arithmetic::power2::lemma_pow2_pos(s as nat);
        lemma_div_denominator(m as int, pow2((32 * k) as nat) as int, pow2(s as nat) as int);
        lemma_pow2_adds((32 * k) as nat, s as nat);
        assert(32 * k + s == t);
        assert(((smds[l] >> s) & msk) as nat == ext_dlt(b, w, n, l, e)) by {
            assert((w * e) as int == t);
        }
        vstd::arithmetic::power2::lemma_pow2_pos(w);
        lemma_mod_division_less_than_divisor((m / pow2((w * e) as nat)) as int, pow2(w) as int);
    }
}

/// Only the low bits of the element sit in this word: they are retained for
/// the next step.
proof fn lemma_unp_prt_sem(
    b: Seq<u8>,
    r: u32,
    w: nat,
    n: int,
    kc: int,
    t: int,
    s: u32,
    msk: u32,
    smds: Seq<u32>,
    dls: Seq<u32>,
)
    requires
        n >= 1,
        1 <= w <= 31,
        smds.len() == 8 && dls.len() == 8,
        0 <= t < n * (w as int),
        t % (w as int) == 0,
        kc == lane_words(w, n as nat) as int,
        32 * kc <= b.len(),
        s == t % 32,
        0 < s < 32,
        s + w > 32,
        msk as nat == pow2(w) - 1,
        forall|l: int|
            0 <= l < 8 ==> (#[trigger] smds[l]) as nat == le_word(b, 32 * (t / 32) + 4 * l),
        forall|l: int|
            0 <= l < 8 ==> (#[trigger] dls[l]) == ((smds[l] >> s) & msk),
    ensures
        forall|l: int|
            0 <= l < 8 ==> (#[trigger] dls[l]) as nat == (lane_bytes_nat(b, l, 0, kc) / pow2(
                (w * (t / (w as int))) as nat,
            )) % pow2((32 - s) as nat),
{
    let e = t / (w as int);
    let k = t / 32;
    lemma_fundamental_div_mod(t, w as int);
    lemma_fundamental_div_mod(t, 32);
    lemma_mul_is_commutative(w as int, e);
    lemma2_to64();
    assert forall|l: int| 0 <= l < 8 implies (#[trigger] dls[l]) as nat == (lane_bytes_nat(
        b,
        l,
        0,
        kc,
    ) / pow2((w * e) as nat)) % pow2((32 - s) as nat) by {
        let m = lane_bytes_nat(b, l, 0, kc);
        let x = m / pow2((32 * k) as nat);
        assert(k < kc) by {
            lemma_mul_is_commutative(w as int, n);
            assert(kc == (n * (w as int) + 31) / 32);
            lemma_store_ok(w as int, n, t, k, kc);
        }
        lemma_bytes_word(b, l, k, kc);
        vstd::bits::lemma_u32_shr_is_div(smds[l], s);
        lemma_u32_shl1_pow2(s);
        lemma_mod_div_swap(x, s as nat, (32 - s) as nat);
        assert((smds[l] >> s) as nat == (x / pow2(s as nat)) % pow2((32 - s) as nat));
        lemma_u32_mask_mod((smds[l] >> s), msk, w);
        // the masked value is already below 2^(32-s) < 2^w
        vstd::arithmetic::power2::lemma_pow2_pos((32 - s) as nat);
        lemma_mod_division_less_than_divisor(
            (x / pow2(s as nat)) as int,
            pow2((32 - s) as nat) as int,
        );
        lemma_pow2_strictly_increases((32 - s) as nat, w);
        lemma_small_mod(
            (x / pow2(s as nat)) % pow2((32 - s) as nat),
            pow2(w),
        );
        vstd::arithmetic::power2::lemma_pow2_pos((32 * k) as nat);
        vstd::arithmetic::power2::lemma_pow2_pos(s as nat);
        lemma_div_denominator(m as int, pow2((32 * k) as nat) as int, pow2(s as nat) as int);
        lemma_pow2_adds((32 * k) as nat, s as nat);
        assert(32 * k + s == t && (w * e) as int == t);
    }
}

/// The high bits of the straddled element arrive in the next word; joined
/// with the retained low bits they complete the element.
proof fn lemma_unp_bck_sem(
    b: Seq<u8>,
    r: u32,
    w: nat,
    n: int,
    kc: int,
    t: int,
    p: u32,
    msk: u32,
    smds: Seq<u32>,
    prvs: Seq<u32>,
    dls: Seq<u32>,
    curs: Seq<u32>,
)
    requires
        n >= 1,
        1 <= w <= 31,
        smds.len() == 8 && prvs.len() == 8 && dls.len() == 8 && curs.len() == 8,
        0 <= t < n * (w as int),
        t % (w as int) != 0,
        t % 32 == 0,
        t == (t / (w as int)) * (w as int) + (32 - ((t / (w as int)) * (w as int)) % 32),
        p == 32 - ((t / (w as int)) * (w as int)) % 32,
        0 < p < w,
        kc == lane_words(w, n as nat) as int,
        32 * kc <= b.len(),
        msk as nat == pow2(w) - 1,
        forall|l: int|
            0 <= l < 8 ==> (#[trigger] smds[l]) as nat == le_word(b, 32 * (t / 32) + 4 * l),
        forall|l: int| 0 <= l < 8 ==> (#[trigger] prvs[l]) == unp_row(b, r, w, n, l, t / (
        w as int) - 1),
        forall|l: int|
            0 <= l < 8 ==> (#[trigger] dls[l]) as nat == (lane_bytes_nat(b, l, 0, kc) / pow2(
                (w * (t / (w as int))) as nat,
            )) % pow2(p as nat),
        forall|l: int|
            0 <= l < 8 ==> (#[trigger] curs[l]) == vstd::wrapping::u32_specs::wrapping_add(
                prvs[l],
                (dls[l] | ((smds[l] << p) & msk)),
            ),
    ensures
        forall|l: int| 0 <= l < 8 ==> (#[trigger] curs[l]) == unp_row(b, r, w, n, l, t / (
        w as int)),
{
    let e = t / (w as int);
    let k = t / 32;
    lemma_fundamental_div_mod(t, w as int);
    lemma_fundamental_div_mod(t, 32);
    lemma_mul_is_commutative(w as int, e);
    lemma2_to64();
    assert forall|l: int| 0 <= l < 8 implies (#[trigger] curs[l]) == unp_row(b, r, w, n, l, e) by {
        let m = lane_bytes_nat(b, l, 0, kc);
        let x = m / pow2((32 * k) as nat);
        let y = m / pow2((w * e) as nat);
        let ext = y % pow2(w);
        assert(k < kc) by {
            lemma_mul_is_commutative(w as int, n);
            assert((w * (n as nat)) as int == (w as int) * n);
            assert(kc == (n * (w as int) + 31) / 32);
            lemma_store_ok(w as int, n, t, k, kc);
        }
        lemma_bytes_word(b, l, k, kc);
        assert(smds[l] as nat == x % pow2(32));
        // the word starts with the element's high bits
        vstd::arithmetic::power2::lemma_pow2_pos((w * e) as nat);
        vstd::arithmetic::power2::lemma_pow2_pos(p as nat);
        lemma_div_denominator(m as int, pow2((w * e) as nat) as int, pow2(p as nat) as int);
        lemma_pow2_adds((w * e) as nat, p as nat);
        assert((w * e) as int + p == t);
        assert(x == y / pow2(p as nat));
        // shift the new word left by p and mask: the element's high part in
        // position
        lemma_u32_shl1_pow2(p);
        lemma_u32_shl_as_u64(smds[l], p);
        vstd::bits::lemma_u64_pow2_no_overflow(p as nat);
        assert(((smds[l] as nat) * pow2(p as nat)) <= u64::MAX) by {
            lemma_pow2_strictly_increases(p as nat, 32);
            lemma_mul_inequality(smds[l] as int, 0xffff_ffff, pow2(p as nat) as int);
            lemma_mul_inequality(pow2(p as nat) as int, pow2(32) as int, 0xffff_ffff);
            lemma_mul_is_commutative(smds[l] as int, pow2(p as nat) as int);
            lemma_mul_is_commutative(0xffff_ffff, pow2(p as nat) as int);
        }
        vstd::bits::lemma_u64_shl_is_mul(smds[l] as u64, p as u64);
        assert((smds[l] << p) as nat == ((smds[l] as nat) * pow2(p as nat)) % pow2(32));
        lemma_u32_mask_mod((smds[l] << p), msk, w);
        // ((x' * 2^p) % 2^32) % 2^w == (x' % 2^(w-p)) * 2^p
        let c = (w - p) as nat;
        assert(((smds[l] << p) & msk) as nat == ((smds[l] as nat) % pow2(c)) * pow2(
            p as nat,
        )) by {
            lemma_pow2_mod_mod((smds[l] as nat) * pow2(p as nat), w, 32);
            lemma_mul_mod_shift(smds[l] as nat, p as nat, c);
            lemma_mul_is_commutative(smds[l] as int, pow2(p as nat) as int);
            assert((p as nat) + c == w);
        }
        // x' % 2^(w-p) is the digit's high part
        assert((smds[l] as nat) % pow2(c) == ext / pow2(p as nat)) by {
            lemma_pow2_mod_mod(x, c, 32);
            assert((smds[l] as nat) % pow2(c) == x % pow2(c));
            lemma_mod_div_swap(y, p as nat, c);
            assert((p as nat) + c == w);
            assert(x % pow2(c) == (y / pow2(p as nat)) % pow2(c));
        }
        // join the retained low bits with the shifted high bits
        let lo = dls[l];
        let hi = (smds[l] << p) & msk;
        assert((lo | hi) == lo + hi) by {
            assert((lo as nat) < pow2(p as nat)) by {
                lemma_mod_division_less_than_divisor(y as int, pow2(p as nat) as int);
            }
            assert(((hi as nat) % pow2(p as nat)) == 0) by {
                lemma_mod_multiples_vanish(
                    ((smds[l] as nat) % pow2(c)) as int,
                    0,
                    pow2(p as nat) as int,
                );
                lemma_mul_is_commutative(((smds[l] as nat) % pow2(c)) as int, pow2(p as nat) as int);
            }
            lemma_u32_or_low_add_apply(lo, hi, p);
        }
        // the two parts are exactly the element's delta
        assert(lo as nat + hi as nat == ext) by {
            lemma_fundamental_div_mod(ext as int, pow2(p as nat) as int);
            assert(ext % pow2(p as nat) == lo as nat) by {
                lemma_pow2_mod_mod(y, p as nat, w);
            }
            lemma_mul_is_commutative(pow2(p as nat) as int, (ext / pow2(p as nat)) as int);
        }
        vstd::arithmetic::power2::lemma_pow2_pos(w);
        lemma_mod_division_less_than_divisor(y as int, pow2(w) as int);
        assert((lo | hi) as nat == ext_dlt(b, w, n, l, e));
    }
}

/// Applies the or-is-add fact with the mask expressed as a power of two.
proof fn lemma_u32_or_low_add_apply(a: u32, b: u32, p: u32)
    requires
        p < 32,
        (a as nat) < pow2(p as nat),
        (b as nat) % pow2(p as nat) == 0,
    ensures
        (a | b) == a + b,
{
    lemma_u32_shl1_pow2(p);
    assert(b & (((1u32 << p) - 1) as u32) == 0) by {
        lemma_u32_mask_low(b, p);
    }
    lemma_u32_or_low_add(a, b, p);
    assert(a as nat + b as nat <= u32::MAX) by {
        lemma2_to64();
        lemma_fundamental_div_mod(b as int, pow2(p as nat) as int);
    }
}

proof fn lemma_u32_mask_low(b: u32, p: u32)
    requires
        p < 32,
        (b as nat) % pow2(p as nat) == 0,
    ensures
        b & (((1u32 << p) - 1) as u32) == 0,
{
    if p == 0 {
        assert(1u32 << 0u32 == 1 && b & 0u32 == 0) by (bit_vector);
        assert(((1u32 << p) - 1) as u32 == 0);
    } else {
        lemma_u32_shl1_pow2(p);
        vstd::arithmetic::power2::lemma_pow2_pos(p as nat);
        vstd::bits::lemma_u32_low_bits_mask_is_mod(b, p as nat);
        assert(vstd::bits::low_bits_mask(p as nat) == (pow2(p as nat) - 1) as nat);
        assert((1u32 << p) as nat == pow2(p as nat));
        assert((((1u32 << p) - 1) as u32) as nat == pow2(p as nat) - 1);
        assert((vstd::bits::low_bits_mask(p as nat) as u32) as nat == pow2(p as nat) - 1);
        assert(((1u32 << p) - 1) as u32 == vstd::bits::low_bits_mask(p as nat) as u32);
    }
}


/// Writes the eight lanes of `a` into row `off` of the unpacked block.
fn v_store_row(unp: &mut Vec<u32>, off: usize, a: &Vec<u32>) -> (nothing: ())
    requires
        a@.len() == 8,
        off * 8 + 8 <= old(unp)@.len(),
    ensures
        final(unp)@.len() == old(unp)@.len(),
        forall|l: int| 0 <= l < 8 ==> final(unp)@[off * 8 + l] == a@[l],
        forall|i: int|
            0 <= i < final(unp)@.len() && !(off * 8 <= i < off * 8 + 8) ==> final(unp)@[i]
                == old(unp)@[i],
{
    let mut l: usize = 0;
    proof {
        assert(unp.len() == unp@.len());
    }
    while l < 8
        invariant
            a@.len() == 8,
            l <= 8,
            off * 8 + 8 <= unp@.len(),
            unp@.len() == old(unp)@.len(),
            unp@.len() <= usize::MAX,
            forall|j: int| 0 <= j < l ==> unp@[off * 8 + j] == a@[j],
            forall|i: int|
                0 <= i < unp@.len() && !(off * 8 <= i < off * 8 + l) ==> unp@[i] == old(unp)@[i],
        decreases 8 - l,
    {
        unp.set(off * 8 + l, a[l]);
        l = l + 1;
    }
}

proof fn lemma_u32_shr0(x: u32)
    by (bit_vector)
    ensures
        x >> 0u32 == x,
{
}

/// `blk_unp` unpacks caller-supplied bytes into a block.
///
/// Width 0 zero-fills the block; the reference is ignored. Width 32 is a raw
/// little-endian byte copy. For widths 1 to 31 the schedule drives the
/// inverse of the delta pack: every output row is the reference plus the
/// wrapping prefix sum of the deltas recovered from the packed words, for
/// any packed bytes whatever.
pub fn blk_unp(elm_bit_len: u8, fst: u32, pck: &[u8], unp: &mut Vec<u32>)
    requires
        elm_bit_len <= 32,
        old(unp)@.len() >= 16,
        old(unp)@.len() % 8 == 0,
        old(unp)@.len() * 32 + 256 <= usize::MAX,
        pck@.len() >= byt_len_spec(elm_bit_len as nat, old(unp)@.len() as nat),
    ensures
        final(unp)@.len() == old(unp)@.len(),
        elm_bit_len == 0 ==> forall|i: int| 0 <= i < final(unp)@.len() ==> final(unp)@[i] == 0,
        elm_bit_len == 32 ==> forall|i: int|
            0 <= i < final(unp)@.len() ==> (#[trigger] final(unp)@[i]) as nat == le_word(
                pck@,
                4 * i,
            ),
        1 <= elm_bit_len <= 31 ==> forall|e: int, l: int|
            0 <= e < old(unp)@.len() as int / 8 && 0 <= l < 8 ==> final(unp)@[e * 8 + l] == (
            #[trigger] unp_row(pck@, fst, elm_bit_len as nat, old(unp)@.len() as int / 8, l, e)),
{
    let n_elm = unp.len();
    if elm_bit_len == 0 {
        // `unp` is expected to have an exact length of the block: overwrite
        // the entire buffer with zeros
        let mut i: usize = 0;
        while i < n_elm
            invariant
                n_elm == unp@.len(),
                unp@.len() == old(unp)@.len(),
                i <= n_elm,
                forall|j: int| 0 <= j < i ==> unp@[j] == 0,
            decreases n_elm - i,
        {
            unp.set(i, 0);
            i = i + 1;
        }
        return ;
    }
    if elm_bit_len == 32 {
        let mut i: usize = 0;
        while i < n_elm
            invariant
                n_elm == unp@.len(),
                unp@.len() == old(unp)@.len(),
                4 * n_elm <= pck@.len(),
                n_elm * 32 + 256 <= usize::MAX,
                i <= n_elm,
                forall|j: int| 0 <= j < i ==> (#[trigger] unp@[j]) as nat == le_word(pck@, 4 * j),
            decreases n_elm - i,
        {
            let b0 = pck[4 * i];
            let b1 = pck[4 * i + 1];
            let b2 = pck[4 * i + 2];
            let b3 = pck[4 * i + 3];
            let v = (b0 as u32) | ((b1 as u32) << 8) | ((b2 as u32) << 16) | ((b3 as u32)
                << 24);
            proof {
                lemma_u32_from_le_bytes(b0, b1, b2, b3);
            }
            unp.set(i, v);
            i = i + 1;
        }
        return ;
    }
    // widths 1 to 31: drive the schedule in reverse of the packer
    let wu = elm_bit_len as usize;
    let w32 = elm_bit_len as u32;
    let ghost b = pck@;
    let ghost wn: nat = elm_bit_len as nat;
    let ghost wi: int = elm_bit_len as int;
    let ghost n: int = n_elm as int / 8;
    let ghost kc: int = lane_words(wn, n as nat) as int;
    proof {
        lemma_u32_shl1_pow2(w32);
        vstd::arithmetic::power2::lemma_pow2_pos(wn);
    }
    let msk = (1u32 << w32) - 1;
    proof {
        assert(wu * n_elm + 256 <= usize::MAX) by {
            lemma_mul_inequality(wu as int, 32, n_elm as int);
            lemma_mul_is_commutative(wu as int, n_elm as int);
            lemma_mul_is_commutative(32, n_elm as int);
        }
        lemma_u32_shl1_pow2(w32);
        vstd::arithmetic::power2::lemma_pow2_pos(wn);
        assert(msk as nat == pow2(wn) - 1);
    }
    let mut itr = blk_itr(wu, n_elm);
    let mut smd: Vec<u32> = v_bcast(0);
    let mut prv: Vec<u32> = v_bcast(fst);
    let mut dl: Vec<u32> = v_bcast(0);
    let mut row_off: usize = 0;
    let mut pck_off: usize = 0;
    proof {
        assert(pck.len() == pck@.len());
        assert(unp.len() == unp@.len());
        assert(8 * (n * wi) == wu * n_elm) by {
            lemma_fundamental_div_mod(n_elm as int, 8);
            lemma_mul_is_associative(wi, 8, n);
            lemma_mul_is_commutative(wi, 8);
            lemma_mul_is_associative(8, wi, n);
            lemma_mul_is_commutative(wi, n);
            lemma_mul_is_associative(8, n, wi);
        }
        assert(itr.blk_bit_len as int == 8 * (n * wi));
        assert(kc == (n * wi + 31) / 32) by {
            lemma_mul_is_commutative(wi, n);
        }
        lemma_fundamental_div_mod_converse(0int, 8, 0, 0);
        lemma_fundamental_div_mod_converse(0int, 32, 0, 0);
        lemma_fundamental_div_mod_converse(0int, wi, 0, 0);
        assert(pck@.len() >= 32 * kc);
    }
    while itr.prv.blk_bit_sum != itr.blk_bit_len
        invariant
            n_elm == old(unp)@.len(),
            unp@.len() == old(unp)@.len(),
            b == pck@,
            wn == elm_bit_len as nat,
            wi == wn as int,
            1 <= wi <= 31,
            n == n_elm as int / 8,
            n_elm % 8 == 0,
            n_elm >= 16,
            n >= 2,
            n_elm as int == 8 * n,
            n_elm * 32 + 256 <= usize::MAX,
            kc == lane_words(wn, n as nat) as int,
            kc == (n * wi + 31) / 32,
            msk as nat == pow2(wn) - 1,
            itr.wf(),
            itr.elm_bit_len == wu,
            wu == wi,
            itr.elm_per_blk == n_elm,
            itr.blk_bit_len as int == 8 * (n * wi),
            itm_ok(wi, itr.prv),
            smd@.len() == 8,
            prv@.len() == 8,
            dl@.len() == 8,
            pck@.len() >= 32 * kc,
            0 <= itr.prv.blk_bit_sum as int / 8 <= n * wi,
            row_off as int == itr.prv.blk_bit_sum as int / 8 / wi,
            itr.prv.blk_bit_sum == 0 ==> pck_off == 0,
            0 < itr.prv.blk_bit_sum as int / 8 && itr.prv.blk_bit_sum as int / 8 < n * wi
                ==> pck_off as int == itr.prv.blk_bit_sum as int / 8 / 32 + 1,
            itr.prv.blk_bit_sum != 0 ==> unp_sem(
                b,
                fst,
                wn,
                n,
                itr.prv.blk_bit_sum as int / 8,
                kc,
                smd@,
                prv@,
                dl@,
                unp@,
            ),
            itr.prv.blk_bit_sum == 0 ==> forall|l: int|
                0 <= l < 8 ==> (#[trigger] prv@[l]) == fst,
        decreases itr.blk_bit_len - itr.prv.blk_bit_sum,
    {
        let ghost pre = itr.prv;
        let ghost t: int = pre.blk_bit_sum as int / 8;
        let ghost unp0 = unp@;
        let step = itr.next();
        let ghost cur = itr.prv;
        let ghost t2: int = cur.blk_bit_sum as int / 8;
        proof {
            lemma_fundamental_div_mod(pre.blk_bit_sum as int, 8);
            assert(pre.blk_bit_sum as int == 8 * t);
            assert(t != n * wi);
            assert(t < n * wi && t <= n * wi);
            assert(pre.blk_bit_sum as int <= usize::MAX - 256);
            lemma_sched_step(wi, n, pre, cur);
            lemma2_to64();
            lemma_fundamental_div_mod(cur.blk_bit_sum as int, 8);
            assert(cur.blk_bit_sum as int == 8 * t2);
            if cur.lne_bit_sum < 32 {
                lemma_fundamental_div_mod_converse(t2, 32, t / 32, cur.lne_bit_sum as int);
            } else {
                lemma_fundamental_div_mod_converse(t2, 32, t / 32 + 1, 0);
            }
        }
        match step {
            None => {
                proof {
                    assert(false);
                }
            },
            Some(Itr::Fst) => {
                // the first packed vector opens every lane; the reference
                // seeds the first row
                let s0 = v_load_pck(pck, 0);
                let m0 = v_and(&s0, msk);
                let cur_v = v_add(&prv, &m0);
                proof {
                    assert(t == 0 && t2 == wi);
                    lemma_fundamental_div_mod_converse(t2, 32, 0, wi);
                    lemma_fundamental_div_mod_converse(t2, wi, 1, 0);
                    assert forall|l: int| 0 <= l < 8 implies (#[trigger] cur_v@[l])
                        == vstd::wrapping::u32_specs::wrapping_add(
                        prv@[l],
                        ((s0@[l] >> 0u32) & msk),
                    ) by {
                        lemma_u32_shr0(s0@[l]);
                    }
                    lemma_unp_elem_sem(b, fst, wn, n, kc, 0, 0, msk, s0@, prv@, cur_v@);
                }
                v_store_row(unp, 0, &cur_v);
                smd = s0;
                prv = cur_v;
                row_off = 1;
                pck_off = 1;
                proof {
                    lemma_fundamental_div_mod_converse(t2, wi, 1, 0);
                    assert(t2 / wi == 1);
                    assert forall|j: int, l: int| 0 <= j < t2 / wi && 0 <= l < 8 implies unp@[j
                        * 8 + l] == unp_row(b, fst, wn, n, l, j) by {
                        assert(j == 0);
                        assert(unp@[0 * 8 + l] == cur_v@[l]);
                        assert(cur_v@[l] == unp_row(b, fst, wn, n, l, 0));
                    }
                    assert(forall|l: int|
                        0 <= l < 8 ==> (#[trigger] prv@[l]) == unp_row(b, fst, wn, n, l, t2
                            / wi - 1));
                    assert(t2 < n * wi ==> forall|l: int|
                        0 <= l < 8 ==> (#[trigger] smd@[l]) as nat == le_word(b, 32 * (t2
                            / 32) + 4 * l));
                }
            },
            Some(Itr::Mdl { itm }) | Some(Itr::Lst { itm }) => {
                let ghost is_lst = t2 == n * wi;
                let ghost mut newrow: Seq<u32> = Seq::empty();
                proof {
                    assert(itm == cur);
                    assert(t >= 1);
                    if !is_lst {
                        assert(t2 < n * wi);
                    }
                }
                match itm.shf_dir {
                    Dir::Zro => {
                        proof {
                            assert(t % 32 == 0) by {
                                if t % 32 != 0 {
                                    assert(pre.lne_bit_sum == t % 32 && pre.lne_bit_sum < 32);
                                    assert(false);
                                }
                            }
                            assert(t % wi == 0 && row_off as int == t / wi);
                            lemma_load_ok(wi, n, t, row_off as int, n_elm as int);
                        }
                        let m0 = v_and(&smd, msk);
                        let cur_v = v_add(&prv, &m0);
                        proof {
                            assert forall|l: int| 0 <= l < 8 implies (#[trigger] cur_v@[l])
                                == vstd::wrapping::u32_specs::wrapping_add(
                                prv@[l],
                                ((smd@[l] >> 0u32) & msk),
                            ) by {
                                lemma_u32_shr0(smd@[l]);
                            }
                            lemma_unp_elem_sem(
                                b,
                                fst,
                                wn,
                                n,
                                kc,
                                t,
                                0,
                                msk,
                                smd@,
                                prv@,
                                cur_v@,
                            );
                        }
                        proof {
                            newrow = cur_v@;
                        }
                        v_store_row(unp, row_off, &cur_v);
                        prv = cur_v;
                        row_off = row_off + 1;
                    },
                    Dir::Fwd => {
                        proof {
                            assert(0 < itm.shf_len && itm.shf_len + wi <= 32);
                            assert(itm.shf_len == t % 32);
                            assert(t % wi == 0 && row_off as int == t / wi);
                            lemma_load_ok(wi, n, t, row_off as int, n_elm as int);
                        }
                        let sh = v_shr(&smd, itm.shf_len as u32);
                        let m0 = v_and(&sh, msk);
                        let cur_v = v_add(&prv, &m0);
                        proof {
                            lemma_unp_elem_sem(
                                b,
                                fst,
                                wn,
                                n,
                                kc,
                                t,
                                itm.shf_len as u32,
                                msk,
                                smd@,
                                prv@,
                                cur_v@,
                            );
                        }
                        proof {
                            newrow = cur_v@;
                        }
                        v_store_row(unp, row_off, &cur_v);
                        prv = cur_v;
                        row_off = row_off + 1;
                    },
                    Dir::FwdPrt => {
                        proof {
                            assert(0 < itm.shf_len < 32 && itm.shf_len + wi > 32);
                            assert(itm.shf_len == t % 32);
                        }
                        let sh = v_shr(&smd, itm.shf_len as u32);
                        dl = v_and(&sh, msk);
                        proof {
                            lemma_unp_prt_sem(
                                b,
                                fst,
                                wn,
                                n,
                                kc,
                                t,
                                itm.shf_len as u32,
                                msk,
                                smd@,
                                dl@,
                            );
                            // the element index is unchanged mid-straddle
                            assert(t2 / wi == t / wi && t2 % wi != 0);
                            assert(((t2 / wi) * wi) % 32 == t % 32) by {
                                lemma_fundamental_div_mod(t, wi);
                                lemma_mul_is_commutative(wi, t / wi);
                            }
                        }
                    },
                    Dir::Bck => {
                        proof {
                            assert(0 < itm.shf_len < wi && itm.shf_len < 32);
                        }
                        let sh = v_shl(&smd, itm.shf_len as u32);
                        let m0 = v_and(&sh, msk);
                        let j0 = v_or(&dl, &m0);
                        let cur_v = v_add(&prv, &j0);
                        proof {
                            lemma_unp_bck_sem(
                                b,
                                fst,
                                wn,
                                n,
                                kc,
                                t,
                                itm.shf_len as u32,
                                msk,
                                smd@,
                                prv@,
                                dl@,
                                cur_v@,
                            );
                            assert(row_off as int == t / wi) by {
                                lemma_fundamental_div_mod(t, wi);
                            }
                            assert((row_off as int) < n) by {
                                lemma_fundamental_div_mod(t, wi);
                                lemma_mul_is_commutative(wi, t / wi);
                                if t / wi >= n {
                                    lemma_mul_inequality(n, t / wi, wi);
                                    lemma_mul_is_commutative(n, wi);
                                    lemma_mul_is_commutative(t / wi, wi);
                                    assert(false);
                                }
                            }
                            assert((row_off as int) * 8 + 8 <= n_elm as int) by {
                                lemma_mul_inequality(row_off as int + 1, n, 8);
                                lemma_mul_is_commutative(row_off as int + 1, 8);
                                lemma_mul_is_commutative(n, 8);
                                lemma_mul_is_distributive_add_other_way(8, row_off as int, 1);
                            }
                        }
                        proof {
                            newrow = cur_v@;
                        }
                        v_store_row(unp, row_off, &cur_v);
                        prv = cur_v;
                        row_off = row_off + 1;
                    },
                }
                // Load the next packed SIMD vector once this one is consumed
                if itm.lne_bit_sum == 32 && itm.blk_bit_sum != itr.blk_bit_len {
                    proof {
                        lemma_store_ok(wi, n, t2, pck_off as int, kc);
                    }
                    smd = v_load_pck(pck, 32 * pck_off);
                    proof {
                        assert forall|l: int| 0 <= l < 8 implies (#[trigger] smd@[l]) as nat
                            == le_word(b, 32 * (t2 / 32) + 4 * l) by {
                            assert(pck_off as int == t2 / 32);
                        }
                    }
                    pck_off = pck_off + 1;
                }
                proof {
                    // every finished row, old or new, holds its recovered
                    // prefix sum
                    assert forall|j: int, l: int|
                        0 <= j < t2 / wi && 0 <= l < 8 implies unp@[j * 8 + l] == unp_row(
                        b,
                        fst,
                        wn,
                        n,
                        l,
                        j,
                    ) by {
                        assert(t2 / wi <= n) by {
                            lemma_fundamental_div_mod(t2, wi);
                            lemma_mul_is_commutative(wi, t2 / wi);
                            if t2 / wi > n {
                                lemma_mul_inequality(n + 1, t2 / wi, wi);
                                lemma_mul_is_commutative(n + 1, wi);
                                lemma_mul_is_commutative(t2 / wi, wi);
                                lemma_mul_is_distributive_add_other_way(wi, n, 1);
                                assert(false);
                            }
                        }
                        assert(j * 8 + l < n_elm as int) by {
                            lemma_mul_inequality(j + 1, n, 8);
                            lemma_mul_is_commutative(j + 1, 8);
                            lemma_mul_is_commutative(n, 8);
                            lemma_mul_is_distributive_add_other_way(8, j, 1);
                        }
                        if j < t / wi {
                            assert(j * 8 + l < (t / wi) * 8) by {
                                lemma_mul_inequality(j + 1, t / wi, 8);
                                lemma_mul_is_commutative(j + 1, 8);
                                lemma_mul_is_commutative(t / wi, 8);
                                lemma_mul_is_distributive_add_other_way(8, j, 1);
                            }
                            assert(unp@[j * 8 + l] == unp0[j * 8 + l]);
                        } else {
                            assert(j == t / wi && t2 / wi == t / wi + 1);
                            assert(unp@[j * 8 + l] == newrow[l]);
                            assert(newrow[l] == unp_row(b, fst, wn, n, l, j));
                        }
                    }
                    assert(forall|l: int|
                        0 <= l < 8 ==> (#[trigger] prv@[l]) == unp_row(b, fst, wn, n, l, t2
                            / wi - 1));
                    assert(t2 < n * wi ==> forall|l: int|
                        0 <= l < 8 ==> (#[trigger] smd@[l]) as nat == le_word(b, 32 * (t2
                            / 32) + 4 * l));
                    assert(t2 % wi != 0 ==> forall|l: int|
                        0 <= l < 8 ==> (#[trigger] dl@[l]) as nat == (lane_bytes_nat(
                            b,
                            l,
                            0,
                            kc,
                        ) / pow2((wn * (t2 / wi)) as nat)) % pow2((32 - ((t2 / wi) * wi)
                            % 32) as nat));
                }
            },
        }
    }
    proof {
        assert(itr.prv.blk_bit_sum as int / 8 == n * wi);
        assert(row_off as int == n) by {
            lemma_fundamental_div_mod_converse(n * wi, wi, n, 0);
        }
    }
}


/// The width the detector reports is the least at which packing is
/// lossless, provided the first row's deltas against the reference also fit
/// there: all deltas fit at `w`, and some row delta escapes every smaller
/// width.
pub proof fn lemma_bit_len_minimal(u: Seq<u32>, r: u32, w: nat)
    requires
        u.len() % 8 == 0,
        u.len() >= 16,
        row_fits(u, w),
        w > 0 ==> exists|e: int, l: int|
            1 <= e < u.len() as int / 8 && 0 <= l < 8 && (#[trigger] row_dlt(u, e, l) as nat)
                >= pow2((w - 1) as nat),
        forall|l: int| 0 <= l < 8 ==> (#[trigger] dlt(u, r, 0, l) as nat) < pow2(w),
    ensures
        fits(u, r, w),
        forall|w2: nat| w2 < w ==> !fits(u, r, w2),
{
    assert forall|e: int, l: int|
        0 <= e < u.len() as int / 8 && 0 <= l < 8 implies (#[trigger] dlt(u, r, e, l) as nat)
        < pow2(w) by {
        if e >= 1 {
            assert(dlt(u, r, e, l) == row_dlt(u, e, l));
        }
    }
    assert forall|w2: nat| w2 < w implies !fits(u, r, w2) by {
        let (e, l): (int, int) = choose|e: int, l: int|
            1 <= e < u.len() as int / 8 && 0 <= l < 8 && (#[trigger] row_dlt(u, e, l) as nat)
                >= pow2((w - 1) as nat);
        assert(dlt(u, r, e, l) == row_dlt(u, e, l));
        if w2 < w - 1 {
            lemma_pow2_strictly_increases(w2, (w - 1) as nat);
        }
        assert((dlt(u, r, e, l) as nat) >= pow2(w2));
    }
}

/// `u32x256_bit_len` is the width detector at the canonical block size.
pub fn u32x256_bit_len(blk: &[u32]) -> (r: u8)
    requires
        blk@.len() == 256,
    ensures
        r <= 32,
        row_fits(blk@, r as nat),
        r > 0 ==> exists|e: int, l: int|
            1 <= e < 32 && 0 <= l < 8 && (#[trigger] row_dlt(blk@, e, l) as nat) >= pow2(
                (r - 1) as nat,
            ),
{
    blk_bit_len(blk)
}

/// `u32x256_byt_len` is the size oracle at the canonical block size.
pub fn u32x256_byt_len(elm_bit_len: u8) -> (r: usize)
    requires
        elm_bit_len <= 32,
    ensures
        r == byt_len_spec(elm_bit_len as nat, 256),
{
    blk_byt_len(elm_bit_len, 256)
}

/// `u32x256_pck` packs one canonical 256-element block.
pub fn u32x256_pck(elm_bit_len: u8, fst: u32, unp: &[u32], pck: &mut Vec<u8>)
    requires
        elm_bit_len <= 32,
        unp@.len() == 256,
        old(pck)@.len() >= byt_len_spec(elm_bit_len as nat, 256),
    ensures
        final(pck)@.len() == old(pck)@.len(),
        forall|i: int|
            byt_len_spec(elm_bit_len as nat, 256) <= i < final(pck)@.len() ==> final(pck)@[i]
                == old(pck)@[i],
        elm_bit_len == 32 ==> forall|i: int|
            0 <= i < 1024 ==> final(pck)@[i] == u32_byte(unp@[i / 4], i % 4),
        1 <= elm_bit_len <= 31 && fits(unp@, fst, elm_bit_len as nat) ==> forall|k: int, l: int|
            0 <= k < lane_words(elm_bit_len as nat, 32) && 0 <= l < 8 ==> le_word(
                final(pck)@,
                32 * k + 4 * l,
            ) == pck_word(unp@, fst, elm_bit_len as nat, l, k),
{
    blk_pck(elm_bit_len, fst, unp, pck)
}

/// `u32x256_unp` unpacks one canonical 256-element block.
pub fn u32x256_unp(elm_bit_len: u8, fst: u32, pck: &[u8], unp: &mut Vec<u32>)
    requires
        elm_bit_len <= 32,
        old(unp)@.len() == 256,
        pck@.len() >= byt_len_spec(elm_bit_len as nat, 256),
    ensures
        final(unp)@.len() == 256,
        elm_bit_len == 0 ==> forall|i: int| 0 <= i < 256 ==> final(unp)@[i] == 0,
        elm_bit_len == 32 ==> forall|i: int|
            0 <= i < 256 ==> (#[trigger] final(unp)@[i]) as nat == le_word(pck@, 4 * i),
        1 <= elm_bit_len <= 31 ==> forall|e: int, l: int|
            0 <= e < 32 && 0 <= l < 8 ==> final(unp)@[e * 8 + l] == (#[trigger] unp_row(
                pck@,
                fst,
                elm_bit_len as nat,
                32,
                l,
                e,
            )),
{
    blk_unp(elm_bit_len, fst, pck, unp)
}


/// At width 32 the packed bytes are the block's little-endian layout, so
/// reading them back word by word recovers every element.
pub proof fn lemma_raw_round_trip(b: Seq<u8>, u: Seq<u32>, i: int)
    requires
        0 <= i < u.len(),
        forall|j: int| 0 <= j < 4 * u.len() ==> (#[trigger] b[j]) == u32_byte(u[j / 4], j % 4),
    ensures
        le_word(b, 4 * i) == u[i] as nat,
{
    let v = u[i];
    lemma_u32_le_bytes(v);
    lemma_u32_byte_digits(v);
    assert forall|m: int| 0 <= m < 4 implies b[4 * i + m] == u32_byte(v, m) by {
        lemma_fundamental_div_mod_converse(4 * i + m, 4, i, m);
        assert(4 * i + m < 4 * u.len()) by {
            lemma_mul_inequality(i + 1, u.len() as int, 4);
            lemma_mul_is_commutative(i + 1, 4);
            lemma_mul_is_commutative(u.len() as int, 4);
            lemma_mul_is_distributive_add(4, i, 1);
        }
    }
    assert(le_word(b, 4 * i) == (v & 0xff) as nat + 256 * ((((v >> 8u32) & 0xff)) as nat + 256
        * ((((v >> 16u32) & 0xff)) as nat + 256 * (((v >> 24u32) & 0xff)) as nat)));
}

} // verus!
