//! Variable-length integer codec (`VARINT`).
//!
//! An unsigned integer is stored little-endian in 7-bit groups; the high bit
//! of each byte says whether another byte follows. The codec is provided for
//! `u32` and for the platform word `usize`, and for sequences of `u32`.

use vstd::prelude::*;

verus! {

use vstd::arithmetic::power2::{pow2, lemma_pow2_adds, lemma_pow2_strictly_increases, lemma2_to64};
use vstd::arithmetic::div_mod::{lemma_fundamental_div_mod, lemma_div_is_ordered};

/// `BYT_HDR_MSK` marks a byte whose value continues in the next byte.
pub const BYT_HDR_MSK: u8 = 0x80;

/// `BYT_BDY_MSK` selects the seven payload bits of a byte.
pub const BYT_BDY_MSK: u8 = 0x7f;

/// `BIT_SHF_LEN` is the number of payload bits per encoded byte.
pub const BIT_SHF_LEN: u8 = 7;

/// Number of bytes in the encoding of `v`: one per 7-bit group, at least one.
pub open spec fn vrn_len(v: nat) -> nat
    decreases v,
{
    if v < 128 {
        1
    } else {
        1 + vrn_len(v / 128)
    }
}

/// The encoded bytes of `v`: little-endian 7-bit groups, high bit set on all
/// but the last byte.
pub open spec fn vrn_enc(v: nat) -> Seq<u8>
    decreases v,
{
    if v < 128 {
        seq![v as u8]
    } else {
        seq![(128 + v % 128) as u8] + vrn_enc(v / 128)
    }
}

/// Number of bytes a decoder consumes from `s`: up to and including the first
/// byte without the continuation bit, or all of `s` if no such byte exists.
pub open spec fn vrn_dec_len(s: Seq<u8>) -> nat
    decreases s.len(),
{
    if s.len() == 0 {
        0
    } else if s[0] < 128 {
        1
    } else {
        1 + vrn_dec_len(s.skip(1))
    }
}

/// The value held by the consumed bytes of `s`, before any truncation to a
/// machine word: each byte contributes its low seven bits.
pub open spec fn vrn_dec_nat(s: Seq<u8>) -> nat
    decreases s.len(),
{
    if s.len() == 0 {
        0
    } else if s[0] < 128 {
        s[0] as nat
    } else {
        (s[0] - 128) as nat + 128 * vrn_dec_nat(s.skip(1))
    }
}

pub proof fn lemma_vrn_enc_len(v: nat)
    ensures
        vrn_enc(v).len() == vrn_len(v),
        vrn_len(v) >= 1,
    decreases v,
{
    if v >= 128 {
        lemma_vrn_enc_len(v / 128);
    }
}

/// The encoded length never shrinks as the value grows.
pub proof fn lemma_vrn_len_monotonic(a: nat, b: nat)
    requires
        a <= b,
    ensures
        vrn_len(a) <= vrn_len(b),
    decreases b,
{
    if a >= 128 {
        lemma_div_is_ordered(a as int, b as int, 128);
        lemma_vrn_len_monotonic(a / 128, b / 128);
    } else if b >= 128 {
        lemma_vrn_enc_len(b);
    }
}

/// A value below `2^(7k)` encodes in at most `k` bytes.
pub proof fn lemma_vrn_len_bound(v: nat, k: nat)
    requires
        1 <= k,
        v < pow2(7 * k),
    ensures
        vrn_len(v) <= k,
    decreases k,
{
    if v >= 128 {
        lemma2_to64();
        if k == 1 {
            assert(false);
        } else {
            assert(7 * k == 7 * (k - 1) + 7);
            lemma_pow2_adds(7 * (k - 1) as nat, 7);
            assert(pow2(7 * k) == pow2(7 * (k - 1) as nat) * 128);
            lemma_fundamental_div_mod(v as int, 128);
            assert(v / 128 < pow2(7 * (k - 1) as nat)) by {
                if v / 128 >= pow2(7 * (k - 1) as nat) {
                    assert(v >= 128 * (v / 128)) by {
                        lemma_fundamental_div_mod(v as int, 128);
                    }
                    vstd::arithmetic::mul::lemma_mul_inequality(
                        pow2(7 * (k - 1) as nat) as int,
                        (v / 128) as int,
                        128,
                    );
                    assert(false);
                }
            }
            lemma_vrn_len_bound(v / 128, (k - 1) as nat);
        }
    }
}

proof fn lemma_u32_shr7_div(x: u32)
    by (bit_vector)
    ensures
        x >> 7u32 == x / 128,
{
}

proof fn lemma_usize_shr7_div(x: usize)
    by (bit_vector)
    ensures
        x >> 7usize == x / 128,
{
}

/// `u32_byt_len` returns the number of bytes to variable length encode the
/// specified u32 value.
pub fn u32_byt_len(v: u32) -> (r: usize)
    ensures
        r == vrn_len(v as nat),
{
    proof {
        lemma2_to64();
        lemma_pow2_strictly_increases(32, 35);
        lemma_vrn_len_bound(v as nat, 5);
    }
    if v == 0 {
        return 1;
    }
    let mut x = v;
    let mut len: usize = 0;
    while x > 0
        invariant
            vrn_len(v as nat) <= 5,
            x > 0 ==> vrn_len(v as nat) == len + vrn_len(x as nat),
            x == 0 ==> vrn_len(v as nat) == len && len >= 1,
        decreases x,
    {
        proof {
            lemma_u32_shr7_div(x);
            lemma_vrn_enc_len((x >> 7u32) as nat);
            lemma_vrn_enc_len(x as nat);
        }
        x = x >> 7;
        len = len + 1;
    }
    len
}

/// `usize_byt_len` returns the number of bytes to variable length encode the
/// specified usize value.
pub fn usize_byt_len(v: usize) -> (r: usize)
    ensures
        r == vrn_len(v as nat),
{
    proof {
        lemma2_to64();
        lemma2_to64_rest_local();
        lemma_pow2_strictly_increases(32, 70);
        lemma_pow2_strictly_increases(64, 70);
        lemma_vrn_len_bound(v as nat, 10);
    }
    if v == 0 {
        return 1;
    }
    let mut x = v;
    let mut len: usize = 0;
    while x > 0
        invariant
            vrn_len(v as nat) <= 10,
            x > 0 ==> vrn_len(v as nat) == len + vrn_len(x as nat),
            x == 0 ==> vrn_len(v as nat) == len && len >= 1,
        decreases x,
    {
        proof {
            lemma_usize_shr7_div(x);
            lemma_vrn_enc_len((x >> 7usize) as nat);
            lemma_vrn_enc_len(x as nat);
        }
        x = x >> 7;
        len = len + 1;
    }
    len
}

proof fn lemma_u32_pck_byte(x: u32)
    by (bit_vector)
    requires
        x >= 128,
    ensures
        0x80u8 | (x as u8) == (128 + x % 128) as u8,
{
}

proof fn lemma_usize_pck_byte(x: usize)
    by (bit_vector)
    requires
        x >= 128,
    ensures
        0x80u8 | (x as u8) == (128 + x % 128) as u8,
{
}

/// Writes the encoding of `v` into `pck` starting at `at`; bytes outside the
/// written range are untouched. Returns the number of bytes written.
fn u32_emit(v: u32, pck: &mut Vec<u8>, at: usize) -> (r: usize)
    requires
        at + vrn_len(v as nat) <= old(pck)@.len(),
    ensures
        r == vrn_len(v as nat),
        final(pck)@.len() == old(pck)@.len(),
        final(pck)@.subrange(at as int, at + r) == vrn_enc(v as nat),
        forall|i: int|
            0 <= i < final(pck)@.len() && !(at <= i < at + r) ==> final(pck)@[i] == old(pck)@[i],
{
    proof {
        lemma_vrn_enc_len(v as nat);
        assert(pck.len() == pck@.len());
    }
    let mut x = v;
    let mut p: usize = at;
    while x >= 0x80
        invariant
            at <= p,
            p - at + vrn_len(x as nat) == vrn_len(v as nat),
            p + vrn_len(x as nat) <= pck@.len(),
            pck@.len() == old(pck)@.len(),
            pck@.len() <= usize::MAX,
            vrn_enc(v as nat) == pck@.subrange(at as int, p as int) + vrn_enc(x as nat),
            forall|i: int|
                0 <= i < pck@.len() && !(at <= i < p) ==> pck@[i] == old(pck)@[i],
        decreases x,
    {
        proof {
            lemma_u32_shr7_div(x);
            lemma_u32_pck_byte(x);
            lemma_vrn_enc_len(x as nat);
            lemma_vrn_enc_len((x >> 7u32) as nat);
        }
        let ghost pre = pck@;
        pck.set(p, BYT_HDR_MSK | (x as u8));
        proof {
            assert(vrn_enc(x as nat) == seq![(128 + (x as nat) % 128) as u8] + vrn_enc(
                (x as nat) / 128,
            ));
            assert((x >> 7u32) as nat == (x as nat) / 128);
            assert(pck@.subrange(at as int, p + 1) == pre.subrange(at as int, p as int).push(
                (128 + (x as nat) % 128) as u8,
            ));
            assert(vrn_enc(v as nat) == pck@.subrange(at as int, p + 1) + vrn_enc(
                (x >> 7u32) as nat,
            ));
        }
        x = x >> 7;
        p = p + 1;
    }
    let ghost pre = pck@;
    pck.set(p, x as u8);
    proof {
        assert(vrn_enc(x as nat) == seq![x as u8]);
        assert(pck@.subrange(at as int, p + 1) == pre.subrange(at as int, p as int).push(x as u8));
        assert(pck@.subrange(at as int, p + 1) == vrn_enc(v as nat));
    }
    p + 1 - at
}

/// Writes the encoding of `v` into `pck` starting at `at`; bytes outside the
/// written range are untouched. Returns the number of bytes written.
fn usize_emit(v: usize, pck: &mut Vec<u8>, at: usize) -> (r: usize)
    requires
        at + vrn_len(v as nat) <= old(pck)@.len(),
    ensures
        r == vrn_len(v as nat),
        final(pck)@.len() == old(pck)@.len(),
        final(pck)@.subrange(at as int, at + r) == vrn_enc(v as nat),
        forall|i: int|
            0 <= i < final(pck)@.len() && !(at <= i < at + r) ==> final(pck)@[i] == old(pck)@[i],
{
    proof {
        lemma_vrn_enc_len(v as nat);
        assert(pck.len() == pck@.len());
    }
    let mut x = v;
    let mut p: usize = at;
    while x >= 0x80
        invariant
            at <= p,
            p - at + vrn_len(x as nat) == vrn_len(v as nat),
            p + vrn_len(x as nat) <= pck@.len(),
            pck@.len() == old(pck)@.len(),
            pck@.len() <= usize::MAX,
            vrn_enc(v as nat) == pck@.subrange(at as int, p as int) + vrn_enc(x as nat),
            forall|i: int|
                0 <= i < pck@.len() && !(at <= i < p) ==> pck@[i] == old(pck)@[i],
        decreases x,
    {
        proof {
            lemma_usize_shr7_div(x);
            lemma_usize_pck_byte(x);
            lemma_vrn_enc_len(x as nat);
            lemma_vrn_enc_len((x >> 7usize) as nat);
        }
        let ghost pre = pck@;
        pck.set(p, BYT_HDR_MSK | (x as u8));
        proof {
            assert(vrn_enc(x as nat) == seq![(128 + (x as nat) % 128) as u8] + vrn_enc(
                (x as nat) / 128,
            ));
            assert((x >> 7usize) as nat == (x as nat) / 128);
            assert(pck@.subrange(at as int, p + 1) == pre.subrange(at as int, p as int).push(
                (128 + (x as nat) % 128) as u8,
            ));
            assert(vrn_enc(v as nat) == pck@.subrange(at as int, p + 1) + vrn_enc(
                (x >> 7usize) as nat,
            ));
        }
        x = x >> 7;
        p = p + 1;
    }
    let ghost pre = pck@;
    pck.set(p, x as u8);
    proof {
        assert(vrn_enc(x as nat) == seq![x as u8]);
        assert(pck@.subrange(at as int, p + 1) == pre.subrange(at as int, p as int).push(x as u8));
        assert(pck@.subrange(at as int, p + 1) == vrn_enc(v as nat));
    }
    p + 1 - at
}

/// `u32_pck` encodes a u32 into the front of `pck` and returns the number of
/// bytes encoded.
pub fn u32_pck(v: u32, pck: &mut Vec<u8>) -> (r: usize)
    requires
        vrn_len(v as nat) <= old(pck)@.len(),
    ensures
        r == vrn_len(v as nat),
        final(pck)@.len() == old(pck)@.len(),
        final(pck)@.subrange(0, r as int) == vrn_enc(v as nat),
        forall|i: int| r <= i < final(pck)@.len() ==> final(pck)@[i] == old(pck)@[i],
{
    u32_emit(v, pck, 0)
}

/// `usize_pck` encodes a usize into the front of `pck` and returns the number
/// of bytes encoded.
pub fn usize_pck(v: usize, pck: &mut Vec<u8>) -> (r: usize)
    requires
        vrn_len(v as nat) <= old(pck)@.len(),
    ensures
        r == vrn_len(v as nat),
        final(pck)@.len() == old(pck)@.len(),
        final(pck)@.subrange(0, r as int) == vrn_enc(v as nat),
        forall|i: int| r <= i < final(pck)@.len() ==> final(pck)@[i] == old(pck)@[i],
{
    usize_emit(v, pck, 0)
}

/// `U32Unp` returns an unpacked u32 value with the number of unpacked bytes.
#[derive(Debug)]
pub struct U32Unp {
    pub val: u32,
    pub len: usize,
}

/// `UsizeUnp` returns an unpacked usize value with the number of unpacked
/// bytes.
#[derive(Debug)]
pub struct UsizeUnp {
    pub val: usize,
    pub len: usize,
}

proof fn lemma_u32_or_shl(a: u32, b: u32, s: u32)
    by (bit_vector)
    requires
        s < 32,
        a < (1u32 << s),
        b < 128,
    ensures
        (a | (b << s)) as u64 == (a as u64 + (b as u64) * (1u64 << s)) % 0x1_0000_0000,
{
}

proof fn lemma_usize_or_shl(a: usize, b: usize, s: usize)
    by (bit_vector)
    requires
        s < 64,
        a < (1usize << s),
        (b << s) >> s == b,
    ensures
        a | (b << s) == a + b * (1usize << s),
{
}

/// The value accumulated by an or of a fresh 7-bit group at bit offset `s`,
/// stated over `pow2` so that callers can reason arithmetically.
proof fn lemma_u32_dec_step(a: u32, b: u32, s: u32)
    requires
        s < 32,
        a < pow2(s as nat),
        b < 128,
    ensures
        (a | (b << s)) as nat == (a as nat + (b as nat) * pow2(s as nat)) % pow2(32),
{
    vstd::bits::lemma_u64_pow2_no_overflow(s as nat);
    vstd::bits::lemma_u64_shl_is_mul(1u64, s as u64);
    assert((1u64 << (s as u64)) == pow2(s as nat));
    assert((1u32 << s) as u64 == (1u64 << (s as u64))) by (bit_vector)
        requires
            s < 32,
    ;
    lemma_u32_or_shl(a, b, s);
    lemma2_to64();
}

/// A usize shift by `s` stays in range exactly when `pow2(s)` fits the
/// platform word.
proof fn lemma_usize_shift_ok(s: nat)
    requires
        pow2(s) <= usize::MAX,
    ensures
        s < usize::BITS,
        s < 64,
{
    lemma2_to64();
    lemma2_to64_rest_local_64();
    if usize::BITS == 32 {
        if s >= 32 {
            lemma_pow2_strictly_increases(32, s + 1);
            if s > 32 {
                lemma_pow2_strictly_increases(32, s);
            }
            assert(false);
        }
    } else {
        if s >= 64 {
            if s > 64 {
                lemma_pow2_strictly_increases(64, s);
            }
            assert(false);
        }
    }
}

proof fn lemma2_to64_rest_local_64()
    ensures
        pow2(64) == 0x10000000000000000,
{
    vstd::arithmetic::power2::lemma2_to64_rest();
}

proof fn lemma_usize_dec_step(a: usize, b: usize, s: usize)
    requires
        pow2(s as nat) <= usize::MAX,
        a < pow2(s as nat),
        b < 128,
        a as nat + (b as nat) * pow2(s as nat) <= usize::MAX,
    ensures
        (a | (b << s)) as nat == a as nat + (b as nat) * pow2(s as nat),
{
    lemma_usize_shift_ok(s as nat);
    vstd::bits::lemma_usize_shl_is_mul(1usize, s);
    vstd::bits::lemma_usize_shl_is_mul(b, s);
    vstd::bits::lemma_usize_shr_is_div((b << s) as usize, s);
    vstd::arithmetic::div_mod::lemma_div_multiples_vanish(
        b as int,
        pow2(s as nat) as int,
    );
    vstd::arithmetic::mul::lemma_mul_is_commutative(b as int, pow2(s as nat) as int);
    assert((b << s) >> s == b);
    lemma_usize_or_shl(a, b, s);
}

proof fn lemma_u8_low7(b: u8)
    by (bit_vector)
    ensures
        b & 0x7fu8 == b % 128,
        (b & 0x80u8 == 0) <==> b < 128,
{
}

/// Largest number of 7-bit groups whose shifts stay inside the platform word.
pub open spec fn usize_grp_max() -> nat {
    if usize::MAX == u32::MAX {
        5
    } else {
        10
    }
}

/// `u32_unp` decodes a `[u8]` and returns a `U32Unp`.
///
/// Decoding stops at the first byte without the continuation bit, or at the
/// end of the input. Groups past the 32nd bit are truncated, as the running
/// shift discards them.
pub fn u32_unp(pck: &[u8]) -> (r: U32Unp)
    requires
        vrn_dec_len(pck@) <= 5 || pck@.len() <= 5,
    ensures
        vrn_dec_len(pck@) <= pck@.len() ==> r.len == vrn_dec_len(pck@),
        vrn_dec_len(pck@) > pck@.len() ==> r.len == pck@.len(),
        r.val as nat == vrn_dec_nat(pck@) % pow2(32),
{
    let n = pck.len();
    let mut val: u32 = 0;
    let mut p: usize = 0;
    let mut shf: u32 = 0;
    let mut done: bool = false;
    proof {
        lemma2_to64();
        assert(pck@.skip(0) =~= pck@);
    }
    while p < n && !done
        invariant
            n == pck@.len(),
            p <= n,
            vrn_dec_len(pck@) <= 5 || n <= 5,
            !done ==> shf == 7 * p && (shf <= 28 || p >= n),
            !done ==> (val as nat) < pow2((7 * p) as nat),
            !done ==> vrn_dec_len(pck@) == p + vrn_dec_len(pck@.skip(p as int)),
            !done ==> vrn_dec_nat(pck@) % pow2(32) == ((val as nat) + pow2((7 * p) as nat)
                * vrn_dec_nat(pck@.skip(p as int))) % pow2(32),
            done ==> p == vrn_dec_len(pck@) && (val as nat) == vrn_dec_nat(pck@) % pow2(32),
        decreases n - p,
    {
        let b = pck[p];
        let g = b & BYT_BDY_MSK;
        let ghost t = pck@.skip(p as int);
        let ghost val0 = val as nat;
        let ghost q = pow2((7 * p) as nat);
        let ghost m = pow2(32);
        let ghost rest = vrn_dec_nat(pck@.skip(p + 1));
        proof {
            lemma2_to64();
            lemma_u8_low7(b);
            assert(t[0] == pck@[p as int]);
            assert(t.skip(1) =~= pck@.skip(p + 1));
            // a shift past bit 31 would mean a sixth consumed byte, which the
            // stream bound rules out
            if p >= 5 {
                lemma_vrn_dec_len_min(t);
                assert(false);
            }
            lemma_u32_dec_step(val, g as u32, shf);
        }
        val = val | ((g as u32) << shf);
        proof {
            assert(val as nat == (val0 + (g as nat) * q) % m);
            vstd::arithmetic::mul::lemma_mul_is_commutative(q as int, g as int);
        }
        if b & BYT_HDR_MSK == 0 {
            proof {
                assert(vrn_dec_nat(t) == b as nat);
                assert(vrn_dec_len(t) == 1);
                assert(vrn_dec_nat(pck@) % m == (val0 + q * (b as nat)) % m);
                assert(val as nat == vrn_dec_nat(pck@) % m);
            }
            done = true;
        } else {
            proof {
                assert(g as nat == (b - 128) as nat);
                assert(vrn_dec_nat(t) == (b - 128) as nat + 128 * rest);
                assert(vrn_dec_len(t) == 1 + vrn_dec_len(pck@.skip(p + 1)));
                lemma_pow2_adds((7 * p) as nat, 7);
                assert(q * ((b - 128) as nat + 128 * rest) == q * ((b - 128) as nat) + q * (
                128 * rest)) by {
                    vstd::arithmetic::mul::lemma_mul_is_distributive_add(
                        q as int,
                        (b - 128) as int,
                        (128 * rest) as int,
                    );
                }
                assert(q * (128 * rest) == (q * 128) * rest) by {
                    vstd::arithmetic::mul::lemma_mul_is_associative(q as int, 128, rest as int);
                }
                let a0 = val0 + q * ((b - 128) as nat);
                let c = (q * 128) * rest;
                // replacing the accumulated low part by its residue keeps the
                // total residue unchanged
                assert(((a0 % m) + c) % m == (a0 + c) % m) by {
                    lemma_mod_add_left(a0 as int, c as int, m as int);
                }
                assert(val as nat == a0 % m);
                // the new accumulator still sits below the next group boundary
                assert(q * ((b - 128) as nat) <= q * 127) by {
                    vstd::arithmetic::mul::lemma_mul_inequality(
                        (b - 128) as int,
                        127,
                        q as int,
                    );
                    vstd::arithmetic::mul::lemma_mul_is_commutative(q as int, 127);
                }
                assert(a0 < q * 128);
                assert(q * 128 == pow2((7 * (p + 1)) as nat));
                vstd::arithmetic::div_mod::lemma_mod_decreases(a0, m);
                assert((val as nat) < pow2((7 * (p + 1)) as nat));
                assert(vrn_dec_nat(pck@) % m == (a0 + c) % m);
                assert((val as nat + pow2((7 * (p + 1)) as nat) * rest) % m == vrn_dec_nat(
                    pck@,
                ) % m);
                // a sixth consumed byte would contradict the stream bound
                if p + 1 < n && 7 * (p + 1) > 28 {
                    lemma_vrn_dec_len_min(pck@.skip(p + 1));
                    assert(false);
                }
            }
            shf = shf + 7;
        }
        p = p + 1;
    }
    proof {
        if !done {
            assert(p == n);
            assert(pck@.skip(p as int).len() == 0);
            assert(vrn_dec_nat(pck@.skip(p as int)) == 0);
            vstd::arithmetic::mul::lemma_mul_basics(pow2((7 * p) as nat) as int);
            assert(pow2((7 * p) as nat) * vrn_dec_nat(pck@.skip(p as int)) == 0);
            assert((val as nat) + pow2((7 * p) as nat) * vrn_dec_nat(pck@.skip(p as int))
                == val as nat);
            lemma2_to64();
            lemma_small_mod_u32(val);
            assert(vrn_dec_nat(pck@) % pow2(32) == val as nat);
        }
    }
    U32Unp { val, len: p }
}

/// `pow2(7k)` fits the platform word for any group index `k` the decoder may
/// shift by.
proof fn lemma_usize_pow2_fits(k: nat)
    requires
        k + 1 <= usize_grp_max(),
    ensures
        pow2(7 * k) <= usize::MAX,
{
    lemma2_to64();
    lemma2_to64_rest_local_64();
    if usize::MAX == u32::MAX {
        if 7 * k < 28 {
            lemma_pow2_strictly_increases(7 * k, 28);
        }
    } else {
        if 7 * k < 63 {
            lemma_pow2_strictly_increases(7 * k, 63);
        }
        assert(pow2(63) == 0x8000000000000000) by {
            vstd::arithmetic::power2::lemma2_to64_rest();
        }
    }
}

/// `usize_unp` decodes a `[u8]` and returns a `UsizeUnp`.
///
/// Decoding stops at the first byte without the continuation bit, or at the
/// end of the input.
pub fn usize_unp(pck: &[u8]) -> (r: UsizeUnp)
    requires
        vrn_dec_len(pck@) <= usize_grp_max() || pck@.len() <= usize_grp_max(),
        vrn_dec_nat(pck@) <= usize::MAX,
    ensures
        vrn_dec_len(pck@) <= pck@.len() ==> r.len == vrn_dec_len(pck@),
        vrn_dec_len(pck@) > pck@.len() ==> r.len == pck@.len(),
        r.val as nat == vrn_dec_nat(pck@),
{
    let n = pck.len();
    let mut val: usize = 0;
    let mut p: usize = 0;
    let mut shf: usize = 0;
    let mut done: bool = false;
    proof {
        lemma2_to64();
        assert(pck@.skip(0) =~= pck@);
    }
    while p < n && !done
        invariant
            n == pck@.len(),
            p <= n,
            vrn_dec_len(pck@) <= usize_grp_max() || n <= usize_grp_max(),
            vrn_dec_nat(pck@) <= usize::MAX,
            !done ==> shf == 7 * p && (pow2(shf as nat) <= usize::MAX || p >= n),
            !done ==> (val as nat) < pow2((7 * p) as nat),
            !done ==> vrn_dec_len(pck@) == p + vrn_dec_len(pck@.skip(p as int)),
            !done ==> (val as nat) + pow2((7 * p) as nat) * vrn_dec_nat(pck@.skip(p as int))
                == vrn_dec_nat(pck@),
            done ==> p == vrn_dec_len(pck@) && (val as nat) == vrn_dec_nat(pck@),
        decreases n - p,
    {
        let b = pck[p];
        let g = b & BYT_BDY_MSK;
        let ghost t = pck@.skip(p as int);
        let ghost val0 = val as nat;
        let ghost q = pow2((7 * p) as nat);
        let ghost rest = vrn_dec_nat(pck@.skip(p + 1));
        proof {
            lemma2_to64();
            lemma_u8_low7(b);
            assert(t[0] == pck@[p as int]);
            assert(t.skip(1) =~= pck@.skip(p + 1));
            // a group index past the word's last would mean more consumed
            // bytes than the stream bound allows
            if p >= usize_grp_max() {
                lemma_vrn_dec_len_min(t);
                assert(false);
            }
            lemma_usize_shift_ok((7 * p) as nat);
            assert((g as nat) <= vrn_dec_nat(t));
            assert(q * (g as nat) <= q * vrn_dec_nat(t)) by {
                vstd::arithmetic::mul::lemma_mul_inequality(
                    g as int,
                    vrn_dec_nat(t) as int,
                    q as int,
                );
                vstd::arithmetic::mul::lemma_mul_is_commutative(q as int, g as int);
                vstd::arithmetic::mul::lemma_mul_is_commutative(q as int, vrn_dec_nat(t) as int);
            }
            lemma_usize_dec_step(val, g as usize, shf);
        }
        val = val | ((g as usize) << shf);
        proof {
            assert(val as nat == val0 + (g as nat) * q);
            vstd::arithmetic::mul::lemma_mul_is_commutative(q as int, g as int);
        }
        if b & BYT_HDR_MSK == 0 {
            proof {
                assert(vrn_dec_nat(t) == b as nat);
                assert(vrn_dec_len(t) == 1);
                assert(val as nat == vrn_dec_nat(pck@));
            }
            done = true;
        } else {
            proof {
                assert(g as nat == (b - 128) as nat);
                assert(vrn_dec_nat(t) == (b - 128) as nat + 128 * rest);
                assert(vrn_dec_len(t) == 1 + vrn_dec_len(pck@.skip(p + 1)));
                lemma_pow2_adds((7 * p) as nat, 7);
                assert(q * ((b - 128) as nat + 128 * rest) == q * ((b - 128) as nat) + q * (
                128 * rest)) by {
                    vstd::arithmetic::mul::lemma_mul_is_distributive_add(
                        q as int,
                        (b - 128) as int,
                        (128 * rest) as int,
                    );
                }
                assert(q * (128 * rest) == (q * 128) * rest) by {
                    vstd::arithmetic::mul::lemma_mul_is_associative(q as int, 128, rest as int);
                }
                // the new accumulator still sits below the next group boundary
                assert(q * ((b - 128) as nat) <= q * 127) by {
                    vstd::arithmetic::mul::lemma_mul_inequality(
                        (b - 128) as int,
                        127,
                        q as int,
                    );
                    vstd::arithmetic::mul::lemma_mul_is_commutative(q as int, 127);
                }
                assert((val as nat) < q * 128);
                assert(q * 128 == pow2((7 * (p + 1)) as nat));
                assert((val as nat) + pow2((7 * (p + 1)) as nat) * rest == vrn_dec_nat(pck@));
                // one more consumed byte than the stream bound is a
                // contradiction
                if p + 1 < n && p + 1 >= usize_grp_max() {
                    lemma_vrn_dec_len_min(pck@.skip(p + 1));
                    assert(false);
                }
                if p + 1 < n {
                    lemma_usize_pow2_fits((7 * (p + 1)) as nat / 7);
                    assert((7 * (p + 1)) as nat / 7 == (p + 1) as nat);
                }
            }
            shf = shf + 7;
        }
        p = p + 1;
    }
    proof {
        if !done {
            assert(p == n);
            assert(pck@.skip(p as int).len() == 0);
            assert(vrn_dec_nat(pck@.skip(p as int)) == 0);
            vstd::arithmetic::mul::lemma_mul_basics(pow2((7 * p) as nat) as int);
            assert(pow2((7 * p) as nat) * vrn_dec_nat(pck@.skip(p as int)) == 0);
            assert((val as nat) == vrn_dec_nat(pck@));
        }
    }
    UsizeUnp { val, len: p }
}

/// A stream made only of continuation bytes is not consumed short of its end.
proof fn lemma_vrn_dec_len_min(s: Seq<u8>)
    ensures
        vrn_dec_len(s) >= 1 || s.len() == 0,
        vrn_dec_len(s) <= s.len(),
    decreases s.len(),
{
    if s.len() > 0 && s[0] >= 128 {
        lemma_vrn_dec_len_min(s.skip(1));
    }
}

proof fn lemma_small_mod_u32(x: u32)
    ensures
        (x as nat) % pow2(32) == x as nat,
{
    lemma2_to64();
    vstd::arithmetic::div_mod::lemma_small_mod(x as nat, pow2(32));
}

/// `(a % m + c) % m == (a + c) % m`.
proof fn lemma_mod_add_left(a: int, c: int, m: int)
    requires
        m > 0,
    ensures
        ((a % m) + c) % m == (a + c) % m,
{
    vstd::arithmetic::div_mod::lemma_add_mod_noop(a % m, c, m);
    vstd::arithmetic::div_mod::lemma_add_mod_noop(a, c, m);
    vstd::arithmetic::div_mod::lemma_mod_twice(a, m);
}

/// Decoding undoes encoding: the consumed length is the encoded length and
/// the recovered value is the encoded value, whatever bytes follow.
pub proof fn lemma_vrn_round_trip(v: nat, t: Seq<u8>)
    ensures
        vrn_dec_len(vrn_enc(v) + t) == vrn_len(v),
        vrn_dec_nat(vrn_enc(v) + t) == v,
    decreases v,
{
    let s = vrn_enc(v) + t;
    lemma_vrn_enc_len(v);
    if v < 128 {
        assert(s[0] == v as u8);
    } else {
        assert(s[0] == (128 + v % 128) as u8);
        assert(s.skip(1) =~= vrn_enc(v / 128) + t);
        lemma_vrn_round_trip(v / 128, t);
        lemma_fundamental_div_mod(v as int, 128);
    }
}

/// Total number of bytes for the encodings of all values of `vs`.
pub open spec fn vrn_seq_len(vs: Seq<u32>) -> nat
    decreases vs.len(),
{
    if vs.len() == 0 {
        0
    } else {
        vrn_len(vs[0] as nat) + vrn_seq_len(vs.skip(1))
    }
}

/// The concatenated encodings of all values of `vs`, in order.
pub open spec fn vrn_seq_enc(vs: Seq<u32>) -> Seq<u8>
    decreases vs.len(),
{
    if vs.len() == 0 {
        Seq::empty()
    } else {
        vrn_enc(vs[0] as nat) + vrn_seq_enc(vs.skip(1))
    }
}

pub proof fn lemma_vrn_seq_enc_len(vs: Seq<u32>)
    ensures
        vrn_seq_enc(vs).len() == vrn_seq_len(vs),
    decreases vs.len(),
{
    if vs.len() > 0 {
        lemma_vrn_enc_len(vs[0] as nat);
        lemma_vrn_seq_enc_len(vs.skip(1));
    }
}

proof fn lemma_vrn_seq_push(vs: Seq<u32>, v: u32)
    ensures
        vrn_seq_len(vs.push(v)) == vrn_seq_len(vs) + vrn_len(v as nat),
        vrn_seq_enc(vs.push(v)) == vrn_seq_enc(vs) + vrn_enc(v as nat),
    decreases vs.len(),
{
    if vs.len() == 0 {
        assert(vs.push(v)[0] == v);
        assert(vs.push(v).skip(1) =~= Seq::<u32>::empty());
        assert(vrn_seq_enc(vs.push(v)) == vrn_enc(v as nat) + vrn_seq_enc(Seq::<u32>::empty()));
        assert(vrn_seq_enc(vs.push(v)) =~= vrn_enc(v as nat));
        assert(vrn_seq_enc(vs) + vrn_enc(v as nat) =~= vrn_enc(v as nat));
        assert(vrn_seq_len(vs.push(v)) == vrn_len(v as nat) + vrn_seq_len(Seq::<u32>::empty()));
    } else {
        assert(vs.push(v)[0] == vs[0]);
        assert(vs.push(v).skip(1) =~= vs.skip(1).push(v));
        lemma_vrn_seq_push(vs.skip(1), v);
        assert(vrn_seq_enc(vs.push(v)) =~= vrn_seq_enc(vs) + vrn_enc(v as nat));
    }
}

/// A prefix never encodes to more bytes than the whole.
proof fn lemma_vrn_seq_len_prefix(vs: Seq<u32>, k: int)
    requires
        0 <= k <= vs.len(),
    ensures
        vrn_seq_len(vs.take(k)) <= vrn_seq_len(vs),
    decreases vs.len(),
{
    if k == 0 {
    } else {
        assert(vs.take(k)[0] == vs[0]);
        assert(vs.take(k).skip(1) =~= vs.skip(1).take(k - 1));
        lemma_vrn_seq_len_prefix(vs.skip(1), k - 1);
    }
}

/// Two value sequences with the same encoding are the same sequence.
pub proof fn lemma_vrn_seq_enc_injective(a: Seq<u32>, b: Seq<u32>)
    requires
        vrn_seq_enc(a) == vrn_seq_enc(b),
    ensures
        a == b,
    decreases a.len(),
{
    lemma_vrn_seq_enc_len(a);
    lemma_vrn_seq_enc_len(b);
    if a.len() == 0 {
        if b.len() > 0 {
            lemma_vrn_enc_len(b[0] as nat);
            assert(false);
        }
        assert(a =~= b);
    } else if b.len() == 0 {
        lemma_vrn_enc_len(a[0] as nat);
        assert(false);
    } else {
        let ea = vrn_enc(a[0] as nat);
        let eb = vrn_enc(b[0] as nat);
        lemma_vrn_enc_len(a[0] as nat);
        lemma_vrn_enc_len(b[0] as nat);
        lemma_vrn_round_trip(a[0] as nat, vrn_seq_enc(a.skip(1)));
        lemma_vrn_round_trip(b[0] as nat, vrn_seq_enc(b.skip(1)));
        assert(a[0] == b[0]);
        assert(ea == eb);
        assert(vrn_seq_enc(a.skip(1)) =~= vrn_seq_enc(b.skip(1))) by {
            let whole = vrn_seq_enc(a);
            assert(vrn_seq_enc(a.skip(1)) =~= whole.skip(ea.len() as int));
            assert(vrn_seq_enc(b.skip(1)) =~= whole.skip(eb.len() as int));
        }
        lemma_vrn_seq_enc_injective(a.skip(1), b.skip(1));
        assert(a.len() == b.len());
        assert forall|i: int| 0 <= i < a.len() implies a[i] == b[i] by {
            if i > 0 {
                assert(a[i] == a.skip(1)[i - 1]);
                assert(b[i] == b.skip(1)[i - 1]);
            }
        }
        assert(a =~= b);
    }
}

/// `u32s_byt_len` returns the byte length of variable length encoded u32s.
pub fn u32s_byt_len(blk: &[u32]) -> (r: usize)
    requires
        vrn_seq_len(blk@) <= usize::MAX,
    ensures
        r == vrn_seq_len(blk@),
{
    let mut len: usize = 0;
    let n = blk.len();
    let mut i: usize = 0;
    proof {
        assert(blk@.take(0) =~= Seq::<u32>::empty());
    }
    while i < n
        invariant
            n == blk@.len(),
            i <= n,
            len == vrn_seq_len(blk@.take(i as int)),
            vrn_seq_len(blk@) <= usize::MAX,
        decreases n - i,
    {
        proof {
            assert(blk@.take(i + 1) =~= blk@.take(i as int).push(blk@[i as int]));
            lemma_vrn_seq_push(blk@.take(i as int), blk[i as int]);
            lemma_vrn_seq_len_prefix(blk@, i + 1);
        }
        let l = u32_byt_len(blk[i]);
        len = len + l;
        i = i + 1;
    }
    proof {
        assert(blk@.take(n as int) =~= blk@);
    }
    len
}

/// `u32s_pck` compresses u32s to variable length encoded bytes.
///
/// `dst` is expected to be large enough.
pub fn u32s_pck(src: &[u32], dst: &mut Vec<u8>)
    requires
        vrn_seq_len(src@) <= old(dst)@.len(),
    ensures
        final(dst)@.len() == old(dst)@.len(),
        final(dst)@.subrange(0, vrn_seq_len(src@) as int) == vrn_seq_enc(src@),
        forall|i: int|
            vrn_seq_len(src@) <= i < final(dst)@.len() ==> final(dst)@[i] == old(dst)@[i],
{
    let mut d: usize = 0;
    let n = src.len();
    let mut s: usize = 0;
    proof {
        assert(src@.take(0) =~= Seq::<u32>::empty());
        lemma_vrn_seq_enc_len(src@.take(0));
        assert(dst@.subrange(0, 0) =~= vrn_seq_enc(src@.take(0)));
    }
    while s < n
        invariant
            n == src@.len(),
            s <= n,
            d == vrn_seq_len(src@.take(s as int)),
            dst@.len() == old(dst)@.len(),
            vrn_seq_len(src@) <= dst@.len(),
            dst@.subrange(0, d as int) == vrn_seq_enc(src@.take(s as int)),
            forall|i: int| d <= i < dst@.len() ==> dst@[i] == old(dst)@[i],
        decreases n - s,
    {
        let ghost pre = dst@;
        let ghost dd = d as int;
        proof {
            assert(src@.take(s + 1) =~= src@.take(s as int).push(src@[s as int]));
            lemma_vrn_seq_push(src@.take(s as int), src[s as int]);
            lemma_vrn_seq_len_prefix(src@, s + 1);
        }
        let w = u32_emit(src[s], dst, d);
        proof {
            let cur = src@[s as int];
            assert(dst.len() == dst@.len());
            assert(dst@.subrange(0, dd) =~= pre.subrange(0, dd));
            assert(dst@.subrange(dd, dd + w) == vrn_enc(cur as nat));
            assert(dst@.subrange(0, dd + w) =~= dst@.subrange(0, dd) + dst@.subrange(
                dd,
                dd + w,
            ));
            assert(dst@.subrange(0, dd + w) == vrn_seq_enc(src@.take(s + 1)));
        }
        d = d + w;
        s = s + 1;
    }
    proof {
        assert(src@.take(n as int) =~= src@);
    }
}

/// `u32s_unp` decompresses u32s from variable length encoded bytes.
///
/// `src` must hold whole encoded values; `dst` is expected to be zeroed out
/// and large enough.
pub fn u32s_unp(src: &[u8], dst: &mut Vec<u32>)
    requires
        exists|vs: Seq<u32>| #[trigger] vrn_seq_enc(vs) == src@ && vs.len() <= old(dst)@.len(),
        forall|i: int| 0 <= i < old(dst)@.len() ==> old(dst)@[i] == 0,
    ensures
        final(dst)@.len() == old(dst)@.len(),
        forall|vs: Seq<u32>|
            #[trigger] vrn_seq_enc(vs) == src@ && vs.len() <= old(dst)@.len() ==> {
                &&& (forall|j: int| 0 <= j < vs.len() ==> final(dst)@[j] == vs[j])
                &&& (forall|j: int|
                    vs.len() <= j < final(dst)@.len() ==> final(dst)@[j] == 0)
            },
{
    let ghost vs = choose|vs: Seq<u32>|
        #[trigger] vrn_seq_enc(vs) == src@ && vs.len() <= old(dst)@.len();
    let n = src.len();
    let mut shf: u32 = 0;
    let mut d: usize = 0;
    let mut s: usize = 0;
    let ghost mut p: int = 0;
    proof {
        lemma2_to64();
        lemma_vrn_seq_enc_len(vs);
        assert(src@.skip(0) =~= src@);
        if vs.len() > 0 {
            assert(vrn_seq_enc(vs) == vrn_enc(vs[0] as nat) + vrn_seq_enc(vs.skip(1)));
            assert((vs[0] as nat) / pow2(0) == vs[0] as nat);
            assert((vs[0] as nat) % pow2(0) == 0);
        }
    }
    while s < n
        invariant
            n == src@.len(),
            s <= n,
            dst@.len() == old(dst)@.len(),
            src@ == vrn_seq_enc(vs),
            vs.len() <= dst@.len(),
            d <= vs.len(),
            0 <= p,
            shf == 7 * p,
            forall|j: int| 0 <= j < d ==> dst@[j] == vs[j],
            forall|j: int| d < j < dst@.len() ==> dst@[j] == 0,
            d < vs.len() ==> {
                &&& p < 5
                &&& (dst@[d as int] as nat) == (vs[d as int] as nat) % pow2((7 * p) as nat)
                &&& src@.skip(s as int) == vrn_enc((vs[d as int] as nat) / pow2((7 * p) as nat))
                    + vrn_seq_enc(vs.skip(d + 1))
            },
            d == vs.len() ==> s == n && (forall|j: int|
                d <= j < dst@.len() ==> dst@[j] == 0),
        decreases n - s,
    {
        proof {
            if d == vs.len() {
                assert(false);
            }
        }
        let ghost v = vs[d as int] as nat;
        let ghost q = pow2((7 * p) as nat);
        let ghost rem = v / q;
        let ghost val0 = dst@[d as int] as nat;
        let b = src[s];
        let g = b & BYT_BDY_MSK;
        proof {
            lemma2_to64();
            lemma_u8_low7(b);
            lemma_vrn_enc_len(rem);
            vstd::arithmetic::power2::lemma_pow2_pos((7 * p) as nat);
            assert(src@[s as int] == src@.skip(s as int)[0]);
            assert(src@.skip(s as int)[0] == vrn_enc(rem)[0]);
            lemma_pow2_adds((7 * p) as nat, 7);
            lemma_fundamental_div_mod(v as int, q as int);
            if rem >= 128 {
                assert(b == (128 + rem % 128) as u8);
                assert(b >= 128 && (g as nat) == rem % 128);
                // a fifth continuation group would push the value past 32 bits
                if p >= 4 {
                    assert(q * rem >= q * 128) by {
                        vstd::arithmetic::mul::lemma_mul_inequality(128, rem as int, q as int);
                        vstd::arithmetic::mul::lemma_mul_is_commutative(q as int, rem as int);
                        vstd::arithmetic::mul::lemma_mul_is_commutative(q as int, 128);
                    }
                    lemma_pow2_strictly_increases(32, (7 * p + 7) as nat);
                    assert(false);
                }
            } else {
                assert(b == rem as u8);
                assert((g as nat) == rem);
            }
        }
        let cur = dst[d];
        proof {
            vstd::arithmetic::div_mod::lemma_mod_division_less_than_divisor(v as int, q as int);
            lemma_u32_dec_step(cur, g as u32, shf);
        }
        dst.set(d, cur | ((g as u32) << shf));
        proof {
            vstd::arithmetic::mul::lemma_mul_is_commutative(q as int, g as int);
            assert(dst@[d as int] as nat == (val0 + q * (g as nat)) % pow2(32));
            if rem >= 128 {
                // the written word now holds one more 7-bit group of the value
                vstd::arithmetic::div_mod::lemma_mod_breakdown(v as int, q as int, 128);
                assert(val0 + q * (g as nat) == v % (q * 128));
                vstd::arithmetic::div_mod::lemma_mod_decreases(v % (q * 128), pow2(32));
                vstd::arithmetic::div_mod::lemma_mod_division_less_than_divisor(
                    v as int,
                    (q * 128) as int,
                );
                vstd::arithmetic::div_mod::lemma_small_mod(v % (q * 128), pow2(32));
                assert(dst@[d as int] as nat == v % pow2((7 * (p + 1)) as nat));
                vstd::arithmetic::div_mod::lemma_div_denominator(v as int, q as int, 128);
                assert(v / q / 128 == v / (q * 128));
                assert(vrn_enc(rem) == seq![(128 + rem % 128) as u8] + vrn_enc(rem / 128));
                let tail = vrn_seq_enc(vs.skip(d + 1));
                assert(src@.skip(s + 1) =~= src@.skip(s as int).skip(1));
                assert((vrn_enc(rem) + tail).skip(1) =~= vrn_enc(rem).skip(1) + tail);
                assert(vrn_enc(rem).skip(1) =~= vrn_enc(rem / 128));
                assert(src@.skip(s + 1) =~= vrn_enc(v / pow2((7 * (p + 1)) as nat))
                    + vrn_seq_enc(vs.skip(d + 1)));
            } else {
                // the value is complete
                assert(val0 + q * rem == v);
                vstd::arithmetic::div_mod::lemma_small_mod(v, pow2(32));
                assert(dst@[d as int] == vs[d as int]);
                assert(vrn_enc(rem) == seq![rem as u8]);
                let tail = vrn_seq_enc(vs.skip(d + 1));
                assert(src@.skip(s + 1) =~= src@.skip(s as int).skip(1));
                assert((vrn_enc(rem) + tail).skip(1) =~= tail);
                assert(src@.skip(s + 1) =~= vrn_seq_enc(vs.skip(d + 1)));
                if d + 1 < vs.len() {
                    assert(vs.skip(d + 1)[0] == vs[d + 1]);
                    assert(vs.skip(d + 1).skip(1) =~= vs.skip(d + 2));
                    assert(vrn_seq_enc(vs.skip(d + 1)) == vrn_enc(vs[d + 1] as nat)
                        + vrn_seq_enc(vs.skip(d + 2)));
                    assert((vs[d + 1] as nat) / pow2(0) == vs[d + 1] as nat);
                    assert((vs[d + 1] as nat) % pow2(0) == 0);
                } else {
                    assert(vs.skip(d + 1).len() == 0);
                    assert(vrn_seq_enc(vs.skip(d + 1)).len() == 0) by {
                        lemma_vrn_seq_enc_len(vs.skip(d + 1));
                    }
                    assert(src@.skip(s + 1).len() == 0);
                }
            }
            assert(dst.len() == dst@.len());
        }
        shf = shf + 7;
        if b & BYT_HDR_MSK == 0 {
            shf = 0;
            d = d + 1;
            proof {
                p = 0;
            }
        } else {
            proof {
                p = p + 1;
            }
        }
        s = s + 1;
    }
    proof {
        if d < vs.len() {
            lemma_vrn_enc_len((vs[d as int] as nat) / pow2((7 * p) as nat));
            assert(src@.skip(s as int).len() == 0);
            assert(false);
        }
        assert forall|vs2: Seq<u32>|
            vrn_seq_enc(vs2) == src@ && vs2.len() <= old(dst)@.len() implies {
            &&& (forall|j: int| 0 <= j < vs2.len() ==> dst@[j] == vs2[j])
            &&& (forall|j: int| vs2.len() <= j < dst@.len() ==> dst@[j] == 0)
        } by {
            lemma_vrn_seq_enc_injective(vs2, vs);
        }
    }
}

proof fn lemma2_to64_rest_local()
    ensures
        pow2(70) == 0x400000000000000000,
{
    vstd::arithmetic::power2::lemma2_to64_rest();
    lemma_pow2_adds(64, 6);
    lemma2_to64();
}

} // verus!
