//! Schedule generator for the per-block SIMD pack and unpack engines.
//!
//! For a bit width `w` and a block of `elm_per_blk` elements, the generator
//! emits the ordered list of shift micro-operations that packs the block's
//! lane-interleaved deltas into 256-bit vectors. The packer, the unpacker and
//! the size oracle all walk this one schedule, so the three always agree.
//!
//! The generator tracks bit progress within a single 32-bit lane; block-wide
//! progress is always eight times the lane progress, because the eight lanes
//! of a vector advance together.

use vstd::prelude::*;

verus! {

use vstd::arithmetic::div_mod::{
    lemma_fundamental_div_mod,
    lemma_fundamental_div_mod_converse,
};
use vstd::arithmetic::mul::{lemma_mul_is_distributive_add_other_way, lemma_mul_is_commutative};

/// `BIT_PER_LNE` is the number of bits per SIMD lane.
pub const BIT_PER_LNE: usize = 32;

/// `ELM_PER_SMD` is the number of 32-bit elements per SIMD vector.
pub const ELM_PER_SMD: usize = 8;

/// `MIN_ELM_PER_BLK` is the inclusive minimum number of 32-bit elements per
/// block: two SIMD vectors.
pub const MIN_ELM_PER_BLK: usize = 16;

/// `Dir` is the direction of a bit-shift operation.
#[derive(Debug, Clone, Copy, PartialEq, Eq, Structural)]
pub enum Dir {
    /// No shift: a fresh element starts a fresh output lane.
    Zro,
    /// Right shift: the leftover high bits of a straddled element open a new
    /// output lane.
    Bck,
    /// Left shift: a whole element enters the current output lane.
    Fwd,
    /// Left shift of which only the low part fits: the element straddles two
    /// output lanes.
    FwdPrt,
}

/// `Itm` is the state of one emitted step.
#[derive(Debug, Clone, Copy)]
pub struct Itm {
    /// `shf_dir` is the direction of the step's bit-shift operation.
    pub shf_dir: Dir,
    /// `shf_len` is the number of bits to shift.
    pub shf_len: usize,
    /// `lne_bit_len` is the number of bits this step contributes to the
    /// current output lane.
    pub lne_bit_len: usize,
    /// `lne_bit_sum` is the cumulative number of bits in the current output
    /// lane after this step.
    pub lne_bit_sum: usize,
    /// `blk_bit_sum` is the cumulative number of bits packed across the whole
    /// block after this step.
    pub blk_bit_sum: usize,
}

/// `Itr` classifies an emitted step.
#[derive(Debug)]
pub enum Itr {
    /// `Fst` is the first iteration.
    Fst,
    /// `Mdl` is a middle iteration.
    Mdl { itm: Itm },
    /// `Lst` is the last iteration.
    Lst { itm: Itm },
}

/// The branching rule of the generator: `cur` is the step emitted after
/// `prv` at element bit width `w`.
pub open spec fn sched_step(w: int, prv: Itm, cur: Itm) -> bool {
    if prv.blk_bit_sum == 0 {
        // first step: a whole element enters lane position 0
        &&& cur.shf_dir == Dir::Zro
        &&& cur.shf_len == 0
        &&& cur.lne_bit_len == w
        &&& cur.lne_bit_sum == w
        &&& cur.blk_bit_sum == w * 8
    } else if prv.lne_bit_sum < 32 - w + 1 {
        // the next w bits fit entirely in the current output lane
        &&& cur.shf_dir == Dir::Fwd
        &&& cur.shf_len == prv.lne_bit_sum
        &&& cur.lne_bit_len == w
        &&& cur.lne_bit_sum == prv.lne_bit_sum + w
        &&& cur.blk_bit_sum == prv.blk_bit_sum + w * 8
    } else if prv.lne_bit_sum < 32 {
        // only the low bits fit: a straddle begins
        &&& cur.shf_dir == Dir::FwdPrt
        &&& cur.shf_len == prv.lne_bit_sum
        &&& cur.lne_bit_len == 32 - prv.lne_bit_sum
        &&& cur.lne_bit_sum == 32
        &&& cur.blk_bit_sum == prv.blk_bit_sum + (32 - prv.lne_bit_sum) * 8
    } else if prv.lne_bit_len == w {
        // the lane just filled with a whole element: start fresh
        &&& cur.shf_dir == Dir::Zro
        &&& cur.shf_len == 0
        &&& cur.lne_bit_len == w
        &&& cur.lne_bit_sum == w
        &&& cur.blk_bit_sum == prv.blk_bit_sum + w * 8
    } else {
        // the lane filled mid-element: write the leftover high bits
        &&& cur.shf_dir == Dir::Bck
        &&& cur.shf_len == prv.lne_bit_len
        &&& cur.lne_bit_len == w - prv.lne_bit_len
        &&& cur.lne_bit_sum == w - prv.lne_bit_len
        &&& cur.blk_bit_sum == prv.blk_bit_sum + (w - prv.lne_bit_len) * 8
    }
}

/// The reachable states of the generator at width `w`, phrased over the lane
/// bit count `t = blk_bit_sum / 8`. Either `t` sits at an element boundary,
/// or a straddled element has just filled an output lane.
pub open spec fn itm_ok(w: int, itm: Itm) -> bool {
    let t = (itm.blk_bit_sum as int) / 8;
    &&& itm.blk_bit_sum as int % 8 == 0
    &&& itm.lne_bit_len <= w
    &&& (t % w == 0 ==> {
        &&& itm.lne_bit_sum == (if t == 0 {
            0int
        } else if t % 32 == 0 {
            32int
        } else {
            t % 32
        })
        &&& (t > 0 && t % 32 == 0 ==> itm.lne_bit_len == w)
        &&& (t == 0 ==> itm.lne_bit_len == 0)
    })
    &&& (t % w != 0 ==> {
        &&& t % 32 == 0
        &&& t == (t / w) * w + (32 - ((t / w) * w) % 32)
        &&& ((t / w) * w) % 32 + w > 32
        &&& itm.lne_bit_sum == 32
        &&& itm.lne_bit_len == 32 - ((t / w) * w) % 32
    })
}

/// One generator step keeps the state reachable, never overshoots the block,
/// and advances the lane position by exactly the bits it contributes.
pub proof fn lemma_sched_step(w: int, n: int, prv: Itm, cur: Itm)
    requires
        1 <= w <= 32,
        n >= 1,
        itm_ok(w, prv),
        prv.blk_bit_sum as int / 8 < n * w,
        prv.blk_bit_sum as int <= usize::MAX - 256,
        sched_step(w, prv, cur),
    ensures
        itm_ok(w, cur),
        cur.blk_bit_sum as int / 8 <= n * w,
        cur.blk_bit_sum as int / 8 == prv.blk_bit_sum as int / 8 + cur.lne_bit_len,
        cur.blk_bit_sum as int / 8 == 32 * (prv.blk_bit_sum as int / 8 / 32) + cur.lne_bit_sum,
        1 <= cur.lne_bit_len,
        cur.blk_bit_sum as int % 8 == 0,
        cur.shf_dir == Dir::Bck ==> prv.blk_bit_sum as int / 8 % w != 0 && cur.blk_bit_sum as int
            / 8 % w == 0 && cur.blk_bit_sum as int / 8 / w == prv.blk_bit_sum as int / 8 / w + 1,
        cur.shf_dir != Dir::Bck ==> prv.blk_bit_sum as int / 8 % w == 0,
        cur.shf_dir == Dir::FwdPrt ==> cur.blk_bit_sum as int / 8 % w != 0 && cur.blk_bit_sum
            as int / 8 / w == prv.blk_bit_sum as int / 8 / w,
        (cur.shf_dir == Dir::Zro || cur.shf_dir == Dir::Fwd) ==> cur.blk_bit_sum as int / 8 % w
            == 0 && cur.blk_bit_sum as int / 8 / w == prv.blk_bit_sum as int / 8 / w + 1,
{
    let t = (prv.blk_bit_sum as int) / 8;
    let t2 = (cur.blk_bit_sum as int) / 8;
    let e = t / w;
    lemma_fundamental_div_mod(prv.blk_bit_sum as int, 8);
    lemma_fundamental_div_mod(t, w);
    lemma_fundamental_div_mod(t, 32);
    lemma_mul_is_commutative(w, e);
    let s = prv.lne_bit_sum as int;
    if prv.blk_bit_sum == 0 {
        // first step: t == 0, t2 == w
        assert(cur.blk_bit_sum == w * 8);
        lemma_fundamental_div_mod_converse(cur.blk_bit_sum as int, 8, w, 0);
        assert(t2 == w);
        lemma_fundamental_div_mod_converse(t2, w, 1, 0);
        if w == 32 {
            lemma_fundamental_div_mod_converse(t2, 32, 1, 0);
        } else {
            lemma_fundamental_div_mod_converse(t2, 32, 0, w);
        }
        lemma_fundamental_div_mod_converse(0int, 32, 0, 0);
        assert(t2 <= n * w) by {
            vstd::arithmetic::mul::lemma_mul_basics(w);
            vstd::arithmetic::mul::lemma_mul_inequality(1, n, w);
            lemma_mul_is_commutative(n, w);
            lemma_mul_is_commutative(1, w);
        }
    } else if s < 32 - w + 1 || (s == 32 && prv.lne_bit_len == w) {
        // a whole element enters: t is at a boundary, t2 = t + w
        assert(t % w == 0);
        assert(t == e * w);
        assert(cur.blk_bit_sum == prv.blk_bit_sum + w * 8);
        lemma_fundamental_div_mod_converse(cur.blk_bit_sum as int, 8, t + w, 0);
        assert(t2 == t + w);
        assert(t2 == (e + 1) * w) by {
            lemma_mul_is_distributive_add_other_way(w, e, 1);
        }
        lemma_fundamental_div_mod_converse(t2, w, e + 1, 0);
        assert(e < n) by {
            if e >= n {
                vstd::arithmetic::mul::lemma_mul_inequality(n, e, w);
                lemma_mul_is_commutative(n, w);
                lemma_mul_is_commutative(e, w);
                assert(false);
            }
        }
        assert(t2 <= n * w) by {
            vstd::arithmetic::mul::lemma_mul_inequality(e + 1, n, w);
            lemma_mul_is_commutative(e + 1, w);
            lemma_mul_is_commutative(n, w);
        }
        let k = t / 32;
        if s < 32 - w + 1 {
            // Fwd (or the zero-shift case after a full word at width 32)
            let q = if t % 32 == 0 {
                0int
            } else {
                t % 32
            };
            assert(s == q || (s == 32 && q == 0));
            assert(s == q) by {
                if t % 32 == 0 && s == 32 {
                    assert(32 < 32 - w + 1);
                    assert(false);
                }
            }
            if q + w == 32 {
                lemma_fundamental_div_mod_converse(t2, 32, k + 1, 0);
            } else {
                lemma_fundamental_div_mod_converse(t2, 32, k, q + w);
            }
        } else {
            // Zro after a full word: t % 32 == 0
            assert(s == 32);
            assert(t % 32 == 0);
            if w == 32 {
                lemma_fundamental_div_mod_converse(t2, 32, k + 1, 0);
            } else {
                lemma_fundamental_div_mod_converse(t2, 32, k, w);
            }
        }
    } else if s < 32 {
        // FwdPrt: t at a boundary with s == t % 32, only 32 - s bits fit
        assert(t % w == 0);
        assert(t == e * w);
        assert(s == t % 32) by {
            if t % 32 == 0 {
                assert(s == 32 || s == 0);
                assert(false);
            }
        }
        let k = t / 32;
        assert(cur.blk_bit_sum == prv.blk_bit_sum + (32 - s) * 8);
        lemma_fundamental_div_mod_converse(cur.blk_bit_sum as int, 8, t + (32 - s), 0);
        assert(t2 == t + (32 - s));
        lemma_fundamental_div_mod_converse(t2, 32, k + 1, 0);
        assert(t2 % 32 == 0);
        // the element is mid-straddle: e stays, the remainder is w - (32 - s)
        assert(32 - s < w);
        assert(t2 == e * w + (32 - s));
        lemma_fundamental_div_mod_converse(t2, w, e, 32 - s);
        assert(t2 / w == e && t2 % w == 32 - s);
        assert((t2 / w) * w == e * w) by {
            lemma_mul_is_commutative(w, e);
        }
        assert(((t2 / w) * w) % 32 == s) by {
            lemma_fundamental_div_mod_converse(e * w, 32, k, s);
        }
        // e < n, so the partial element stays inside the block
        assert(e < n) by {
            if e >= n {
                vstd::arithmetic::mul::lemma_mul_inequality(n, e, w);
                lemma_mul_is_commutative(n, w);
                lemma_mul_is_commutative(e, w);
                assert(false);
            }
        }
        assert(t2 <= n * w) by {
            assert(t2 < e * w + w);
            assert(e * w + w == (e + 1) * w) by {
                lemma_mul_is_distributive_add_other_way(w, e, 1);
            }
            vstd::arithmetic::mul::lemma_mul_inequality(e + 1, n, w);
            lemma_mul_is_commutative(e + 1, w);
            lemma_mul_is_commutative(n, w);
        }
    } else {
        // Bck: the straddled element's high bits complete it
        assert(s == 32 && prv.lne_bit_len < w);
        assert(t % w != 0);
        let q = ((t / w) * w) % 32;
        assert(prv.lne_bit_len == 32 - q);
        assert(t == (t / w) * w + (32 - q));
        let p = 32 - q;
        assert(cur.lne_bit_len == w - p);
        assert(cur.blk_bit_sum == prv.blk_bit_sum + (w - p) * 8);
        lemma_fundamental_div_mod_converse(cur.blk_bit_sum as int, 8, t + (w - p), 0);
        assert(t2 == t + (w - p));
        assert(t2 == (t / w) * w + w);
        assert(t2 == (t / w + 1) * w) by {
            lemma_mul_is_distributive_add_other_way(w, t / w, 1);
            lemma_mul_is_commutative(w, t / w);
        }
        lemma_fundamental_div_mod_converse(t2, w, t / w + 1, 0);
        // word position: t was word-aligned, the new lane holds w - p bits
        assert(t % 32 == 0);
        let k = t / 32;
        assert(0 < w - p < 32) by {
            assert(q + w > 32);
        }
        lemma_fundamental_div_mod_converse(t2, 32, k, w - p);
        // t / w < n because t < n * w
        assert(t / w + 1 <= n) by {
            if t / w >= n {
                vstd::arithmetic::mul::lemma_mul_inequality(n, t / w, w);
                lemma_mul_is_commutative(n, w);
                lemma_mul_is_commutative(t / w, w);
                assert(t >= (t / w) * w);
                assert(false);
            }
        }
        assert(t2 <= n * w) by {
            vstd::arithmetic::mul::lemma_mul_inequality(t / w + 1, n, w);
            lemma_mul_is_commutative(t / w + 1, w);
            lemma_mul_is_commutative(n, w);
        }
    }
}

/// `BlkItr` provides block iteration of shift operations for packing or
/// unpacking.
#[derive(Debug)]
pub struct BlkItr {
    /// Bits per SIMD lane.
    pub bit_per_lne: usize,
    /// Bit width of a packed element.
    pub elm_bit_len: usize,
    /// Elements per block.
    pub elm_per_blk: usize,
    /// Lane-bit threshold below which a whole element still fits.
    pub lne_bit_lim: usize,
    /// Total bits the block occupies when packed.
    pub blk_bit_len: usize,
    /// The previously emitted step.
    pub prv: Itm,
}

impl BlkItr {
    /// The iterator's configuration is consistent and its state reachable.
    pub open spec fn wf(self) -> bool {
        &&& 1 <= self.elm_bit_len <= 32
        &&& self.bit_per_lne == 32
        &&& self.lne_bit_lim == 32 - self.elm_bit_len + 1
        &&& self.elm_per_blk >= 16
        &&& self.elm_per_blk % 8 == 0
        &&& self.blk_bit_len == self.elm_bit_len * self.elm_per_blk
        &&& self.blk_bit_len + 256 <= usize::MAX
        &&& self.prv.lne_bit_len <= self.elm_bit_len
        &&& self.prv.blk_bit_sum <= self.blk_bit_len
    }

    /// Emits the next step, or `None` once the whole block's bits are
    /// scheduled.
    pub fn next(&mut self) -> (r: Option<Itr>)
        requires
            old(self).wf(),
        ensures
            final(self).bit_per_lne == old(self).bit_per_lne,
            final(self).elm_bit_len == old(self).elm_bit_len,
            final(self).elm_per_blk == old(self).elm_per_blk,
            final(self).lne_bit_lim == old(self).lne_bit_lim,
            final(self).blk_bit_len == old(self).blk_bit_len,
            r is None <==> old(self).prv.blk_bit_sum == old(self).blk_bit_len,
            r is None ==> final(self).prv == old(self).prv,
            r is Some ==> sched_step(
                old(self).elm_bit_len as int,
                old(self).prv,
                final(self).prv,
            ) && final(self).prv.lne_bit_len <= final(self).elm_bit_len,
            match r {
                None => true,
                Some(Itr::Fst) => old(self).prv.blk_bit_sum == 0,
                Some(Itr::Mdl { itm }) => old(self).prv.blk_bit_sum != 0 && itm == final(self).prv && itm.blk_bit_sum != final(self).blk_bit_len,
                Some(Itr::Lst { itm }) => old(self).prv.blk_bit_sum != 0 && itm == final(self).prv && itm.blk_bit_sum == final(self).blk_bit_len,
            },
            r matches Some(Itr::Fst) ==> final(self).prv.blk_bit_sum != final(self).blk_bit_len,
    {
        // Stop iterating when all bits are packed or unpacked
        if self.prv.blk_bit_sum == self.blk_bit_len {
            return None;
        }

        // Determine the current lane bits packed or unpacked, and lane bit
        // sum, etc
        let cur = if self.prv.blk_bit_sum == 0 {
            // First iteration
            let lne_bit_len = self.elm_bit_len;
            Itm {
                shf_dir: Dir::Zro,
                shf_len: 0,
                lne_bit_len,
                lne_bit_sum: lne_bit_len,
                blk_bit_sum: lne_bit_len * ELM_PER_SMD,
            }
        } else if self.prv.lne_bit_sum < self.lne_bit_lim {
            // the whole next element still fits in the current lane
            let lne_bit_len = self.elm_bit_len;
            Itm {
                shf_dir: Dir::Fwd,
                shf_len: self.prv.lne_bit_sum,
                lne_bit_len,
                lne_bit_sum: self.prv.lne_bit_sum + self.elm_bit_len,
                blk_bit_sum: self.prv.blk_bit_sum + (lne_bit_len * ELM_PER_SMD),
            }
        } else if self.prv.lne_bit_sum < self.bit_per_lne {
            // only part of the next element fits: straddle
            let lne_bit_len = self.bit_per_lne - self.prv.lne_bit_sum;
            Itm {
                shf_dir: Dir::FwdPrt,
                shf_len: self.prv.lne_bit_sum,
                lne_bit_len,
                lne_bit_sum: self.bit_per_lne,
                blk_bit_sum: self.prv.blk_bit_sum + (lne_bit_len * ELM_PER_SMD),
            }
        } else {
            // the output lane just filled
            if self.prv.lne_bit_len == self.elm_bit_len {
                // the filling element was whole: start a fresh lane
                let lne_bit_len = self.elm_bit_len;
                Itm {
                    shf_dir: Dir::Zro,
                    shf_len: 0,
                    lne_bit_len,
                    lne_bit_sum: lne_bit_len,
                    blk_bit_sum: self.prv.blk_bit_sum + (lne_bit_len * ELM_PER_SMD),
                }
            } else {
                // the filling element straddled: its high bits open the lane
                let lne_bit_len = self.elm_bit_len - self.prv.lne_bit_len;
                Itm {
                    shf_dir: Dir::Bck,
                    shf_len: self.prv.lne_bit_len,
                    lne_bit_len,
                    lne_bit_sum: lne_bit_len,
                    blk_bit_sum: self.prv.blk_bit_sum + (lne_bit_len * ELM_PER_SMD),
                }
            }
        };

        // Determine iteration order
        let result = if self.prv.blk_bit_sum == 0 {
            Itr::Fst
        } else if cur.blk_bit_sum != self.blk_bit_len {
            Itr::Mdl { itm: cur }
        } else {
            Itr::Lst { itm: cur }
        };

        // Set previous item for next iteration
        self.prv = cur;

        proof {
            // the first step never completes a block of at least two vectors
            if old(self).prv.blk_bit_sum == 0 {
                assert(cur.blk_bit_sum == self.elm_bit_len * 8);
                assert(self.elm_bit_len * 8 < self.elm_bit_len * self.elm_per_blk) by {
                    vstd::arithmetic::mul::lemma_mul_strict_inequality(
                        8,
                        self.elm_per_blk as int,
                        self.elm_bit_len as int,
                    );
                    lemma_mul_is_commutative(8, self.elm_bit_len as int);
                    lemma_mul_is_commutative(
                        self.elm_per_blk as int,
                        self.elm_bit_len as int,
                    );
                }
            }
        }
        Some(result)
    }
}

/// `blk_itr` returns a block iterator of shift operations for packing or
/// unpacking.
pub fn blk_itr(elm_bit_len: usize, elm_per_blk: usize) -> (r: BlkItr)
    requires
        1 <= elm_bit_len <= 32,
        elm_per_blk >= 16,
        elm_per_blk % 8 == 0,
        elm_bit_len * elm_per_blk + 256 <= usize::MAX,
    ensures
        r.wf(),
        r.elm_bit_len == elm_bit_len,
        r.elm_per_blk == elm_per_blk,
        r.blk_bit_len == elm_bit_len * elm_per_blk,
        r.prv.blk_bit_sum == 0,
        itm_ok(elm_bit_len as int, r.prv),
{
    BlkItr {
        bit_per_lne: BIT_PER_LNE,
        elm_bit_len,
        elm_per_blk,
        lne_bit_lim: BIT_PER_LNE - elm_bit_len + 1,
        // Calculate the total number of bits to be packed for this block
        blk_bit_len: elm_bit_len * elm_per_blk,
        prv: Itm {
            lne_bit_len: 0,
            lne_bit_sum: 0,
            blk_bit_sum: 0,
            shf_len: 0,
            shf_dir: Dir::Zro,
        },
    }
}

} // verus!
