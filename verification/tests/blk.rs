//! Tests for the block delta pack and unpack engine.

use blkpck::blk::{blk_bit_len, blk_byt_len, blk_pck, blk_unp};
use blkpck::blk::{u32x256_bit_len, u32x256_byt_len, u32x256_pck, u32x256_unp};
use blkpck::dat::gen_blk;

fn round_trip_256(w: u8, fst: u32, unp: &[u32]) -> Vec<u8> {
    let byt = u32x256_byt_len(w);
    let mut pck = vec![0u8; byt];
    u32x256_pck(w, fst, unp, &mut pck);
    let mut out = vec![0u32; 256];
    u32x256_unp(w, fst, &pck, &mut out);
    assert_eq!(unp, out.as_slice());
    pck
}

#[test]
fn all_zero_block() {
    // an all-zero block packs to zero bytes and unpacks back to zeros
    let unp = vec![0u32; 256];
    let w = u32x256_bit_len(&unp);
    assert_eq!(w, 0);
    assert_eq!(u32x256_byt_len(0), 0);
    round_trip_256(0, 0, &unp);
}

#[test]
fn ramp_block() {
    // the ramp has an inter-row gap of 8 in every lane: four bits
    let unp: Vec<u32> = (0..256u32).collect();
    let w = u32x256_bit_len(&unp);
    assert_eq!(w, 4);
    assert_eq!(u32x256_byt_len(4), 128);
    round_trip_256(4, 0, &unp);
}

#[test]
fn shifted_ramp_block() {
    // the gap of 8 << 16 needs twenty bits
    let unp: Vec<u32> = (0..256u32).map(|i| i << 16).collect();
    let w = u32x256_bit_len(&unp);
    assert_eq!(w, 20);
    assert_eq!(u32x256_byt_len(20), 640);
    round_trip_256(20, 0, &unp);
}

#[test]
fn wide_gap_block() {
    // a strictly sorted block whose largest inter-row lane delta fills 31
    // bits packs into 31 full vectors
    let mut unp = vec![0u32; 256];
    for i in 0..8usize {
        unp[i] = i as u32;
    }
    for i in 8..16usize {
        unp[i] = unp[i - 8] + ((1u32 << 31) - 1);
    }
    for i in 16..256usize {
        unp[i] = unp[i - 8] + 8;
    }
    for i in 1..256usize {
        assert!(unp[i - 1] < unp[i]);
    }
    let w = u32x256_bit_len(&unp);
    assert_eq!(w, 31);
    assert_eq!(u32x256_byt_len(31), 992);
    round_trip_256(31, 0, &unp);
}

#[test]
fn ramp_block_with_reference() {
    // passing the block's first value as the reference gives the same bytes
    // as the zero reference when that value is zero
    let unp: Vec<u32> = (0..256u32).collect();
    let a = round_trip_256(4, 0, &unp);
    let b = round_trip_256(4, unp[0], &unp);
    assert_eq!(a, b);
}

#[test]
fn raw_copy_width() {
    // at width 32 the packed bytes are the little-endian layout of the block
    let unp: Vec<u32> = (0..256u32).map(|i| i.wrapping_mul(0x01020304)).collect();
    assert_eq!(u32x256_byt_len(32), 1024);
    let pck = round_trip_256(32, 7, &unp);
    for i in 0..256usize {
        let b = unp[i].to_le_bytes();
        assert_eq!(&pck[4 * i..4 * i + 4], &b);
    }
}

#[test]
fn nonzero_reference_chaining() {
    // a block chained off a previous block's last value round-trips with
    // that value as the reference
    let fst = 5000u32;
    let unp: Vec<u32> = (0..256u32).map(|i| fst + 3 * i).collect();
    let w = u32x256_bit_len(&unp);
    // lane deltas between rows are 24; the first-row deltas against the
    // reference stay below 2^w as well
    assert_eq!(w, 5);
    round_trip_256(5, fst, &unp);
}

#[test]
fn generated_blocks_round_trip() {
    // random sorted blocks at every width: the detector reports the width
    // they were built for, and packing then unpacking is the identity
    for w in 0..=32u8 {
        let unp = gen_blk(256, w);
        assert_eq!(unp.len(), 256);
        assert_eq!(unp[0], 0);
        let det = u32x256_bit_len(&unp);
        assert_eq!(det, w);
        round_trip_256(w, 0, &unp);
    }
}

#[test]
fn general_block_sizes() {
    // the engine works at any supported block size, not just 256
    for &n_elm in [16usize, 24, 64, 120].iter() {
        for w in 0..=32u8 {
            let unp = gen_blk(n_elm, w);
            let det = blk_bit_len(&unp);
            assert_eq!(det, w);
            let byt = blk_byt_len(w, n_elm);
            let mut pck = vec![0u8; byt];
            blk_pck(w, 0, &unp, &mut pck);
            let mut out = vec![0u32; n_elm];
            blk_unp(w, 0, &pck, &mut out);
            assert_eq!(unp, out);
        }
    }
}

#[test]
fn byt_len_table() {
    // the oracle at the canonical size: one 32-byte vector per 256 packed
    // bits, or part thereof
    assert_eq!(u32x256_byt_len(0), 0);
    assert_eq!(u32x256_byt_len(1), 32);
    assert_eq!(u32x256_byt_len(2), 64);
    assert_eq!(u32x256_byt_len(7), 224);
    assert_eq!(u32x256_byt_len(31), 992);
    assert_eq!(u32x256_byt_len(32), 1024);
    // a size that does not divide the vector: 3 bits over 24 elements is 9
    // lane bits, one partial vector
    assert_eq!(blk_byt_len(3, 24), 32);
    assert_eq!(blk_byt_len(31, 16), 64);
}

#[test]
fn pack_leaves_tail_untouched() {
    // bytes past the packed length stay exactly as the caller left them
    let unp: Vec<u32> = (0..256u32).collect();
    let byt = u32x256_byt_len(4);
    let mut pck = vec![0xaau8; byt + 16];
    u32x256_pck(4, 0, &unp, &mut pck);
    for i in byt..byt + 16 {
        assert_eq!(pck[i], 0xaa);
    }
}

#[test]
fn zero_width_unp_zero_fills() {
    // width-0 unpack overwrites whatever was in the buffer with zeros,
    // whatever the reference
    let pck: Vec<u8> = vec![];
    let mut out = vec![0xdeadbeefu32; 256];
    u32x256_unp(0, 12345, &pck, &mut out);
    assert!(out.iter().all(|&v| v == 0));
}
