//! Tests for the variable-length integer codec.

use blkpck::vrn::{
    u32_byt_len, u32_pck, u32_unp, u32s_byt_len, u32s_pck, u32s_unp, usize_byt_len, usize_pck,
    usize_unp,
};

#[test]
fn usize_byt_len_() {
    assert_eq!(1, usize_byt_len(0));
    assert_eq!(1, usize_byt_len(1));
    assert_eq!(1, usize_byt_len(usize::pow(2, 7) - 1));
    assert_eq!(2, usize_byt_len(usize::pow(2, 7)));
    assert_eq!(2, usize_byt_len(usize::pow(2, 2 * 7) - 1));
    assert_eq!(3, usize_byt_len(usize::pow(2, 2 * 7)));
    assert_eq!(3, usize_byt_len(usize::pow(2, 3 * 7) - 1));
    assert_eq!(4, usize_byt_len(usize::pow(2, 3 * 7)));
    assert_eq!(4, usize_byt_len(usize::pow(2, 4 * 7) - 1));
    assert_eq!(5, usize_byt_len(usize::pow(2, 4 * 7)));
    assert_eq!(5, usize_byt_len(usize::pow(2, 5 * 7) - 1));
    assert_eq!(6, usize_byt_len(usize::pow(2, 5 * 7)));
    assert_eq!(6, usize_byt_len(usize::pow(2, 6 * 7) - 1));
    assert_eq!(7, usize_byt_len(usize::pow(2, 6 * 7)));
    assert_eq!(7, usize_byt_len(usize::pow(2, 7 * 7) - 1));
    assert_eq!(8, usize_byt_len(usize::pow(2, 7 * 7)));
    assert_eq!(8, usize_byt_len(usize::pow(2, 8 * 7) - 1));
}

#[test]
fn usize_pck_unp() {
    let mut pck = vec![0u8; 8];
    let mut val: usize = 0;
    let mut len: usize = 1;
    assert_eq!(len, usize_pck(val, &mut pck));
    let r = usize_unp(&pck);
    assert_eq!(val, r.val);
    assert_eq!(len, r.len);

    pck = vec![0u8; 8];
    val = 1;
    len = 1;
    assert_eq!(len, usize_pck(val, &mut pck));
    let r = usize_unp(&pck);
    assert_eq!(val, r.val);
    assert_eq!(len, r.len);

    pck = vec![0u8; 8];
    val = usize::pow(2, 7) - 1;
    len = 1;
    assert_eq!(len, usize_pck(val, &mut pck));
    let r = usize_unp(&pck);
    assert_eq!(val, r.val);
    assert_eq!(len, r.len);

    pck = vec![0u8; 8];
    val = usize::pow(2, 7);
    len = 2;
    assert_eq!(len, usize_pck(val, &mut pck));
    let r = usize_unp(&pck);
    assert_eq!(val, r.val);
    assert_eq!(len, r.len);

    pck = vec![0u8; 8];
    val = usize::pow(2, 2 * 7) - 1;
    len = 2;
    assert_eq!(len, usize_pck(val, &mut pck));
    let r = usize_unp(&pck);
    assert_eq!(val, r.val);
    assert_eq!(len, r.len);

    pck = vec![0u8; 8];
    val = usize::pow(2, 2 * 7);
    len = 3;
    assert_eq!(len, usize_pck(val, &mut pck));
    let r = usize_unp(&pck);
    assert_eq!(val, r.val);
    assert_eq!(len, r.len);

    pck = vec![0u8; 8];
    val = usize::pow(2, 3 * 7) - 1;
    len = 3;
    assert_eq!(len, usize_pck(val, &mut pck));
    let r = usize_unp(&pck);
    assert_eq!(val, r.val);
    assert_eq!(len, r.len);

    pck = vec![0u8; 8];
    val = usize::pow(2, 3 * 7);
    len = 4;
    assert_eq!(len, usize_pck(val, &mut pck));
    let r = usize_unp(&pck);
    assert_eq!(val, r.val);
    assert_eq!(len, r.len);

    pck = vec![0u8; 8];
    val = usize::pow(2, 4 * 7) - 1;
    len = 4;
    assert_eq!(len, usize_pck(val, &mut pck));
    let r = usize_unp(&pck);
    assert_eq!(val, r.val);
    assert_eq!(len, r.len);

    pck = vec![0u8; 8];
    val = usize::pow(2, 4 * 7);
    len = 5;
    assert_eq!(len, usize_pck(val, &mut pck));
    let r = usize_unp(&pck);
    assert_eq!(val, r.val);
    assert_eq!(len, r.len);

    pck = vec![0u8; 8];
    val = usize::pow(2, 5 * 7) - 1;
    len = 5;
    assert_eq!(len, usize_pck(val, &mut pck));
    let r = usize_unp(&pck);
    assert_eq!(val, r.val);
    assert_eq!(len, r.len);

    pck = vec![0u8; 8];
    val = usize::pow(2, 5 * 7);
    len = 6;
    assert_eq!(len, usize_pck(val, &mut pck));
    let r = usize_unp(&pck);
    assert_eq!(val, r.val);
    assert_eq!(len, r.len);

    pck = vec![0u8; 8];
    val = usize::pow(2, 6 * 7) - 1;
    len = 6;
    assert_eq!(len, usize_pck(val, &mut pck));
    let r = usize_unp(&pck);
    assert_eq!(val, r.val);
    assert_eq!(len, r.len);

    pck = vec![0u8; 8];
    val = usize::pow(2, 6 * 7);
    len = 7;
    assert_eq!(len, usize_pck(val, &mut pck));
    let r = usize_unp(&pck);
    assert_eq!(val, r.val);
    assert_eq!(len, r.len);

    pck = vec![0u8; 8];
    val = usize::pow(2, 7 * 7) - 1;
    len = 7;
    assert_eq!(len, usize_pck(val, &mut pck));
    let r = usize_unp(&pck);
    assert_eq!(val, r.val);
    assert_eq!(len, r.len);

    pck = vec![0u8; 8];
    val = usize::pow(2, 7 * 7);
    len = 8;
    assert_eq!(len, usize_pck(val, &mut pck));
    let r = usize_unp(&pck);
    assert_eq!(val, r.val);
    assert_eq!(len, r.len);

    pck = vec![0u8; 8];
    val = usize::pow(2, 8 * 7) - 1;
    len = 8;
    assert_eq!(len, usize_pck(val, &mut pck));
    let r = usize_unp(&pck);
    assert_eq!(val, r.val);
    assert_eq!(len, r.len);
}

#[test]
fn u32_byt_len_() {
    assert_eq!(1, u32_byt_len(0));
    assert_eq!(1, u32_byt_len(1));
    assert_eq!(1, u32_byt_len(u32::pow(2, 7) - 1));
    assert_eq!(2, u32_byt_len(u32::pow(2, 7)));
    assert_eq!(2, u32_byt_len(u32::pow(2, 2 * 7) - 1));
    assert_eq!(3, u32_byt_len(u32::pow(2, 2 * 7)));
    assert_eq!(3, u32_byt_len(u32::pow(2, 3 * 7) - 1));
    assert_eq!(4, u32_byt_len(u32::pow(2, 3 * 7)));
    assert_eq!(4, u32_byt_len(u32::pow(2, 4 * 7) - 1));
}

#[test]
fn u32_pck_unp() {
    let mut pck = vec![0u8; 8];
    let mut val: u32 = 0;
    let mut len: usize = 1;
    assert_eq!(len, u32_pck(val, &mut pck));
    let r = u32_unp(&pck);
    assert_eq!(val, r.val);
    assert_eq!(len, r.len);

    pck = vec![0u8; 8];
    val = 1;
    len = 1;
    assert_eq!(len, u32_pck(val, &mut pck));
    let r = u32_unp(&pck);
    assert_eq!(val, r.val);
    assert_eq!(len, r.len);

    pck = vec![0u8; 8];
    val = u32::pow(2, 7) - 1;
    len = 1;
    assert_eq!(len, u32_pck(val, &mut pck));
    let r = u32_unp(&pck);
    assert_eq!(val, r.val);
    assert_eq!(len, r.len);

    pck = vec![0u8; 8];
    val = u32::pow(2, 7);
    len = 2;
    assert_eq!(len, u32_pck(val, &mut pck));
    let r = u32_unp(&pck);
    assert_eq!(val, r.val);
    assert_eq!(len, r.len);

    pck = vec![0u8; 8];
    val = u32::pow(2, 2 * 7) - 1;
    len = 2;
    assert_eq!(len, u32_pck(val, &mut pck));
    let r = u32_unp(&pck);
    assert_eq!(val, r.val);
    assert_eq!(len, r.len);

    pck = vec![0u8; 8];
    val = u32::pow(2, 2 * 7);
    len = 3;
    assert_eq!(len, u32_pck(val, &mut pck));
    let r = u32_unp(&pck);
    assert_eq!(val, r.val);
    assert_eq!(len, r.len);

    pck = vec![0u8; 8];
    val = u32::pow(2, 3 * 7) - 1;
    len = 3;
    assert_eq!(len, u32_pck(val, &mut pck));
    let r = u32_unp(&pck);
    assert_eq!(val, r.val);
    assert_eq!(len, r.len);

    pck = vec![0u8; 8];
    val = u32::pow(2, 3 * 7);
    len = 4;
    assert_eq!(len, u32_pck(val, &mut pck));
    let r = u32_unp(&pck);
    assert_eq!(val, r.val);
    assert_eq!(len, r.len);

    pck = vec![0u8; 8];
    val = u32::pow(2, 4 * 7) - 1;
    len = 4;
    assert_eq!(len, u32_pck(val, &mut pck));
    let r = u32_unp(&pck);
    assert_eq!(val, r.val);
    assert_eq!(len, r.len);
}

#[test]
fn u32s_byt_len_() {
    assert_eq!(0, u32s_byt_len(vec![0; 0].as_slice()));
    assert_eq!(1, u32s_byt_len(vec![0].as_slice()));
    assert_eq!(2, u32s_byt_len(vec![0, 1].as_slice()));
    assert_eq!(11, u32s_byt_len(vec![0, 1, 128, 16384, 2097152].as_slice()));
}

#[test]
fn u32s_pck_unp_empty() {
    let unp_src: Vec<u32> = vec![];
    // Clone unp_src which will be overwritten
    let unp_exp = unp_src.clone();
    let mut pck_act = vec![0; u32s_byt_len(&unp_src)];
    u32s_pck(&unp_src, &mut pck_act);
    let mut unp_act = vec![0; unp_src.len()];
    u32s_unp(&pck_act, &mut unp_act);
    assert_eq!(unp_exp, unp_act);
}

#[test]
fn u32s_pck_unp_single_0() {
    let unp_src = vec![0];
    // Clone unp_src which will be overwritten
    let unp_exp = unp_src.clone();
    let mut pck_act = vec![0; u32s_byt_len(&unp_src)];
    u32s_pck(&unp_src, &mut pck_act);
    let mut unp_act = vec![0; unp_src.len()];
    u32s_unp(&pck_act, &mut unp_act);
    assert_eq!(unp_exp, unp_act);
}

#[test]
fn u32s_pck_unp_single_1() {
    let unp_src = vec![1];
    // Clone unp_src which will be overwritten
    let unp_exp = unp_src.clone();
    let mut pck_act = vec![0; u32s_byt_len(&unp_src)];
    u32s_pck(&unp_src, &mut pck_act);
    let mut unp_act = vec![0; unp_src.len()];
    u32s_unp(&pck_act, &mut unp_act);
    assert_eq!(unp_exp, unp_act);
}

#[test]
fn u32s_pck_unp_single_128() {
    let unp_src = vec![128];
    // Clone unp_src which will be overwritten
    let unp_exp = unp_src.clone();
    let mut pck_act = vec![0; u32s_byt_len(&unp_src)];
    u32s_pck(&unp_src, &mut pck_act);
    let mut unp_act = vec![0; unp_src.len()];
    u32s_unp(&pck_act, &mut unp_act);
    assert_eq!(unp_exp, unp_act);
}

#[test]
fn u32s_pck_unp_single_16384() {
    let unp_src = vec![16384];
    // Clone unp_src which will be overwritten
    let unp_exp = unp_src.clone();
    let mut pck_act = vec![0; u32s_byt_len(&unp_src)];
    u32s_pck(&unp_src, &mut pck_act);
    let mut unp_act = vec![0; unp_src.len()];
    u32s_unp(&pck_act, &mut unp_act);
    assert_eq!(unp_exp, unp_act);
}

#[test]
fn u32s_pck_unp_single_2097152() {
    let unp_src = vec![2097152];
    // Clone unp_src which will be overwritten
    let unp_exp = unp_src.clone();
    let mut pck_act = vec![0; u32s_byt_len(&unp_src)];
    u32s_pck(&unp_src, &mut pck_act);
    let mut unp_act = vec![0; unp_src.len()];
    u32s_unp(&pck_act, &mut unp_act);
    assert_eq!(unp_exp, unp_act);
}

#[test]
fn u32s_pck_unp_multiple() {
    let unp_src = vec![0, 1, 128, 16384, 2097152];
    // Clone unp_src which will be overwritten
    let unp_exp = unp_src.clone();
    let mut pck_act = vec![0; u32s_byt_len(&unp_src)];
    u32s_pck(&unp_src, &mut pck_act);
    let mut unp_act = vec![0; unp_src.len()];
    u32s_unp(&pck_act, &mut unp_act);
    assert_eq!(unp_exp, unp_act);
}

#[test]
fn u32_pck_boundary_bytes() {
    // the exact bytes at the 7-bit group boundaries
    let mut pck = vec![0u8; 8];
    assert_eq!(1, u32_pck((1 << 7) - 1, &mut pck));
    assert_eq!(&pck[..1], &[0x7f]);

    pck = vec![0u8; 8];
    assert_eq!(2, u32_pck(1 << 7, &mut pck));
    assert_eq!(&pck[..2], &[0x80, 0x01]);

    pck = vec![0u8; 8];
    assert_eq!(2, u32_pck((1 << 14) - 1, &mut pck));
    assert_eq!(&pck[..2], &[0xff, 0x7f]);

    pck = vec![0u8; 8];
    assert_eq!(3, u32_pck(1 << 14, &mut pck));
    assert_eq!(&pck[..3], &[0x80, 0x80, 0x01]);
}

#[test]
fn u32_round_trip_sweep() {
    // the codec inverts itself across group boundaries, and the encoded
    // length never shrinks as the value grows
    let mut prev_len = 0usize;
    let samples = [
        0u32, 1, 2, 100, 127, 128, 129, 16383, 16384, 16385, 2097151, 2097152, 268435455,
        268435456, u32::MAX,
    ];
    for &v in samples.iter() {
        let mut pck = vec![0u8; 8];
        let len = u32_pck(v, &mut pck);
        assert_eq!(len, u32_byt_len(v));
        let r = u32_unp(&pck);
        assert_eq!(r.val, v);
        assert_eq!(r.len, len);
        assert!(len >= prev_len);
        prev_len = len;
    }
}

#[test]
fn usize_round_trip_sweep() {
    let samples = [0usize, 1, 127, 128, 16384, usize::MAX / 2, usize::MAX];
    for &v in samples.iter() {
        let mut pck = vec![0u8; 12];
        let len = usize_pck(v, &mut pck);
        assert_eq!(len, usize_byt_len(v));
        let r = usize_unp(&pck);
        assert_eq!(r.val, v);
        assert_eq!(r.len, len);
    }
}
