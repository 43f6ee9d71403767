//! Tests for the schedule generator.

use blkpck::sched::{blk_itr, Dir, Itr};

#[test]
fn schedule_straddle_sequence() {
    // width 30 over 16 elements: the second element straddles two output
    // vectors, so the schedule is first, forward-partial, then back
    let mut itr = blk_itr(30, 16);
    match itr.next() {
        Some(Itr::Fst) => {}
        _ => panic!("expected the first step"),
    }
    match itr.next() {
        Some(Itr::Mdl { itm }) => {
            assert!(matches!(itm.shf_dir, Dir::FwdPrt));
            assert_eq!(itm.shf_len, 30);
            assert_eq!(itm.lne_bit_len, 2);
            assert_eq!(itm.lne_bit_sum, 32);
        }
        _ => panic!("expected a middle step"),
    }
    match itr.next() {
        Some(Itr::Lst { itm }) => {
            assert!(matches!(itm.shf_dir, Dir::Bck));
            assert_eq!(itm.shf_len, 2);
            assert_eq!(itm.lne_bit_len, 28);
            assert_eq!(itm.lne_bit_sum, 28);
        }
        _ => panic!("expected the last step"),
    }
    assert!(itr.next().is_none());
    // the iterator stays exhausted
    assert!(itr.next().is_none());
}

#[test]
fn schedule_whole_elements() {
    // width 4 over 16 elements: both elements fit whole in the first output
    // lane, and the single vector is written by the last step
    let mut itr = blk_itr(4, 16);
    match itr.next() {
        Some(Itr::Fst) => {}
        _ => panic!("expected the first step"),
    }
    match itr.next() {
        Some(Itr::Lst { itm }) => {
            assert!(matches!(itm.shf_dir, Dir::Fwd));
            assert_eq!(itm.shf_len, 4);
            assert_eq!(itm.lne_bit_sum, 8);
        }
        _ => panic!("expected the last step"),
    }
    assert!(itr.next().is_none());
}

#[test]
fn schedule_bit_totals() {
    // across every width the emitted lane bits sum to the block's bits
    for w in 1..=32usize {
        let mut itr = blk_itr(w, 256);
        let mut total: usize = 0;
        let mut steps: usize = 0;
        loop {
            match itr.next() {
                None => break,
                Some(Itr::Fst) => {
                    total += w * 8;
                }
                Some(Itr::Mdl { itm }) | Some(Itr::Lst { itm }) => {
                    total += itm.lne_bit_len * 8;
                }
            }
            steps += 1;
            assert!(steps <= 64);
        }
        assert_eq!(total, w * 256);
    }
}
