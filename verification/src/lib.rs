//! Delta + bit-packing compression for blocks of monotonically non-decreasing
//! `u32` values, with a variable-length integer codec for the small numbers
//! (widths, references, headers) that surround the packed payload.
//!
//! A block of `B` values (`B >= 16`, `B % 8 == 0`) is viewed as rows of 8
//! lanes. Packing subtracts adjacent rows lane-wise, then concatenates the
//! low `w` bits of every delta into each lane's bit stream; the streams are
//! stored as little-endian 32-bit words, 8 lanes side by side. The schedule
//! of shift/store micro-operations that drives packing, unpacking and the
//! size oracle comes from one generator, so the three always agree.

pub mod vrn;
pub mod sched;
pub mod blk;
pub mod dat;
