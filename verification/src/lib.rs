//! A two-tier ordered queue for timestamped items, together with the
//! fixed-point scaling primitive used to map hashed values into a bounded
//! range without a division instruction.

pub mod scaling;
pub mod t_fifo;
