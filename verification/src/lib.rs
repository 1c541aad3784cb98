//! Detection of floating-point gaps and overlaps along the shared boundary
//! edges ("seams") of near-vertical collision triangles ("walls").
//!
//! The collision formula under study is evaluated in single precision, and
//! the point of this library is to reproduce it bit for bit.  Verified code
//! cannot hold a floating-point value, so throughout `src/` an IEEE-754
//! single-precision value is represented by its 32-bit pattern (`u32`), and
//! all arithmetic on such values is carried out in integer code whose
//! rounding behaviour is stated exactly in the contracts.

pub mod edge;
pub mod export;
pub mod float_arith;
pub mod float_bits;
pub mod float_range;
pub mod model;
pub mod seam;
pub mod seam_processor;
pub mod spatial_partition;
