//! Proximity predicates over private coordinates, with the host-side
//! bookkeeping of one proving round.
//!
//! Single-precision numbers are carried as their IEEE 754 bit patterns and
//! all arithmetic on them is done on integers, so every result is fixed bit
//! for bit.
pub mod binary32;
pub mod rounding;
pub mod arith;
pub mod root;
pub mod error;
pub mod wire;
pub mod coordinate;
pub mod journal;
pub mod company;
pub mod guest;
pub mod round;
