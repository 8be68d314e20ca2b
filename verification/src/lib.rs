//! Montgomery modular multiplication on single `u64` machine words.
//!
//! A [`reducer::MontgomeryReducer`] is constructed once per odd modulus `n`
//! and then computes `(a * b) % n` without dividing by `n` in the multiply
//! path: reduction happens against a power-of-two radix `r` by a bit-mask
//! and a right-shift.

pub mod arith;
pub mod reducer;
