//! Arbitrary-precision integer arithmetic on 64-bit limbs.
//!
//! A magnitude is an ordered sequence of 64-bit words, least significant
//! first; the word at index `i` contributes `word[i] * 2^(64*i)` to the
//! value.  `BigUint` wraps such a sequence and offers addition,
//! subtraction (with a signed result), schoolbook multiplication,
//! comparison, restoring long division, bit shifts, and conversion to and
//! from positional notation in an arbitrary base.

pub mod add_sub;
pub mod base;
pub mod bigint;
pub mod biguint;
pub mod div;
pub mod laws;
pub mod limbs;
pub mod mul;
pub mod shift;
