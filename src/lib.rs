//! Arithmetic on encrypted signed integers, digit by digit.
//!
//! An encrypted integer is a sequence of digit ciphertexts, least significant
//! first, each holding a digit of `{-1, 0, 1}`; it stands for the sum of
//! `digit_i * 2^i`. The engines (a noise-refreshing adder, schoolbook and
//! Karatsuba multiplication, squaring, a signum reduction, maximum, rounding)
//! are written over `capability::DigitCapability`, the operations on single
//! digit ciphertexts, and each states the integer its result stands for.
//! `simulator` implements that capability on plaintext digits.

pub mod capability;
pub mod digits;
pub mod error;
pub mod ciphertext;
pub mod addition;
pub mod simulator;
pub mod multiplication;
pub mod squaring;
pub mod signum;
pub mod encryption;
pub mod scalar_multiplication;
pub mod maximum;
pub mod rounding;
pub mod arithmetics;
pub mod laws;
