use vstd::prelude::*;

use crate::error::ParmError;

verus! {

/// Whether `v` is a plaintext that one digit ciphertext can hold unambiguously:
/// the plaintext ring has precision 5 bits and is read with sign wraparound,
/// so it holds `-16 ..= 15`.
pub open spec fn in_ring(v: int) -> bool {
    -16 <= v < 16
}

pub open spec fn sign(v: int) -> int {
    if v > 0 {
        1
    } else if v < 0 {
        -1
    } else {
        0
    }
}

pub open spec fn abs(v: int) -> int {
    if v < 0 {
        -v
    } else {
        v
    }
}

/// The catalogue of step functions that a bootstrap may evaluate.
#[derive(Clone, Copy, Debug, PartialEq, Eq, Structural)]
pub enum StepFn {
    /// Carry of one position of the adder; its argument is `5 * w_i + w_(i-1)`.
    Carry,
    /// Digit left at one position of the adder after its carry is taken out.
    Interim,
    /// `|v| / 2`, rounded down; half of a digit product.
    HalfAbs,
    /// `|v|`; the square of a digit of `{-1, 0, 1}`.
    Abs,
    /// `sgn(v) * w`.
    SignTimes(i8),
    /// For `v = 3 * s + d` with `s, d` in `{-1, 0, 1}`: `d` when `s == 1`, else `0`.
    GatePositive,
    /// `min(v, 0)` clipped to `-1`: `-1` for a negative argument, else `0`.
    NegPart,
}

/// Plaintext semantics of each step function.
pub open spec fn step(f: StepFn, v: int) -> int {
    match f {
        StepFn::Carry => if v >= 5 {
            1
        } else if v >= -5 {
            0
        } else {
            -1
        },
        StepFn::Interim => if v >= 8 {
            0
        } else if v >= 5 {
            -1
        } else if v >= 3 {
            1
        } else if v >= -2 {
            0
        } else if v >= -5 {
            -1
        } else if v >= -7 {
            1
        } else {
            0
        },
        StepFn::HalfAbs => abs(v) / 2,
        StepFn::Abs => abs(v),
        StepFn::SignTimes(w) => if v > 0 {
            w as int
        } else if v < 0 {
            -w
        } else {
            0
        },
        StepFn::GatePositive => if v >= 2 {
            v - 3
        } else {
            0
        },
        StepFn::NegPart => if v < 0 {
            -1
        } else {
            0
        },
    }
}

/// The operations on single digit ciphertexts that the arithmetic engines are
/// built on: exact linear operations, and the bootstrap, which evaluates a step
/// function and refreshes noise.
///
/// `val` is the plaintext that a digit ciphertext holds (read with the secret
/// key); a trivial ciphertext can be read without it.
pub trait DigitCapability: Sized {
    type Digit;

    /// Secret key material, needed to encrypt and decrypt.
    type Secret;

    spec fn val(d: Self::Digit) -> int;

    spec fn trivial(d: Self::Digit) -> bool;

    /// Whether the fallible operations (bootstrap, encryption, decryption)
    /// always succeed.
    spec fn reliable(&self) -> bool;

    fn encode_trivial(&self, v: i8) -> (r: Self::Digit)
        requires
            in_ring(v as int),
        ensures
            Self::val(r) == v as int,
            Self::trivial(r),
    ;

    fn duplicate(&self, d: &Self::Digit) -> (r: Self::Digit)
        ensures
            Self::val(r) == Self::val(*d),
            Self::trivial(r) == Self::trivial(*d),
    ;

    fn add_digit(&self, a: &Self::Digit, b: &Self::Digit) -> (r: Self::Digit)
        requires
            in_ring(Self::val(*a) + Self::val(*b)),
        ensures
            Self::val(r) == Self::val(*a) + Self::val(*b),
    ;

    fn sub_digit(&self, a: &Self::Digit, b: &Self::Digit) -> (r: Self::Digit)
        requires
            in_ring(Self::val(*a) - Self::val(*b)),
        ensures
            Self::val(r) == Self::val(*a) - Self::val(*b),
    ;

    fn negate(&self, a: &Self::Digit) -> (r: Self::Digit)
        requires
            in_ring(-Self::val(*a)),
        ensures
            Self::val(r) == -Self::val(*a),
    ;

    fn scale_by_constant(&self, a: &Self::Digit, k: i8) -> (r: Self::Digit)
        requires
            in_ring(k * Self::val(*a)),
        ensures
            Self::val(r) == k * Self::val(*a),
    ;

    fn bootstrap(&self, a: &Self::Digit, f: StepFn) -> (r: Result<Self::Digit, ParmError>)
        requires
            in_ring(Self::val(*a)),
            in_ring(step(f, Self::val(*a))),
        ensures
            self.reliable() ==> r is Ok,
            r matches Ok(d) ==> Self::val(d) == step(f, Self::val(*a)),
            r matches Err(e) ==> e == ParmError::Capability,
    ;

    fn is_trivial(&self, a: &Self::Digit) -> (r: bool)
        ensures
            r == Self::trivial(*a),
    ;

    fn decrypt_trivial(&self, a: &Self::Digit) -> (r: i8)
        requires
            Self::trivial(*a),
        ensures
            r as int == Self::val(*a),
    ;

    fn encrypt(&self, sk: &Self::Secret, v: i8) -> (r: Result<Self::Digit, ParmError>)
        requires
            in_ring(v as int),
        ensures
            self.reliable() ==> r is Ok,
            r matches Ok(d) ==> Self::val(d) == v as int,
            r matches Err(e) ==> e == ParmError::Capability,
    ;

    fn decrypt(&self, sk: &Self::Secret, a: &Self::Digit) -> (r: Result<i8, ParmError>)
        requires
            in_ring(Self::val(*a)),
        ensures
            self.reliable() ==> r is Ok,
            r matches Ok(v) ==> v as int == Self::val(*a),
            r matches Err(e) ==> e == ParmError::Capability,
    ;
}

} // verus!
