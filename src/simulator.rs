use vstd::prelude::*;

use crate::capability::{DigitCapability, StepFn, step, in_ring, abs};
use crate::error::ParmError;

verus! {

/// A digit of the plaintext simulator: its value in the clear, and whether it
/// was made as a trivial (public) encoding.
#[derive(Clone, Copy, Debug, PartialEq, Eq, Structural)]
pub struct PlainDigit {
    pub value: i8,
    pub triv: bool,
}

/// Plaintext simulator of the digit capability: every digit holds its value in
/// the clear, and a bootstrap evaluates its step function exactly. With
/// `faulty` set, every bootstrap, encryption and decryption fails, which
/// exercises the error paths of the engines.
#[derive(Clone, Copy, Debug, PartialEq, Eq, Structural)]
pub struct PlainCapability {
    pub faulty: bool,
}

impl PlainCapability {
    pub fn new() -> (r: PlainCapability)
        ensures
            r.reliable(),
    {
        PlainCapability { faulty: false }
    }

    pub fn failing() -> (r: PlainCapability)
        ensures
            !r.reliable(),
    {
        PlainCapability { faulty: true }
    }
}

/// Evaluates a step function on a plaintext of the ring.
pub fn apply_step(f: StepFn, v: i8) -> (r: i8)
    requires
        in_ring(v as int),
        in_ring(step(f, v as int)),
    ensures
        r as int == step(f, v as int),
{
    match f {
        StepFn::Carry => if v >= 5 {
            1
        } else if v >= -5 {
            0
        } else {
            -1
        },
        StepFn::Interim => if v >= 8 {
            0
        } else if v >= 5 {
            -1
        } else if v >= 3 {
            1
        } else if v >= -2 {
            0
        } else if v >= -5 {
            -1
        } else if v >= -7 {
            1
        } else {
            0
        },
        StepFn::HalfAbs => {
            assert(abs(v as int) / 2 == if v < 0 { (-v) as int / 2 } else { v as int / 2 });
            if v < 0 {
                (-v) / 2
            } else {
                v / 2
            }
        },
        StepFn::Abs => if v < 0 {
            -v
        } else {
            v
        },
        StepFn::SignTimes(w) => if v > 0 {
            w
        } else if v < 0 {
            -w
        } else {
            0
        },
        StepFn::GatePositive => if v >= 2 {
            v - 3
        } else {
            0
        },
        StepFn::NegPart => if v < 0 {
            -1
        } else {
            0
        },
    }
}

impl DigitCapability for PlainCapability {
    type Digit = PlainDigit;

    type Secret = ();

    open spec fn val(d: PlainDigit) -> int {
        d.value as int
    }

    open spec fn trivial(d: PlainDigit) -> bool {
        d.triv
    }

    open spec fn reliable(&self) -> bool {
        !self.faulty
    }

    fn encode_trivial(&self, v: i8) -> (r: PlainDigit) {
        PlainDigit { value: v, triv: true }
    }

    fn duplicate(&self, d: &PlainDigit) -> (r: PlainDigit) {
        *d
    }

    fn add_digit(&self, a: &PlainDigit, b: &PlainDigit) -> (r: PlainDigit) {
        PlainDigit { value: a.value + b.value, triv: a.triv && b.triv }
    }

    fn sub_digit(&self, a: &PlainDigit, b: &PlainDigit) -> (r: PlainDigit) {
        PlainDigit { value: a.value - b.value, triv: a.triv && b.triv }
    }

    fn negate(&self, a: &PlainDigit) -> (r: PlainDigit) {
        PlainDigit { value: -a.value, triv: a.triv }
    }

    fn scale_by_constant(&self, a: &PlainDigit, k: i8) -> (r: PlainDigit) {
        assert(-16 <= k * a.value < 16);
        PlainDigit { value: k * a.value, triv: a.triv }
    }

    fn bootstrap(&self, a: &PlainDigit, f: StepFn) -> (r: Result<PlainDigit, ParmError>) {
        if self.faulty {
            Err(ParmError::Capability)
        } else {
            Ok(PlainDigit { value: apply_step(f, a.value), triv: false })
        }
    }

    fn is_trivial(&self, a: &PlainDigit) -> (r: bool) {
        a.triv
    }

    fn decrypt_trivial(&self, a: &PlainDigit) -> (r: i8) {
        a.value
    }

    fn encrypt(&self, sk: &(), v: i8) -> (r: Result<PlainDigit, ParmError>) {
        if self.faulty {
            Err(ParmError::Capability)
        } else {
            Ok(PlainDigit { value: v, triv: false })
        }
    }

    fn decrypt(&self, sk: &(), a: &PlainDigit) -> (r: Result<i8, ParmError>) {
        if self.faulty {
            Err(ParmError::Capability)
        } else {
            Ok(a.value)
        }
    }
}

} // verus!
