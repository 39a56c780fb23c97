use vstd::prelude::*;
use vstd::arithmetic::power2::{pow2, lemma2_to64, lemma_pow2_pos, lemma_pow2_unfold};
use vstd::arithmetic::div_mod::lemma_mod_bound;

use crate::addition::{add_sub_noise_refresh, add_const_impl, opposite_impl};
use crate::capability::{DigitCapability, abs, sign};
use crate::ciphertext::{max_len, sum_len};
use crate::encryption::bit_length;
use crate::digits::{wf_digits, cvalue, vals, lemma_pow2_le};
use crate::error::ParmError;
use crate::maximum::{max_int, max_impl};
use crate::multiplication::{MAX_LEN, mul_impl, mul_len};
use crate::rounding::{round_half_up, round_at_impl};
use crate::scalar_multiplication::scalar_mul_impl;
use crate::signum::sgn_impl;
use crate::squaring::{squ_impl, squ_len};

verus! {

/// Largest size of an operand: a bound that keeps the lengths of results
/// within machine integers.
pub open spec fn size_limit() -> nat {
    (usize::MAX / 4) as nat
}

/// One set of operations on integers, implemented on plaintext `i64` (the
/// reference) and on encrypted integers. `pc` is the digit capability, which
/// the plaintext implementation does not use.
pub trait ParmArithmetics<K: DigitCapability>: Sized {
    /// The integer that a value stands for.
    spec fn model(&self) -> int;

    /// A well-formed value, which the operations accept.
    spec fn operand(&self) -> bool;

    /// Number of digits of a value (`0` for a plaintext integer).
    spec fn size(&self) -> nat;

    /// The size of a value that has `n` digits in the encrypted form.
    spec fn sized(n: nat) -> nat;

    /// Whether the implementation computes without the capability, and so
    /// never fails for its sake.
    spec fn plain() -> bool;

    /// Whether the type holds a result of this value.
    spec fn fits(v: int) -> bool;

    /// Whether multiplication and squaring accept these operands.
    spec fn mul_supported(x: Self, y: Self) -> bool;

    /// The length that a refused multiplication reports.
    spec fn mul_width(x: Self, y: Self) -> usize;

    /// Bit width of a value, for rounding.
    spec fn bit_width(x: Self) -> nat;

    /// Zero: `0`, the empty sequence of digits.
    fn zero() -> (r: Self)
        ensures
            r.model() == 0,
            r.operand(),
            r.size() == 0,
    ;

    /// Opposite: `-X`
    fn opp(pc: &K, x: &Self) -> (r: Self)
        requires
            x.operand(),
            Self::fits(-x.model()),
        ensures
            r.operand(),
            r.model() == -x.model(),
            r.size() == x.size(),
    ;

    /// Addition: `X + Y`
    fn add(pc: &K, x: &Self, y: &Self) -> (r: Result<Self, ParmError>)
        requires
            x.operand(),
            y.operand(),
            x.size() <= size_limit(),
            y.size() <= size_limit(),
            Self::fits(x.model() + y.model()),
        ensures
            pc.reliable() || Self::plain() ==> r is Ok,
            r matches Ok(z) ==> {
                &&& z.operand()
                &&& z.model() == x.model() + y.model()
                &&& z.size() == Self::sized(sum_len(x.size(), y.size()))
            },
            r matches Err(e) ==> e == ParmError::Capability,
    ;

    /// Subtraction: `X - Y`
    fn sub(pc: &K, x: &Self, y: &Self) -> (r: Result<Self, ParmError>)
        requires
            x.operand(),
            y.operand(),
            x.size() <= size_limit(),
            y.size() <= size_limit(),
            Self::fits(x.model() - y.model()),
        ensures
            pc.reliable() || Self::plain() ==> r is Ok,
            r matches Ok(z) ==> {
                &&& z.operand()
                &&& z.model() == x.model() - y.model()
                &&& z.size() == Self::sized(sum_len(x.size(), y.size()))
            },
            r matches Err(e) ==> e == ParmError::Capability,
    ;

    /// Add constant: `X + k`
    fn add_const(pc: &K, x: &Self, k: i64) -> (r: Result<Self, ParmError>)
        requires
            x.operand(),
            x.size() <= size_limit(),
            Self::fits(x.model() + k),
        ensures
            pc.reliable() || Self::plain() ==> r is Ok,
            r matches Ok(z) ==> {
                &&& z.operand()
                &&& z.model() == x.model() + k
                &&& z.size() == Self::sized(sum_len(x.size(), bit_length(abs(k as int) as nat)))
            },
            r matches Err(e) ==> e == ParmError::Capability,
    ;

    /// Scalar multiplication (by an integer): `k·X`
    fn scalar_mul(pc: &K, k: i32, x: &Self) -> (r: Result<Self, ParmError>)
        requires
            x.operand(),
            x.size() <= size_limit(),
            Self::fits(k * x.model()),
        ensures
            pc.reliable() || Self::plain() ==> r is Ok,
            r matches Ok(z) ==> {
                &&& z.operand()
                &&& z.model() == k * x.model()
                &&& z.size() <= Self::sized(x.size() + 32)
            },
            r matches Err(e) ==> e == ParmError::Capability,
    ;

    /// Signum: `sgn(X)`
    fn sgn(pc: &K, x: &Self) -> (r: Result<Self, ParmError>)
        requires
            x.operand(),
        ensures
            pc.reliable() || Self::plain() ==> r is Ok,
            r matches Ok(z) ==> {
                &&& z.operand()
                &&& z.model() == sign(x.model())
                &&& z.size() == Self::sized(1)
            },
            r matches Err(e) ==> e == ParmError::Capability,
    ;

    /// Maximum: `max{X, Y}`
    fn max(pc: &K, x: &Self, y: &Self) -> (r: Result<Self, ParmError>)
        requires
            x.operand(),
            y.operand(),
            x.size() <= size_limit(),
            y.size() <= size_limit(),
        ensures
            pc.reliable() || Self::plain() ==> r is Ok,
            r matches Ok(z) ==> {
                &&& z.operand()
                &&& z.model() == max_int(x.model(), y.model())
                &&& z.size() <= Self::sized(max_len(x.size(), y.size()) + 2)
            },
            r matches Err(e) ==> e == ParmError::Capability,
    ;

    /// ReLU: `max{0, X}`
    fn relu(pc: &K, x: &Self) -> (r: Result<Self, ParmError>)
        requires
            x.operand(),
            x.size() <= size_limit(),
        ensures
            pc.reliable() || Self::plain() ==> r is Ok,
            r matches Ok(z) ==> {
                &&& z.operand()
                &&& z.model() == max_int(0, x.model())
                &&& z.size() <= Self::sized(x.size() + 2)
            },
            r matches Err(e) ==> e == ParmError::Capability,
    ;

    /// Multiplication: `X × Y`
    fn mul(pc: &K, x: &Self, y: &Self) -> (r: Result<Self, ParmError>)
        requires
            x.operand(),
            y.operand(),
            Self::fits(x.model() * y.model()),
        ensures
            (pc.reliable() || Self::plain()) && Self::mul_supported(*x, *y) ==> r is Ok,
            !Self::mul_supported(*x, *y) ==> r == Err::<Self, ParmError>(
                ParmError::LengthExceeded(Self::mul_width(*x, *y)),
            ),
            r matches Ok(z) ==> {
                &&& z.operand()
                &&& z.model() == x.model() * y.model()
                &&& z.size() == Self::sized(mul_len(max_len(x.size(), y.size())))
            },
            r matches Err(e) ==> {
                ||| e == ParmError::Capability && Self::mul_supported(*x, *y)
                ||| e == ParmError::LengthExceeded(Self::mul_width(*x, *y)) && !Self::mul_supported(
                    *x,
                    *y,
                )
            },
    ;

    /// Squaring: `X²`
    fn squ(pc: &K, x: &Self) -> (r: Result<Self, ParmError>)
        requires
            x.operand(),
            Self::fits(x.model() * x.model()),
        ensures
            (pc.reliable() || Self::plain()) && Self::mul_supported(*x, *x) ==> r is Ok,
            !Self::mul_supported(*x, *x) ==> r == Err::<Self, ParmError>(
                ParmError::LengthExceeded(Self::mul_width(*x, *x)),
            ),
            r matches Ok(z) ==> {
                &&& z.operand()
                &&& z.model() == x.model() * x.model()
                &&& z.size() == Self::sized(squ_len(x.size()))
            },
            r matches Err(e) ==> {
                ||| e == ParmError::Capability && Self::mul_supported(*x, *x)
                ||| e == ParmError::LengthExceeded(Self::mul_width(*x, *x)) && !Self::mul_supported(
                    *x,
                    *x,
                )
            },
    ;

    /// Rounding half up at bit `pos`; refused for `pos` at or beyond the bit
    /// width, the identity for `pos == 0`.
    fn round_at(pc: &K, x: &Self, pos: usize) -> (r: Result<Self, ParmError>)
        requires
            x.operand(),
            x.size() <= size_limit(),
            pos < Self::bit_width(*x) ==> Self::fits(round_half_up(x.model(), pos as nat)),
        ensures
            pos == 0 || (pos < Self::bit_width(*x) && (pc.reliable() || Self::plain())) ==> r is Ok,
            pos > 0 && pos >= Self::bit_width(*x) ==> r == Err::<Self, ParmError>(
                ParmError::RoundingPosition(pos),
            ),
            r matches Ok(z) ==> {
                &&& z.operand()
                &&& z.model() == round_half_up(x.model(), pos as nat)
                &&& z.size() == if pos == 0 {
                    x.size()
                } else {
                    Self::sized(x.size() + 2)
                }
            },
            r matches Err(e) ==> {
                ||| e == ParmError::Capability && 0 < pos < Self::bit_width(*x)
                ||| e == ParmError::RoundingPosition(pos) && 0 < pos && pos >= Self::bit_width(*x)
            },
    ;
}

pub open spec fn in_i64(v: int) -> bool {
    i64::MIN <= v <= i64::MAX
}

/// `2^pos` as a machine integer.
fn pow2_i64(pos: usize) -> (r: i64)
    requires
        pos <= 62,
    ensures
        r as int == pow2(pos as nat),
{
    let mut r: i64 = 1;
    let mut i: usize = 0;
    proof {
        lemma2_to64();
    }
    while i < pos
        invariant
            i <= pos <= 62,
            r as int == pow2(i as nat),
        decreases pos - i,
    {
        proof {
            lemma_pow2_unfold((i + 1) as nat);
            lemma_pow2_le((i + 1) as nat, 62);
            vstd::arithmetic::power2::lemma2_to64_rest();
        }
        r = r * 2;
        i += 1;
    }
    r
}

impl<K: DigitCapability> ParmArithmetics<K> for i64 {
    open spec fn model(&self) -> int {
        *self as int
    }

    open spec fn operand(&self) -> bool {
        true
    }

    open spec fn size(&self) -> nat {
        0
    }

    open spec fn sized(n: nat) -> nat {
        0
    }

    open spec fn plain() -> bool {
        true
    }

    open spec fn fits(v: int) -> bool {
        in_i64(v)
    }

    open spec fn mul_supported(x: i64, y: i64) -> bool {
        true
    }

    open spec fn mul_width(x: i64, y: i64) -> usize {
        0
    }

    open spec fn bit_width(x: i64) -> nat {
        63
    }

    fn zero() -> (r: i64) {
        0i64
    }

    fn opp(pc: &K, x: &i64) -> (r: i64) {
        -*x
    }

    fn add(pc: &K, x: &i64, y: &i64) -> (r: Result<i64, ParmError>) {
        Ok(*x + *y)
    }

    fn sub(pc: &K, x: &i64, y: &i64) -> (r: Result<i64, ParmError>) {
        Ok(*x - *y)
    }

    fn add_const(pc: &K, x: &i64, k: i64) -> (r: Result<i64, ParmError>) {
        Ok(*x + k)
    }

    fn scalar_mul(pc: &K, k: i32, x: &i64) -> (r: Result<i64, ParmError>) {
        Ok((k as i64) * *x)
    }

    fn sgn(pc: &K, x: &i64) -> (r: Result<i64, ParmError>) {
        if *x > 0 {
            Ok(1)
        } else if *x < 0 {
            Ok(-1)
        } else {
            Ok(0)
        }
    }

    fn max(pc: &K, x: &i64, y: &i64) -> (r: Result<i64, ParmError>) {
        if *x >= *y {
            Ok(*x)
        } else {
            Ok(*y)
        }
    }

    fn relu(pc: &K, x: &i64) -> (r: Result<i64, ParmError>) {
        if *x >= 0 {
            Ok(*x)
        } else {
            Ok(0)
        }
    }

    fn mul(pc: &K, x: &i64, y: &i64) -> (r: Result<i64, ParmError>) {
        Ok(*x * *y)
    }

    fn squ(pc: &K, x: &i64) -> (r: Result<i64, ParmError>) {
        Ok(*x * *x)
    }

    fn round_at(pc: &K, x: &i64, pos: usize) -> (r: Result<i64, ParmError>) {
        if pos == 0 {
            return Ok(*x);
        }
        if pos >= 63 {
            return Err(ParmError::RoundingPosition(pos));
        }
        let p = pow2_i64(pos);
        let half = pow2_i64(pos - 1);
        proof {
            lemma_pow2_unfold(pos as nat);
            lemma_pow2_pos(pos as nat);
            lemma_mod_bound(*x as int, p as int);
        }
        let low = x.checked_rem_euclid(p).unwrap();
        if low >= half {
            Ok(*x + (p - low))
        } else {
            Ok(*x - low)
        }
    }
}

impl<K: DigitCapability> ParmArithmetics<K> for Vec<K::Digit> {
    open spec fn model(&self) -> int {
        cvalue::<K>(self@)
    }

    open spec fn operand(&self) -> bool {
        wf_digits::<K>(self@)
    }

    open spec fn size(&self) -> nat {
        self.len() as nat
    }

    open spec fn sized(n: nat) -> nat {
        n
    }

    open spec fn plain() -> bool {
        false
    }

    open spec fn fits(v: int) -> bool {
        true
    }

    open spec fn mul_supported(x: Vec<K::Digit>, y: Vec<K::Digit>) -> bool {
        max_len(x.len() as nat, y.len() as nat) <= MAX_LEN
    }

    open spec fn mul_width(x: Vec<K::Digit>, y: Vec<K::Digit>) -> usize {
        max_len(x.len() as nat, y.len() as nat) as usize
    }

    open spec fn bit_width(x: Vec<K::Digit>) -> nat {
        x.len() as nat
    }

    fn zero() -> (r: Vec<K::Digit>) {
        let r: Vec<K::Digit> = Vec::new();
        assert(vals::<K>(r@) =~= Seq::<int>::empty());
        r
    }

    fn opp(pc: &K, x: &Vec<K::Digit>) -> (r: Vec<K::Digit>) {
        opposite_impl(pc, x)
    }

    fn add(pc: &K, x: &Vec<K::Digit>, y: &Vec<K::Digit>) -> (r: Result<Vec<K::Digit>, ParmError>) {
        add_sub_noise_refresh(true, pc, x, y)
    }

    fn sub(pc: &K, x: &Vec<K::Digit>, y: &Vec<K::Digit>) -> (r: Result<Vec<K::Digit>, ParmError>) {
        add_sub_noise_refresh(false, pc, x, y)
    }

    fn add_const(pc: &K, x: &Vec<K::Digit>, k: i64) -> (r: Result<Vec<K::Digit>, ParmError>) {
        add_const_impl(pc, x, k)
    }

    fn scalar_mul(pc: &K, k: i32, x: &Vec<K::Digit>) -> (r: Result<Vec<K::Digit>, ParmError>) {
        scalar_mul_impl(pc, k, x)
    }

    fn sgn(pc: &K, x: &Vec<K::Digit>) -> (r: Result<Vec<K::Digit>, ParmError>) {
        sgn_impl(pc, x)
    }

    fn max(pc: &K, x: &Vec<K::Digit>, y: &Vec<K::Digit>) -> (r: Result<Vec<K::Digit>, ParmError>) {
        max_impl(pc, x, y)
    }

    fn relu(pc: &K, x: &Vec<K::Digit>) -> (r: Result<Vec<K::Digit>, ParmError>) {
        let z: Vec<K::Digit> = Vec::new();
        assert(vals::<K>(z@) =~= Seq::<int>::empty());
        max_impl(pc, &z, x)
    }

    fn mul(pc: &K, x: &Vec<K::Digit>, y: &Vec<K::Digit>) -> (r: Result<Vec<K::Digit>, ParmError>) {
        mul_impl(pc, x, y)
    }

    fn squ(pc: &K, x: &Vec<K::Digit>) -> (r: Result<Vec<K::Digit>, ParmError>) {
        squ_impl(pc, x)
    }

    fn round_at(pc: &K, x: &Vec<K::Digit>, pos: usize) -> (r: Result<Vec<K::Digit>, ParmError>) {
        round_at_impl(pc, x, pos)
    }
}

} // verus!
