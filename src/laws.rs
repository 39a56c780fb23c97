use vstd::prelude::*;

use crate::arithmetics::ParmArithmetics;
use crate::capability::{DigitCapability, sign};
use crate::ciphertext::{max_len, sum_len};
use crate::rounding::round_half_up;

verus! {

/// Zero is neutral for addition, and a value plus its opposite is zero: `s1`
/// is any result of `add(x, zero)`, `s2` any result of `add(x, opp(x))`.
pub proof fn lemma_add_zero_opp<K: DigitCapability, T: ParmArithmetics<K>>(
    x: T,
    zero: T,
    neg: T,
    s1: T,
    s2: T,
)
    requires
        zero.model() == 0,
        neg.model() == -x.model(),
        s1.model() == x.model() + zero.model(),
        s2.model() == x.model() + neg.model(),
    ensures
        s1.model() == x.model(),
        s2.model() == zero.model(),
{
}

/// Addition and multiplication do not depend on the order of the operands:
/// results of `add(x, y)` and `add(y, x)` stand for the same integer, and so do
/// results of `mul(x, y)` and `mul(y, x)`.
pub proof fn lemma_commutative<K: DigitCapability, T: ParmArithmetics<K>>(
    x: T,
    y: T,
    sum_xy: T,
    sum_yx: T,
    prod_xy: T,
    prod_yx: T,
)
    requires
        sum_xy.model() == x.model() + y.model(),
        sum_yx.model() == y.model() + x.model(),
        prod_xy.model() == x.model() * y.model(),
        prod_yx.model() == y.model() * x.model(),
    ensures
        sum_xy.model() == sum_yx.model(),
        prod_xy.model() == prod_yx.model(),
{
    assert(x.model() * y.model() == y.model() * x.model()) by (nonlinear_arith);
}

/// Squaring agrees with multiplying a value by itself: a result of `squ(x)`
/// and a result of `mul(x, x)` stand for the same integer.
pub proof fn lemma_square_is_product<K: DigitCapability, T: ParmArithmetics<K>>(
    x: T,
    sq: T,
    prod: T,
)
    requires
        sq.model() == x.model() * x.model(),
        prod.model() == x.model() * x.model(),
    ensures
        sq.model() == prod.model(),
{
}

/// The encrypted and the plaintext implementation agree: operands that stand
/// for the same integers give results that stand for the same integer, for
/// each operation whose result is a function of the operands.
pub proof fn lemma_oracle_agreement<K: DigitCapability, T: ParmArithmetics<K>, U: ParmArithmetics<K>>(
    x: T,
    y: T,
    px: U,
    py: U,
    r: T,
    pr: U,
    f: spec_fn(int, int) -> int,
)
    requires
        x.model() == px.model(),
        y.model() == py.model(),
        r.model() == f(x.model(), y.model()),
        pr.model() == f(px.model(), py.model()),
    ensures
        r.model() == pr.model(),
{
}

/// Signum lies in `{-1, 0, 1}`, is `0` at zero, and is `1` exactly for
/// positive values: `s` is any result of `sgn(x)`.
pub proof fn lemma_signum<K: DigitCapability, T: ParmArithmetics<K>>(x: T, s: T)
    requires
        s.model() == sign(x.model()),
    ensures
        -1 <= s.model() <= 1,
        x.model() == 0 ==> s.model() == 0,
        s.model() == 1 <==> x.model() > 0,
{
}

/// Rounding at position `0` leaves a value as it is.
pub proof fn lemma_round_at_zero(x: int)
    ensures
        round_half_up(x, 0) == x,
{
}

/// A sum or difference of encrypted integers is at most one digit longer than
/// the longer operand: `z` is any result of `add(x, y)` or `sub(x, y)`.
pub proof fn lemma_sum_length<K: DigitCapability>(
    x: Vec<K::Digit>,
    y: Vec<K::Digit>,
    z: Vec<K::Digit>,
)
    requires
        <Vec<K::Digit> as ParmArithmetics<K>>::size(&z) == <Vec<K::Digit> as ParmArithmetics<
            K,
        >>::sized(
            sum_len(
                <Vec<K::Digit> as ParmArithmetics<K>>::size(&x),
                <Vec<K::Digit> as ParmArithmetics<K>>::size(&y),
            ),
        ),
    ensures
        z.len() <= max_len(x.len() as nat, y.len() as nat) + 1,
{
}

} // verus!
