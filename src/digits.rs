use vstd::prelude::*;
use vstd::arithmetic::power2::{
    pow2, lemma2_to64, lemma_pow2_adds, lemma_pow2_pos, lemma_pow2_strictly_increases,
    lemma_pow2_unfold,
};

use crate::capability::{DigitCapability, sign};

verus! {

/// The integer that a sequence of signed digits stands for, least significant
/// digit first: `sum of s[i] * 2^i`.
pub open spec fn value(s: Seq<int>) -> int
    decreases s.len(),
{
    if s.len() == 0 {
        0
    } else {
        value(s.drop_last()) + s.last() * pow2((s.len() - 1) as nat)
    }
}

pub open spec fn is_digit(v: int) -> bool {
    -1 <= v <= 1
}

/// Every digit lies in the canonical alphabet `{-1, 0, 1}`.
pub open spec fn digits_ok(s: Seq<int>) -> bool {
    forall|i: int| 0 <= i < s.len() ==> is_digit(#[trigger] s[i])
}

/// The plaintexts of a sequence of digit ciphertexts.
pub open spec fn vals<K: DigitCapability>(x: Seq<K::Digit>) -> Seq<int> {
    x.map_values(|d: K::Digit| K::val(d))
}

/// A well-formed encrypted integer: every digit holds a value of `{-1, 0, 1}`.
pub open spec fn wf_digits<K: DigitCapability>(x: Seq<K::Digit>) -> bool {
    digits_ok(vals::<K>(x))
}

/// The integer that an encrypted integer stands for.
pub open spec fn cvalue<K: DigitCapability>(x: Seq<K::Digit>) -> int {
    value(vals::<K>(x))
}

/// Sign of the most significant nonzero digit (`0` when all are zero).
pub open spec fn top_sign(s: Seq<int>) -> int
    decreases s.len(),
{
    if s.len() == 0 {
        0
    } else if s.last() != 0 {
        sign(s.last())
    } else {
        top_sign(s.drop_last())
    }
}

pub proof fn lemma_pow2_le(a: nat, b: nat)
    requires
        a <= b,
    ensures
        pow2(a) <= pow2(b),
{
    if a < b {
        lemma_pow2_strictly_increases(a, b);
    }
}

pub proof fn lemma_vals_push<K: DigitCapability>(x: Seq<K::Digit>, d: K::Digit)
    ensures
        vals::<K>(x.push(d)) == vals::<K>(x).push(K::val(d)),
{
    assert(vals::<K>(x.push(d)) =~= vals::<K>(x).push(K::val(d)));
}

pub proof fn lemma_value_push(s: Seq<int>, d: int)
    ensures
        value(s.push(d)) == value(s) + d * pow2(s.len()),
{
    assert(s.push(d).drop_last() =~= s);
}

pub proof fn lemma_value_concat(a: Seq<int>, b: Seq<int>)
    ensures
        value(a + b) == value(a) + pow2(a.len()) * value(b),
    decreases b.len(),
{
    if b.len() == 0 {
        assert(a + b =~= a);
    } else {
        let b0 = b.drop_last();
        lemma_value_concat(a, b0);
        assert((a + b).drop_last() =~= a + b0);
        lemma_pow2_adds(a.len(), b0.len());
        let p = pow2(a.len()) as int;
        let q = pow2(b0.len()) as int;
        let l = b.last();
        let vb0 = value(b0);
        assert(p * (vb0 + l * q) == p * vb0 + l * (p * q)) by (nonlinear_arith);
    }
}

pub proof fn lemma_value_zeros(s: Seq<int>)
    requires
        forall|i: int| 0 <= i < s.len() ==> #[trigger] s[i] == 0,
    ensures
        value(s) == 0,
    decreases s.len(),
{
    if s.len() > 0 {
        lemma_value_zeros(s.drop_last());
    }
}

pub proof fn lemma_value_neg(s: Seq<int>, t: Seq<int>)
    requires
        s.len() == t.len(),
        forall|i: int| 0 <= i < s.len() ==> #[trigger] t[i] == -s[i],
    ensures
        value(t) == -value(s),
    decreases s.len(),
{
    if s.len() > 0 {
        lemma_value_neg(s.drop_last(), t.drop_last());
        let p = pow2((s.len() - 1) as nat) as int;
        assert(t.last() * p == -(s.last() * p)) by (nonlinear_arith)
            requires
                t.last() == -s.last(),
        ;
    }
}

/// A sequence of `n` digits of `{-1, 0, 1}` stands for an integer of magnitude
/// below `2^n`.
pub proof fn lemma_value_bound(s: Seq<int>)
    requires
        digits_ok(s),
    ensures
        -(pow2(s.len()) - 1) <= value(s) <= pow2(s.len()) - 1,
    decreases s.len(),
{
    if s.len() > 0 {
        let s0 = s.drop_last();
        assert(digits_ok(s0)) by {
            assert forall|i: int| 0 <= i < s0.len() implies is_digit(#[trigger] s0[i]) by {
                assert(s0[i] == s[i]);
            }
        }
        lemma_value_bound(s0);
        lemma_pow2_unfold(s.len());
        lemma_pow2_pos(s0.len());
        let p = pow2(s0.len()) as int;
        let d = s.last();
        assert(is_digit(s[s.len() - 1]));
        assert(-p <= d * p <= p) by (nonlinear_arith)
            requires
                -1 <= d <= 1,
                p > 0,
        ;
        assert(value(s) == value(s0) + d * p);
        assert(pow2(s.len()) == 2 * p);
    } else {
        lemma2_to64();
    }
}

/// For digits of `{-1, 0, 1}`, the sign of the integer is the sign of its most
/// significant nonzero digit.
pub proof fn lemma_value_sign(s: Seq<int>)
    requires
        digits_ok(s),
    ensures
        sign(value(s)) == top_sign(s),
    decreases s.len(),
{
    if s.len() > 0 {
        let s0 = s.drop_last();
        assert(digits_ok(s0)) by {
            assert forall|i: int| 0 <= i < s0.len() implies is_digit(#[trigger] s0[i]) by {
                assert(s0[i] == s[i]);
            }
        }
        lemma_value_sign(s0);
        lemma_value_bound(s0);
        lemma_pow2_pos(s0.len());
        let p = pow2(s0.len()) as int;
        let d = s.last();
        assert(is_digit(s[s.len() - 1]));
        if d == 1 {
            assert(d * p == p);
        } else if d == -1 {
            assert(d * p == -p);
        } else {
            assert(d == 0);
            assert(d * p == 0) by (nonlinear_arith)
                requires
                    d == 0,
            ;
        }
    }
}

} // verus!
