use vstd::prelude::*;
use vstd::arithmetic::power2::{pow2, lemma_pow2_unfold};

use crate::capability::{DigitCapability, StepFn, abs, step};
use crate::ciphertext::{pad_to, sum_len};
use crate::encryption::{bit_length, encode_trivial_int};
use crate::digits::{
    value, is_digit, digits_ok, vals, wf_digits, cvalue, lemma_vals_push, lemma_value_push,
    lemma_value_neg,
};
use crate::error::ParmError;

verus! {

/// Copy of `x` with every digit negated: the opposite integer.
pub fn opposite_impl<K: DigitCapability>(cap: &K, x: &Vec<K::Digit>) -> (r: Vec<K::Digit>)
    requires
        wf_digits::<K>(x@),
    ensures
        r.len() == x.len(),
        wf_digits::<K>(r@),
        cvalue::<K>(r@) == -cvalue::<K>(x@),
{
    let mut r: Vec<K::Digit> = Vec::new();
    let mut i: usize = 0;
    while i < x.len()
        invariant
            i <= x.len(),
            r.len() == i,
            wf_digits::<K>(x@),
            forall|k: int| 0 <= k < i ==> K::val(#[trigger] r@[k]) == -K::val(x@[k]),
        decreases x.len() - i,
    {
        assert(vals::<K>(x@)[i as int] == K::val(x@[i as int]));
        r.push(cap.negate(&x[i]));
        i += 1;
    }
    proof {
        assert forall|k: int| 0 <= k < r.len() implies #[trigger] vals::<K>(r@)[k] == -vals::<K>(
            x@,
        )[k] by {}
        lemma_value_neg(vals::<K>(x@), vals::<K>(r@));
        assert forall|k: int| 0 <= k < r.len() implies is_digit(#[trigger] vals::<K>(r@)[k]) by {
            assert(is_digit(vals::<K>(x@)[k]));
        }
    }
    r
}

/// One position of the adder: `w` is the digit sum at this position, `wp` the
/// one below it; the carry `t` and the interim digit `u` that the bootstrap
/// extracts from `5 * w + wp` make up `w`, and the interim digit has the sign
/// that lets the incoming carry be absorbed.
proof fn lemma_adder_position(w: int, wp: int)
    requires
        -2 <= w <= 2,
        -2 <= wp <= 2,
    ensures
        ({
            let a = 5 * w + wp;
            let t = step(StepFn::Carry, a);
            let u = step(StepFn::Interim, a);
            &&& u + 2 * t == w
            &&& is_digit(t)
            &&& (w >= 0 ==> t >= 0)
            &&& (w < 0 ==> t <= 0)
            &&& (wp >= 0 ==> -1 <= u <= 0)
            &&& (wp < 0 ==> 0 <= u <= 1)
            &&& -12 <= a <= 12
        }),
{
}

/// Noise-refreshing addition (`is_add`) or subtraction of two encrypted
/// integers. The result is one digit longer than the longer operand (empty when
/// both are empty), its digits are refreshed by bootstrap and lie in
/// `{-1, 0, 1}`.
#[verifier::rlimit(40)]
pub fn add_sub_noise_refresh<K: DigitCapability>(
    is_add: bool,
    cap: &K,
    x: &Vec<K::Digit>,
    y: &Vec<K::Digit>,
) -> (r: Result<Vec<K::Digit>, ParmError>)
    requires
        wf_digits::<K>(x@),
        wf_digits::<K>(y@),
        x.len() < usize::MAX,
        y.len() < usize::MAX,
    ensures
        cap.reliable() ==> r is Ok,
        r matches Ok(z) ==> {
            &&& wf_digits::<K>(z@)
            &&& z.len() == sum_len(x.len() as nat, y.len() as nat)
            &&& cvalue::<K>(z@) == if is_add {
                cvalue::<K>(x@) + cvalue::<K>(y@)
            } else {
                cvalue::<K>(x@) - cvalue::<K>(y@)
            }
        },
        r matches Err(e) ==> e == ParmError::Capability,
{
    let n: usize = if x.len() >= y.len() {
        x.len()
    } else {
        y.len()
    };
    if n == 0 {
        let z: Vec<K::Digit> = Vec::new();
        assert(vals::<K>(z@) =~= Seq::<int>::empty());
        assert(vals::<K>(x@) =~= Seq::<int>::empty());
        assert(vals::<K>(y@) =~= Seq::<int>::empty());
        return Ok(z);
    }
    let xp = pad_to(cap, x, n);
    let yp = pad_to(cap, y, n);
    let ghost xs = vals::<K>(xp@);
    let ghost ys = vals::<K>(yp@);
    let mut z: Vec<K::Digit> = Vec::new();
    let mut prev_w = cap.encode_trivial(0);
    let mut prev_t = cap.encode_trivial(0);
    let mut i: usize = 0;
    assert(xs.take(0) =~= Seq::<int>::empty());
    assert(ys.take(0) =~= Seq::<int>::empty());
    assert(vals::<K>(z@) =~= Seq::<int>::empty());
    while i < n
        invariant
            i <= n,
            xp.len() == n,
            yp.len() == n,
            z.len() == i,
            xs == vals::<K>(xp@),
            ys == vals::<K>(yp@),
            digits_ok(xs),
            digits_ok(ys),
            wf_digits::<K>(z@),
            -2 <= K::val(prev_w) <= 2,
            is_digit(K::val(prev_t)),
            K::val(prev_w) >= 0 ==> K::val(prev_t) >= 0,
            K::val(prev_w) < 0 ==> K::val(prev_t) <= 0,
            cvalue::<K>(z@) + pow2(i as nat) * K::val(prev_t) == if is_add {
                value(xs.take(i as int)) + value(ys.take(i as int))
            } else {
                value(xs.take(i as int)) - value(ys.take(i as int))
            },
        decreases n - i,
    {
        assert(xs[i as int] == K::val(xp@[i as int]));
        assert(ys[i as int] == K::val(yp@[i as int]));
        assert(is_digit(xs[i as int]));
        assert(is_digit(ys[i as int]));
        let w = if is_add {
            cap.add_digit(&xp[i], &yp[i])
        } else {
            cap.sub_digit(&xp[i], &yp[i])
        };
        proof {
            lemma_adder_position(K::val(w), K::val(prev_w));
        }
        let w5 = cap.scale_by_constant(&w, 5);
        let a = cap.add_digit(&w5, &prev_w);
        let t = cap.bootstrap(&a, StepFn::Carry)?;
        let u = cap.bootstrap(&a, StepFn::Interim)?;
        let zi = cap.add_digit(&u, &prev_t);
        proof {
            let p = pow2(i as nat) as int;
            let vt = K::val(t);
            let vu = K::val(u);
            let vtp = K::val(prev_t);
            let vw = K::val(w);
            let xi = xs[i as int];
            let yi = ys[i as int];
            let c0 = cvalue::<K>(z@);
            lemma_vals_push::<K>(z@, zi);
            lemma_value_push(vals::<K>(z@), K::val(zi));
            assert(cvalue::<K>(z@.push(zi)) == c0 + (vu + vtp) * p);
            lemma_pow2_unfold((i + 1) as nat);
            assert(pow2((i + 1) as nat) == 2 * p);
            assert(xs.take(i + 1) =~= xs.take(i as int).push(xi));
            assert(ys.take(i + 1) =~= ys.take(i as int).push(yi));
            lemma_value_push(xs.take(i as int), xi);
            lemma_value_push(ys.take(i as int), yi);
            assert(value(xs.take(i + 1)) == value(xs.take(i as int)) + xi * p);
            assert(value(ys.take(i + 1)) == value(ys.take(i as int)) + yi * p);
            assert((vu + vtp) * p + (2 * p) * vt == p * vtp + vw * p) by (nonlinear_arith)
                requires
                    vu + 2 * vt == vw,
            ;
            if is_add {
                assert(xi * p + yi * p == vw * p) by (nonlinear_arith)
                    requires
                        vw == xi + yi,
                ;
            } else {
                assert(xi * p - yi * p == vw * p) by (nonlinear_arith)
                    requires
                        vw == xi - yi,
                ;
            }
            assert forall|k: int| 0 <= k < z.len() + 1 implies is_digit(
                #[trigger] vals::<K>(z@.push(zi))[k],
            ) by {
                if k < z.len() {
                    assert(vals::<K>(z@.push(zi))[k] == vals::<K>(z@)[k]);
                }
            }
        }
        z.push(zi);
        prev_w = w;
        prev_t = t;
        i += 1;
    }
    proof {
        assert(xs.take(n as int) =~= xs);
        assert(ys.take(n as int) =~= ys);
        lemma_vals_push::<K>(z@, prev_t);
        lemma_value_push(vals::<K>(z@), K::val(prev_t));
        let pn = pow2(n as nat) as int;
        let vt = K::val(prev_t);
        assert(vt * pn == pn * vt) by (nonlinear_arith);
        assert(cvalue::<K>(z@.push(prev_t)) == cvalue::<K>(z@) + pn * vt);
        assert(value(xs) == cvalue::<K>(x@));
        assert(value(ys) == cvalue::<K>(y@));
        assert forall|k: int| 0 <= k < z.len() + 1 implies is_digit(
            #[trigger] vals::<K>(z@.push(prev_t))[k],
        ) by {
            if k < z.len() {
                assert(vals::<K>(z@.push(prev_t))[k] == vals::<K>(z@)[k]);
            }
        }
    }
    z.push(prev_t);
    Ok(z)
}

/// Sum of an encrypted integer and a plaintext constant, which enters as a
/// trivial encoding in as many digits as `|k|` has bits.
pub fn add_const_impl<K: DigitCapability>(cap: &K, x: &Vec<K::Digit>, k: i64) -> (r: Result<
    Vec<K::Digit>,
    ParmError,
>)
    requires
        wf_digits::<K>(x@),
        x.len() < usize::MAX,
    ensures
        cap.reliable() ==> r is Ok,
        r matches Ok(z) ==> {
            &&& wf_digits::<K>(z@)
            &&& cvalue::<K>(z@) == cvalue::<K>(x@) + k
            &&& z.len() == sum_len(x.len() as nat, bit_length(abs(k as int) as nat))
        },
        r matches Err(e) ==> e == ParmError::Capability,
{
    let c = encode_trivial_int(cap, k);
    add_sub_noise_refresh(true, cap, x, &c)
}

} // verus!
