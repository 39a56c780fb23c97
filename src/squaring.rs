use vstd::prelude::*;
use vstd::arithmetic::power2::{pow2, lemma_pow2_adds, lemma_pow2_unfold};

use crate::addition::add_sub_noise_refresh;
use crate::capability::{DigitCapability, StepFn};
use crate::ciphertext::{triv_zeros, concat, take_range};
use crate::digits::{
    value, is_digit, vals, wf_digits, cvalue, lemma_vals_push, lemma_value_push,
    lemma_value_concat,
};
use crate::error::ParmError;
use crate::ciphertext::max_len;
use crate::multiplication::{
    MAX_LEN, lemma_mul_len_bound, mul_impl, mul_len, mul_lwe, mulary_digit, product_len_bound,
    reduce_rows,
};

verus! {

/// Length of a divide-and-conquer square of an operand of length `n`, where
/// `x1^2`, `x0^2` and `x0 * x1` have lengths `a`, `b`, `c`.
pub open spec fn dnq_len(n: nat, a: nat, b: nat, c: nat) -> nat {
    let len0 = (n + 1) / 2;
    let c_sh = len0 + 1 + c;
    if b == 2 * len0 {
        max_len(b + a, c_sh) + 1
    } else {
        max_len(2 * len0 + a, max_len(b, c_sh) + 1) + 1
    }
}

/// Length of the square that `squ_impl` returns for an operand of length `n`.
pub open spec fn squ_len(n: nat) -> nat
    decreases n,
{
    if n == 0 {
        1
    } else if n == 1 {
        2
    } else if n < 4 || n > 32 {
        (3 * n - 1) as nat
    } else {
        let len0 = (n + 1) / 2;
        dnq_len(n, squ_len((n - len0) as nat), squ_len(len0), mul_len(len0))
    }
}

/// Square lengths stay within `3n + 2`.
pub proof fn lemma_squ_len_bound(n: nat)
    requires
        n <= 32,
    ensures
        1 <= squ_len(n) <= product_len_bound(n),
    decreases n,
{
    if n >= 4 {
        let len0 = (n + 1) / 2;
        let len1 = (n - len0) as nat;
        assert(len0 + len1 == n && len1 <= len0 <= len1 + 1 && len1 >= 2);
        lemma_squ_len_bound(len1);
        lemma_squ_len_bound(len0);
        lemma_mul_len_bound(len0);
    }
}

/// Square of a digit ciphertext of `{-1, 0, 1}`: its absolute value, by bootstrap.
pub fn squ_lwe<K: DigitCapability>(cap: &K, x: &K::Digit) -> (r: Result<K::Digit, ParmError>)
    requires
        is_digit(K::val(*x)),
    ensures
        cap.reliable() ==> r is Ok,
        r matches Ok(z) ==> K::val(z) == K::val(*x) * K::val(*x),
        r matches Err(e) ==> e == ParmError::Capability,
{
    proof {
        let v = K::val(*x);
        if v == -1 {
        } else if v == 0 {
        } else {
        }
    }
    cap.bootstrap(x, StepFn::Abs)
}

/// The lower triangle of digit products: entry `[i][j]` (`j <= i`) holds
/// `x[i] * x[j]`; off-diagonal entries by digit product, the diagonal by
/// digit squaring.
fn fill_triangle<K: DigitCapability>(cap: &K, x: &Vec<K::Digit>) -> (r: Result<
    Vec<Vec<K::Digit>>,
    ParmError,
>)
    requires
        wf_digits::<K>(x@),
    ensures
        cap.reliable() ==> r is Ok,
        r matches Ok(t) ==> {
            &&& t.len() == x.len()
            &&& forall|i: int| 0 <= i < t.len() ==> (#[trigger] t[i]).len() == i + 1
            &&& forall|i: int, j: int|
                0 <= j <= i < t.len() ==> K::val(#[trigger] t[i]@[j]) == vals::<K>(x@)[i]
                    * vals::<K>(x@)[j]
        },
        r matches Err(e) ==> e == ParmError::Capability,
{
    let ghost xs = vals::<K>(x@);
    let mut t: Vec<Vec<K::Digit>> = Vec::new();
    let mut i: usize = 0;
    while i < x.len()
        invariant
            xs == vals::<K>(x@),
            wf_digits::<K>(x@),
            i <= x.len(),
            t.len() == i,
            forall|q: int| 0 <= q < t.len() ==> (#[trigger] t[q]).len() == q + 1,
            forall|q: int, j: int|
                0 <= j <= q < t.len() ==> K::val(#[trigger] t[q]@[j]) == xs[q] * xs[j],
        decreases x.len() - i,
    {
        assert(xs[i as int] == K::val(x@[i as int]));
        assert(is_digit(xs[i as int]));
        let mut row: Vec<K::Digit> = Vec::new();
        let mut j: usize = 0;
        while j < i
            invariant
                xs == vals::<K>(x@),
                wf_digits::<K>(x@),
                j <= i < x.len(),
                row.len() == j,
                xs[i as int] == K::val(x@[i as int]),
                is_digit(xs[i as int]),
                forall|q: int| 0 <= q < j ==> K::val(#[trigger] row@[q]) == xs[i as int] * xs[q],
            decreases i - j,
        {
            assert(xs[j as int] == K::val(x@[j as int]));
            assert(is_digit(xs[j as int]));
            let d = mul_lwe(cap, &x[i], &x[j])?;
            row.push(d);
            j += 1;
        }
        let d = squ_lwe(cap, &x[i])?;
        row.push(d);
        t.push(row);
        i += 1;
    }
    Ok(t)
}

/// Row `i` of the squaring array, mirrored from the triangle: `x[i] * x[j]`
/// at position `i + j`, trivial zeros elsewhere.
fn square_row<K: DigitCapability>(cap: &K, x: &Vec<K::Digit>, t: &Vec<Vec<K::Digit>>, i: usize) -> (r:
    Vec<K::Digit>)
    requires
        wf_digits::<K>(x@),
        i < x.len() <= MAX_LEN,
        t.len() == x.len(),
        forall|q: int| 0 <= q < t.len() ==> (#[trigger] t[q]).len() == q + 1,
        forall|q: int, j: int|
            0 <= j <= q < t.len() ==> K::val(#[trigger] t[q]@[j]) == vals::<K>(x@)[q] * vals::<K>(
                x@,
            )[j],
    ensures
        r.len() == 2 * x.len(),
        wf_digits::<K>(r@),
        cvalue::<K>(r@) == vals::<K>(x@)[i as int] * pow2(i as nat) * cvalue::<K>(x@),
        forall|k: int|
            0 <= k < r.len() ==> K::val(#[trigger] r@[k]) == mulary_digit(
                vals::<K>(x@),
                vals::<K>(x@)[i as int],
                i as int,
                k,
            ),
        forall|k: int| 0 <= k < r.len() && !(i <= k < i + x.len()) ==> K::trivial(#[trigger] r@[k]),
{
    let len = x.len();
    let ghost xs = vals::<K>(x@);
    let ghost yv = xs[i as int];
    assert(xs[i as int] == K::val(x@[i as int]));
    assert(is_digit(yv));
    let mut row: Vec<K::Digit> = Vec::new();
    let mut k: usize = 0;
    assert(vals::<K>(row@) =~= Seq::<int>::empty());
    assert(xs.take(0) =~= Seq::<int>::empty());
    while k < 2 * len
        invariant
            len == x.len() <= MAX_LEN,
            i < len,
            t.len() == len,
            forall|q: int| 0 <= q < t.len() ==> (#[trigger] t[q]).len() == q + 1,
            forall|q: int, j: int|
                0 <= j <= q < t.len() ==> K::val(#[trigger] t[q]@[j]) == xs[q] * xs[j],
            xs == vals::<K>(x@),
            wf_digits::<K>(x@),
            yv == xs[i as int],
            is_digit(yv),
            k <= 2 * len,
            row.len() == k,
            wf_digits::<K>(row@),
            forall|q: int|
                0 <= q < k ==> K::val(#[trigger] row@[q]) == mulary_digit(xs, yv, i as int, q),
            forall|q: int| 0 <= q < k && !(i <= q < i + len) ==> K::trivial(#[trigger] row@[q]),
            cvalue::<K>(row@) == yv * pow2(i as nat) * value(
                xs.take(
                    if k <= i {
                        0
                    } else if k - i <= len {
                        k - i
                    } else {
                        len as int
                    },
                ),
            ),
        decreases 2 * len - k,
    {
        let d = if i <= k && k < i + len {
            let j = k - i;
            assert(is_digit(xs[j as int]));
            if j <= i {
                cap.duplicate(&t[i][j])
            } else {
                assert(K::val(t[j as int]@[i as int]) == xs[j as int] * xs[i as int]);
                cap.duplicate(&t[j][i])
            }
        } else {
            cap.encode_trivial(0)
        };
        proof {
            lemma_vals_push::<K>(row@, d);
            lemma_value_push(vals::<K>(row@), K::val(d));
            if i <= k && k < i + len {
                let j = (k - i) as int;
                let xj = xs[j];
                assert(K::val(d) == xj * yv) by (nonlinear_arith)
                    requires
                        K::val(d) == xj * yv || K::val(d) == yv * xj,
                ;
                assert(is_digit(xj * yv)) by (nonlinear_arith)
                    requires
                        is_digit(xj),
                        is_digit(yv),
                ;
                assert(xs.take(j + 1) =~= xs.take(j).push(xj));
                lemma_value_push(xs.take(j), xj);
                lemma_pow2_adds(i as nat, j as nat);
                let pi = pow2(i as nat) as int;
                let pj = pow2(j as nat) as int;
                let v0 = value(xs.take(j));
                assert(yv * pi * (v0 + xj * pj) == yv * pi * v0 + xj * yv * (pi * pj))
                    by (nonlinear_arith);
            } else {
                assert(0 * pow2(k as nat) == 0);
            }
            assert forall|q: int| 0 <= q < k + 1 implies is_digit(
                #[trigger] vals::<K>(row@.push(d))[q],
            ) by {
                if q < k {
                    assert(vals::<K>(row@.push(d))[q] == vals::<K>(row@)[q]);
                }
            }
        }
        row.push(d);
        k += 1;
    }
    assert(xs.take(len as int) =~= xs);
    row
}

/// The squaring array: row `i` is `x * x[i]` shifted by `i` positions, built
/// from the triangle of products so that each product is computed once.
fn fill_squary<K: DigitCapability>(cap: &K, x: &Vec<K::Digit>) -> (r: Result<
    Vec<Vec<K::Digit>>,
    ParmError,
>)
    requires
        wf_digits::<K>(x@),
        x.len() <= MAX_LEN,
    ensures
        cap.reliable() ==> r is Ok,
        r matches Ok(m) ==> {
            &&& m.len() == x.len()
            &&& forall|j: int|
                0 <= j < m.len() ==> {
                    &&& (#[trigger] m[j]).len() == 2 * x.len()
                    &&& wf_digits::<K>(m[j]@)
                    &&& cvalue::<K>(m[j]@) == vals::<K>(x@)[j] * pow2(j as nat) * cvalue::<K>(
                        x@,
                    )
                    &&& forall|k: int|
                        0 <= k < 2 * x.len() ==> K::val(#[trigger] m[j]@[k]) == mulary_digit(
                            vals::<K>(x@),
                            vals::<K>(x@)[j],
                            j,
                            k,
                        )
                    &&& forall|k: int|
                        0 <= k < 2 * x.len() && !(j <= k < j + x.len()) ==> K::trivial(
                            #[trigger] m[j]@[k],
                        )
                }
        },
        r matches Err(e) ==> e == ParmError::Capability,
{
    let t = fill_triangle(cap, x)?;
    let mut m: Vec<Vec<K::Digit>> = Vec::new();
    let mut i: usize = 0;
    while i < x.len()
        invariant
            wf_digits::<K>(x@),
            x.len() <= MAX_LEN,
            t.len() == x.len(),
            forall|q: int| 0 <= q < t.len() ==> (#[trigger] t[q]).len() == q + 1,
            forall|q: int, j: int|
                0 <= j <= q < t.len() ==> K::val(#[trigger] t[q]@[j]) == vals::<K>(x@)[q]
                    * vals::<K>(x@)[j],
            i <= x.len(),
            m.len() == i,
            forall|q: int|
                0 <= q < m.len() ==> {
                    &&& (#[trigger] m[q]).len() == 2 * x.len()
                    &&& wf_digits::<K>(m[q]@)
                    &&& cvalue::<K>(m[q]@) == vals::<K>(x@)[q] * pow2(q as nat) * cvalue::<K>(
                        x@,
                    )
                    &&& forall|k: int|
                        0 <= k < 2 * x.len() ==> K::val(#[trigger] m[q]@[k]) == mulary_digit(
                            vals::<K>(x@),
                            vals::<K>(x@)[q],
                            q,
                            k,
                        )
                    &&& forall|k: int|
                        0 <= k < 2 * x.len() && !(q <= k < q + x.len()) ==> K::trivial(
                            #[trigger] m[q]@[k],
                        )
                },
        decreases x.len() - i,
    {
        let row = square_row(cap, x, &t, i);
        m.push(row);
        i += 1;
    }
    Ok(m)
}

/// Schoolbook squaring of an operand of two or three digits.
fn squ_schoolbook<K: DigitCapability>(cap: &K, x: &Vec<K::Digit>) -> (r: Result<
    Vec<K::Digit>,
    ParmError,
>)
    requires
        wf_digits::<K>(x@),
        2 <= x.len() <= MAX_LEN,
    ensures
        cap.reliable() ==> r is Ok,
        r matches Ok(z) ==> {
            &&& wf_digits::<K>(z@)
            &&& z.len() == 3 * x.len() - 1
            &&& cvalue::<K>(z@) == cvalue::<K>(x@) * cvalue::<K>(x@)
        },
        r matches Err(e) ==> e == ParmError::Capability,
{
    let squary = fill_squary(cap, x)?;
    reduce_rows(cap, &squary, x, x)
}

/// Square of a one-digit operand.
fn squ_1word<K: DigitCapability>(cap: &K, x: &Vec<K::Digit>) -> (r: Result<
    Vec<K::Digit>,
    ParmError,
>)
    requires
        wf_digits::<K>(x@),
        x.len() == 1,
    ensures
        cap.reliable() ==> r is Ok,
        r matches Ok(z) ==> {
            &&& wf_digits::<K>(z@)
            &&& z.len() == 2
            &&& cvalue::<K>(z@) == cvalue::<K>(x@) * cvalue::<K>(x@)
            &&& K::val(z@[0]) == K::val(x@[0]) * K::val(x@[0])
            &&& K::val(z@[1]) == 0
            &&& K::trivial(z@[1])
        },
        r matches Err(e) ==> e == ParmError::Capability,
{
    let mut squary = fill_squary(cap, x)?;
    let row = squary.pop().unwrap();
    proof {
        reveal_with_fuel(value, 2);
        assert(vals::<K>(x@).drop_last() =~= Seq::<int>::empty());
        assert(pow2(0) == 1) by {
            vstd::arithmetic::power2::lemma2_to64();
        }
        let x0 = vals::<K>(x@)[0];
        let cx = cvalue::<K>(x@);
        assert(x0 * 1 * cx == cx * (0 + x0 * 1)) by (nonlinear_arith);
        assert(mulary_digit(vals::<K>(x@), x0, 0, 0) == vals::<K>(x@)[0] * x0);
        assert(vals::<K>(x@)[0] == K::val(x@[0]));
    }
    Ok(row)
}

/// The divide-and-conquer identity of squaring: `p` is `2^len0`, and the cross
/// term enters shifted by `len0 + 1`, which doubles it.
proof fn lemma_square_split(p: int, x0: int, x1: int, va: int, vb: int, vc: int)
    requires
        va == x1 * x1,
        vb == x0 * x0,
        vc == x0 * x1,
    ensures
        vb + (p * p) * va + (0 + (2 * p) * vc) == (x0 + p * x1) * (x0 + p * x1),
        (0 + (p * p) * va) + (vb + (0 + (2 * p) * vc)) == (x0 + p * x1) * (x0 + p * x1),
{
    let px1 = p * x1;
    assert((x0 + px1) * (x0 + px1) == x0 * x0 + 2 * (x0 * px1) + px1 * px1) by (nonlinear_arith);
    assert(x0 * px1 == p * (x0 * x1)) by (nonlinear_arith)
        requires
            px1 == p * x1,
    ;
    assert(px1 * px1 == (p * p) * (x1 * x1)) by (nonlinear_arith)
        requires
            px1 == p * x1,
    ;
    assert((2 * p) * vc == 2 * (p * vc)) by (nonlinear_arith);
}

/// Divide-and-conquer squaring: with `x = x0 + 2^len0 * x1`,
/// `x^2 = x0^2 + 2^(len0 + 1) * x0 * x1 + 2^(2 len0) * x1^2`; one cross
/// product suffices.
#[verifier::rlimit(40)]
fn squ_dnq<K: DigitCapability>(cap: &K, x: &Vec<K::Digit>) -> (r: Result<
    Vec<K::Digit>,
    ParmError,
>)
    requires
        wf_digits::<K>(x@),
        4 <= x.len() <= MAX_LEN,
    ensures
        cap.reliable() ==> r is Ok,
        r matches Ok(z) ==> {
            &&& wf_digits::<K>(z@)
            &&& cvalue::<K>(z@) == cvalue::<K>(x@) * cvalue::<K>(x@)
            &&& z.len() == dnq_len(
                x.len() as nat,
                squ_len((x.len() - (x.len() + 1) / 2) as nat),
                squ_len(((x.len() + 1) / 2) as nat),
                mul_len(((x.len() + 1) / 2) as nat),
            )
        },
        r matches Err(e) ==> e == ParmError::Capability,
    decreases x.len() as int, 0int,
{
    let len = x.len();
    let len0 = (len + 1) / 2;
    assert(len0 + (len - len0) == len && len - len0 <= len0 <= len - len0 + 1 && len0 >= 2 && len
        - len0 >= 2);
    let x0 = take_range(cap, x, 0, len0);
    let x1 = take_range(cap, x, len0, len);
    proof {
        lemma_squ_len_bound((len - len0) as nat);
        lemma_squ_len_bound(len0 as nat);
        lemma_mul_len_bound(len0 as nat);
        assert(vals::<K>(x@) =~= vals::<K>(x0@) + vals::<K>(x1@));
        lemma_value_concat(vals::<K>(x0@), vals::<K>(x1@));
    }
    let a = squ_impl(cap, &x1)?;
    let b = squ_impl(cap, &x0)?;
    let c_plain = mul_impl(cap, &x0, &x1)?;
    let c = concat::<K>(triv_zeros(cap, len0 + 1), c_plain);
    proof {
        lemma_pow2_adds(len0 as nat, len0 as nat);
        lemma_pow2_unfold((len0 + 1) as nat);
        lemma_square_split(
            pow2(len0 as nat) as int,
            cvalue::<K>(x0@),
            cvalue::<K>(x1@),
            cvalue::<K>(a@),
            cvalue::<K>(b@),
            cvalue::<K>(c_plain@),
        );
    }
    if b.len() == 2 * len0 {
        let ba = concat::<K>(b, a);
        add_sub_noise_refresh(true, cap, &ba, &c)
    } else {
        let b_c = add_sub_noise_refresh(true, cap, &b, &c)?;
        let a_sh = concat::<K>(triv_zeros(cap, 2 * len0), a);
        add_sub_noise_refresh(true, cap, &a_sh, &b_c)
    }
}

/// Square of an encrypted integer of length `l`: the empty integer squares to
/// one trivial zero, `l == 1` by digit squaring, `l` of 2 or 3 by the symmetric
/// schoolbook method, `4 <= l <= 32` by divide and conquer. Longer operands are
/// refused.
pub fn squ_impl<K: DigitCapability>(cap: &K, x: &Vec<K::Digit>) -> (r: Result<
    Vec<K::Digit>,
    ParmError,
>)
    requires
        wf_digits::<K>(x@),
    ensures
        x.len() > MAX_LEN ==> r is Err,
        x.len() <= MAX_LEN && cap.reliable() ==> r is Ok,
        r matches Ok(z) ==> {
            &&& wf_digits::<K>(z@)
            &&& cvalue::<K>(z@) == cvalue::<K>(x@) * cvalue::<K>(x@)
            &&& z.len() == squ_len(x.len() as nat)
            &&& 1 <= z.len() <= product_len_bound(x.len() as nat)
            &&& x.len() == 0 ==> K::trivial(z@[0])
        },
        r matches Err(e) ==> {
            ||| e == ParmError::Capability && x.len() <= MAX_LEN
            ||| e == ParmError::LengthExceeded(x.len()) && x.len() > MAX_LEN
        },
    decreases x.len() as int, 1int,
{
    let n = x.len();
    if n > MAX_LEN {
        return Err(ParmError::LengthExceeded(n));
    }
    proof {
        lemma_squ_len_bound(n as nat);
    }
    if n == 0 {
        assert(vals::<K>(x@) =~= Seq::<int>::empty());
        Ok(triv_zeros(cap, 1))
    } else if n == 1 {
        squ_1word(cap, x)
    } else if n < 4 {
        squ_schoolbook(cap, x)
    } else {
        squ_dnq(cap, x)
    }
}

} // verus!
