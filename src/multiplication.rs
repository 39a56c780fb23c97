use vstd::prelude::*;
use vstd::arithmetic::power2::{pow2, lemma_pow2_adds, lemma_pow2_unfold};

use crate::addition::{add_sub_noise_refresh, opposite_impl};
use crate::capability::{DigitCapability, StepFn, step};
use crate::ciphertext::{triv_zeros, pad_to, concat, take_range, max_len};
use crate::digits::{
    value, is_digit, vals, wf_digits, cvalue, lemma_vals_push, lemma_value_push,
    lemma_value_concat,
};
use crate::error::ParmError;

verus! {

/// Longest operand that the multiplication and squaring engines accept.
pub const MAX_LEN: usize = 32;

/// A bound on the length of a product of operands of common length `n`.
pub open spec fn product_len_bound(n: nat) -> nat {
    3 * n + 2
}

/// Length of a Karatsuba product of operands of length `n`, where the three
/// half products `A`, `B`, `C` have lengths `a`, `b`, `c`.
pub open spec fn karatsuba_len(n: nat, a: nat, b: nat, c: nat) -> nat {
    let len0 = (n + 1) / 2;
    let c_nanb = max_len(len0 + c, len0 + max_len(a, b) + 1) + 1;
    if b == 2 * len0 {
        max_len(b + a, c_nanb) + 1
    } else {
        max_len(2 * len0 + a, max_len(b, c_nanb) + 1) + 1
    }
}

/// Length of the product that `mul_impl` returns for operands of common
/// length `n`: one trivial zero for the empty product, two digits for a digit
/// product, `3n - 1` by the schoolbook method, and the Karatsuba length above.
pub open spec fn mul_len(n: nat) -> nat
    decreases n,
{
    if n == 0 {
        1
    } else if n == 1 {
        2
    } else if n < 14 || n == 15 || n > 32 {
        (3 * n - 1) as nat
    } else {
        let len0 = (n + 1) / 2;
        karatsuba_len(n, mul_len((n - len0) as nat), mul_len(len0), mul_len(len0 + 1))
    }
}

/// Product lengths stay within `3n + 2`.
pub proof fn lemma_mul_len_bound(n: nat)
    requires
        n <= 32,
    ensures
        1 <= mul_len(n) <= product_len_bound(n),
    decreases n,
{
    if n >= 14 && n != 15 {
        let len0 = (n + 1) / 2;
        let len1 = (n - len0) as nat;
        assert(len0 + len1 == n && len1 <= len0 <= len1 + 1 && len1 >= 7);
        lemma_mul_len_bound(len1);
        lemma_mul_len_bound(len0);
        lemma_mul_len_bound(len0 + 1);
    }
}

/// The measure of the recursion between `mul_impl` and `mul_karatsuba`:
/// only lengths that `mul_impl` hands to Karatsuba count.
pub open spec fn karatsuba_measure(n: nat) -> int {
    if n >= 14 {
        n as int
    } else {
        0
    }
}

/// Digit `k` of row `j` of the multiplication array of `x` and `y`: the
/// product `x[k - j] * y[j]` where `j <= k < j + len(x)`, zero elsewhere.
pub open spec fn mulary_digit(xs: Seq<int>, yj: int, j: int, k: int) -> int {
    if j <= k < j + xs.len() {
        xs[k - j] * yj
    } else {
        0
    }
}

proof fn lemma_digit_product(x: int, y: int)
    requires
        is_digit(x),
        is_digit(y),
    ensures
        step(StepFn::HalfAbs, x + y) - step(StepFn::HalfAbs, x - y) == x * y,
        -2 <= x + y <= 2,
        -2 <= x - y <= 2,
        is_digit(x * y),
{
    if x == -1 {
        if y == -1 {
        } else if y == 0 {
        } else {
        }
    } else if x == 0 {
        if y == -1 {
        } else if y == 0 {
        } else {
        }
    } else {
        if y == -1 {
        } else if y == 0 {
        } else {
        }
    }
}

/// Product of two digit ciphertexts of `{-1, 0, 1}`. A trivial operand is read
/// directly and scales the other one; otherwise the product is
/// `f(x + y) - f(x - y)` with `f(v) = |v| / 2`, each half by bootstrap.
pub fn mul_lwe<K: DigitCapability>(cap: &K, x: &K::Digit, y: &K::Digit) -> (r: Result<
    K::Digit,
    ParmError,
>)
    requires
        is_digit(K::val(*x)),
        is_digit(K::val(*y)),
    ensures
        cap.reliable() || K::trivial(*x) || K::trivial(*y) ==> r is Ok,
        r matches Ok(z) ==> K::val(z) == K::val(*x) * K::val(*y),
        r matches Err(e) ==> e == ParmError::Capability,
{
    proof {
        lemma_digit_product(K::val(*x), K::val(*y));
    }
    if cap.is_trivial(x) {
        let mx = cap.decrypt_trivial(x);
        return Ok(cap.scale_by_constant(y, mx));
    } else if cap.is_trivial(y) {
        let my = cap.decrypt_trivial(y);
        let ghost vx = K::val(*x);
        let ghost vy = K::val(*y);
        assert(my * vx == vx * vy) by (nonlinear_arith)
            requires
                my == vy,
        ;
        return Ok(cap.scale_by_constant(x, my));
    }
    let pxpy = cap.add_digit(x, y);
    let pxny = cap.sub_digit(x, y);
    let pos = cap.bootstrap(&pxpy, StepFn::HalfAbs)?;
    let neg = cap.bootstrap(&pxny, StepFn::HalfAbs)?;
    Ok(cap.sub_digit(&pos, &neg))
}

/// One row of the multiplication array: `2 * len` digits, `x[i] * y[j]` at
/// position `i + j`, trivial zeros elsewhere.
fn mul_row<K: DigitCapability>(cap: &K, x: &Vec<K::Digit>, yj: &K::Digit, j: usize) -> (r: Result<
    Vec<K::Digit>,
    ParmError,
>)
    requires
        wf_digits::<K>(x@),
        is_digit(K::val(*yj)),
        j < x.len() <= MAX_LEN,
    ensures
        cap.reliable() ==> r is Ok,
        r matches Ok(row) ==> {
            &&& row.len() == 2 * x.len()
            &&& wf_digits::<K>(row@)
            &&& cvalue::<K>(row@) == K::val(*yj) * pow2(j as nat) * cvalue::<K>(x@)
            &&& forall|k: int|
                0 <= k < row.len() ==> K::val(#[trigger] row@[k]) == mulary_digit(
                    vals::<K>(x@),
                    K::val(*yj),
                    j as int,
                    k,
                )
            &&& forall|k: int|
                0 <= k < row.len() && !(j <= k < j + x.len()) ==> K::trivial(#[trigger] row@[k])
        },
        r matches Err(e) ==> e == ParmError::Capability,
{
    let len = x.len();
    let ghost xs = vals::<K>(x@);
    let ghost yv = K::val(*yj);
    let mut row: Vec<K::Digit> = Vec::new();
    let mut k: usize = 0;
    assert(vals::<K>(row@) =~= Seq::<int>::empty());
    assert(xs.take(0) =~= Seq::<int>::empty());
    while k < 2 * len
        invariant
            len == x.len() <= MAX_LEN,
            j < len,
            xs == vals::<K>(x@),
            wf_digits::<K>(x@),
            yv == K::val(*yj),
            is_digit(yv),
            k <= 2 * len,
            row.len() == k,
            wf_digits::<K>(row@),
            forall|q: int|
                0 <= q < k ==> K::val(#[trigger] row@[q]) == mulary_digit(xs, yv, j as int, q),
            forall|q: int|
                0 <= q < k && !(j <= q < j + len) ==> K::trivial(#[trigger] row@[q]),
            cvalue::<K>(row@) == yv * pow2(j as nat) * value(
                xs.take(
                    if k <= j {
                        0
                    } else if k - j <= len {
                        k - j
                    } else {
                        len as int
                    },
                ),
            ),
        decreases 2 * len - k,
    {
        let d = if j <= k && k < j + len {
            assert(xs[k - j] == K::val(x@[k - j]));
            mul_lwe(cap, &x[k - j], yj)?
        } else {
            cap.encode_trivial(0)
        };
        proof {
            lemma_vals_push::<K>(row@, d);
            lemma_value_push(vals::<K>(row@), K::val(d));
            assert forall|q: int| 0 <= q < k + 1 implies is_digit(
                #[trigger] vals::<K>(row@.push(d))[q],
            ) by {
                if q < k {
                    assert(vals::<K>(row@.push(d))[q] == vals::<K>(row@)[q]);
                } else {
                    if j <= k && k < j + len {
                        lemma_digit_product(xs[k - j], yv);
                    }
                }
            }
            if j <= k && k < j + len {
                let i = (k - j) as int;
                assert(xs.take(i + 1) =~= xs.take(i).push(xs[i]));
                lemma_value_push(xs.take(i), xs[i]);
                lemma_pow2_adds(j as nat, i as nat);
                let pj = pow2(j as nat) as int;
                let pi = pow2(i as nat) as int;
                let xi = xs[i];
                let v0 = value(xs.take(i));
                assert(yv * pj * (v0 + xi * pi) == yv * pj * v0 + xi * yv * (pj * pi))
                    by (nonlinear_arith);
            } else {
                assert(0 * pow2(k as nat) == 0);
            }
        }
        row.push(d);
        k += 1;
    }
    assert(xs.take(len as int) =~= xs);
    Ok(row)
}

/// The multiplication array: row `j` is `x * y[j]` shifted by `j` positions.
fn fill_mulary<K: DigitCapability>(cap: &K, x: &Vec<K::Digit>, y: &Vec<K::Digit>) -> (r: Result<
    Vec<Vec<K::Digit>>,
    ParmError,
>)
    requires
        wf_digits::<K>(x@),
        wf_digits::<K>(y@),
        x.len() == y.len() <= MAX_LEN,
    ensures
        cap.reliable() ==> r is Ok,
        r matches Ok(m) ==> {
            &&& m.len() == x.len()
            &&& forall|j: int|
                0 <= j < m.len() ==> {
                    &&& (#[trigger] m[j]).len() == 2 * x.len()
                    &&& wf_digits::<K>(m[j]@)
                    &&& cvalue::<K>(m[j]@) == vals::<K>(y@)[j] * pow2(j as nat) * cvalue::<K>(
                        x@,
                    )
                    &&& forall|k: int|
                        0 <= k < 2 * x.len() ==> K::val(#[trigger] m[j]@[k]) == mulary_digit(
                            vals::<K>(x@),
                            vals::<K>(y@)[j],
                            j,
                            k,
                        )
                    &&& forall|k: int|
                        0 <= k < 2 * x.len() && !(j <= k < j + x.len()) ==> K::trivial(
                            #[trigger] m[j]@[k],
                        )
                }
        },
        r matches Err(e) ==> e == ParmError::Capability,
{
    let mut m: Vec<Vec<K::Digit>> = Vec::new();
    let mut j: usize = 0;
    while j < y.len()
        invariant
            x.len() == y.len() <= MAX_LEN,
            wf_digits::<K>(x@),
            wf_digits::<K>(y@),
            j <= y.len(),
            m.len() == j,
            forall|q: int|
                0 <= q < m.len() ==> {
                    &&& (#[trigger] m[q]).len() == 2 * x.len()
                    &&& wf_digits::<K>(m[q]@)
                    &&& cvalue::<K>(m[q]@) == vals::<K>(y@)[q] * pow2(q as nat) * cvalue::<K>(
                        x@,
                    )
                    &&& forall|k: int|
                        0 <= k < 2 * x.len() ==> K::val(#[trigger] m[q]@[k]) == mulary_digit(
                            vals::<K>(x@),
                            vals::<K>(y@)[q],
                            q,
                            k,
                        )
                    &&& forall|k: int|
                        0 <= k < 2 * x.len() && !(q <= k < q + x.len()) ==> K::trivial(
                            #[trigger] m[q]@[k],
                        )
                },
        decreases y.len() - j,
    {
        assert(vals::<K>(y@)[j as int] == K::val(y@[j as int]));
        assert(is_digit(vals::<K>(y@)[j as int]));
        let row = mul_row(cap, x, &y[j], j)?;
        m.push(row);
        j += 1;
    }
    Ok(m)
}

/// Sum of the rows of a multiplication array by sequential refreshed additions.
pub(crate) fn reduce_rows<K: DigitCapability>(
    cap: &K,
    m: &Vec<Vec<K::Digit>>,
    x: &Vec<K::Digit>,
    y: &Vec<K::Digit>,
) -> (r: Result<Vec<K::Digit>, ParmError>)
    requires
        2 <= x.len() == y.len() <= MAX_LEN,
        m.len() == x.len(),
        forall|j: int|
            0 <= j < m.len() ==> {
                &&& (#[trigger] m[j]).len() == 2 * x.len()
                &&& wf_digits::<K>(m[j]@)
                &&& cvalue::<K>(m[j]@) == vals::<K>(y@)[j] * pow2(j as nat) * cvalue::<K>(x@)
            },
    ensures
        cap.reliable() ==> r is Ok,
        r matches Ok(z) ==> {
            &&& wf_digits::<K>(z@)
            &&& z.len() == 3 * x.len() - 1
            &&& cvalue::<K>(z@) == cvalue::<K>(x@) * cvalue::<K>(y@)
        },
        r matches Err(e) ==> e == ParmError::Capability,
{
    let len = x.len();
    let ghost ys = vals::<K>(y@);
    let ghost cx = cvalue::<K>(x@);
    let mut acc = add_sub_noise_refresh(true, cap, &m[0], &m[1])?;
    proof {
        reveal_with_fuel(value, 3);
        assert(ys.take(2).drop_last() =~= ys.take(1));
        assert(ys.take(1).drop_last() =~= ys.take(0));
        assert(ys.take(0) =~= Seq::<int>::empty());
        lemma_pow2_unfold(1);
        assert(pow2(0) == 1) by {
            vstd::arithmetic::power2::lemma2_to64();
        }
        let y0 = ys[0];
        let y1 = ys[1];
        assert(y0 * 1 * cx + y1 * 2 * cx == cx * (0 + y0 * 1 + y1 * 2)) by (nonlinear_arith);
    }
    let mut i: usize = 2;
    while i < len
        invariant
            2 <= i <= len,
            len == x.len() == y.len() <= MAX_LEN,
            m.len() == len,
            ys == vals::<K>(y@),
            cx == cvalue::<K>(x@),
            forall|j: int|
                0 <= j < m.len() ==> {
                    &&& (#[trigger] m[j]).len() == 2 * x.len()
                    &&& wf_digits::<K>(m[j]@)
                    &&& cvalue::<K>(m[j]@) == vals::<K>(y@)[j] * pow2(j as nat) * cvalue::<K>(
                        x@,
                    )
                },
            wf_digits::<K>(acc@),
            acc.len() == 2 * len + i - 1,
            cvalue::<K>(acc@) == cx * value(ys.take(i as int)),
        decreases len - i,
    {
        assert(m[i as int].len() == 2 * len);
        let next = add_sub_noise_refresh(true, cap, &acc, &m[i])?;
        proof {
            assert(ys.take(i + 1) =~= ys.take(i as int).push(ys[i as int]));
            lemma_value_push(ys.take(i as int), ys[i as int]);
            let p = pow2(i as nat) as int;
            let yi = ys[i as int];
            let v0 = value(ys.take(i as int));
            assert(cx * v0 + yi * p * cx == cx * (v0 + yi * p)) by (nonlinear_arith);
        }
        acc = next;
        i += 1;
    }
    assert(ys.take(len as int) =~= ys);
    Ok(acc)
}

/// Schoolbook multiplication of operands of a common length of at least two.
fn mul_schoolbook<K: DigitCapability>(cap: &K, x: &Vec<K::Digit>, y: &Vec<K::Digit>) -> (r: Result<
    Vec<K::Digit>,
    ParmError,
>)
    requires
        wf_digits::<K>(x@),
        wf_digits::<K>(y@),
        2 <= x.len() == y.len() <= MAX_LEN,
    ensures
        cap.reliable() ==> r is Ok,
        r matches Ok(z) ==> {
            &&& wf_digits::<K>(z@)
            &&& z.len() == 3 * x.len() - 1
            &&& cvalue::<K>(z@) == cvalue::<K>(x@) * cvalue::<K>(y@)
        },
        r matches Err(e) ==> e == ParmError::Capability,
{
    let mulary = fill_mulary(cap, x, y)?;
    reduce_rows(cap, &mulary, x, y)
}

/// Product of two one-digit operands.
fn mul_1word<K: DigitCapability>(cap: &K, x: &Vec<K::Digit>, y: &Vec<K::Digit>) -> (r: Result<
    Vec<K::Digit>,
    ParmError,
>)
    requires
        wf_digits::<K>(x@),
        wf_digits::<K>(y@),
        x.len() == 1,
        y.len() == 1,
    ensures
        cap.reliable() ==> r is Ok,
        r matches Ok(z) ==> {
            &&& wf_digits::<K>(z@)
            &&& z.len() == 2
            &&& cvalue::<K>(z@) == cvalue::<K>(x@) * cvalue::<K>(y@)
            &&& K::val(z@[0]) == K::val(x@[0]) * K::val(y@[0])
            &&& K::val(z@[1]) == 0
            &&& K::trivial(z@[1])
        },
        r matches Err(e) ==> e == ParmError::Capability,
{
    let mut mulary = fill_mulary(cap, x, y)?;
    let row = mulary.pop().unwrap();
    proof {
        reveal_with_fuel(value, 2);
        assert(vals::<K>(y@).drop_last() =~= Seq::<int>::empty());
        assert(pow2(0) == 1) by {
            vstd::arithmetic::power2::lemma2_to64();
        }
        let y0 = vals::<K>(y@)[0];
        let cx = cvalue::<K>(x@);
        assert(y0 * 1 * cx == cx * (0 + y0 * 1)) by (nonlinear_arith);
        assert(mulary_digit(vals::<K>(x@), y0, 0, 0) == vals::<K>(x@)[0] * y0);
        assert(vals::<K>(x@)[0] == K::val(x@[0]));
        assert(y0 == K::val(y@[0]));
    }
    Ok(row)
}

/// Product of two encrypted integers. The operands are padded with trivial
/// zeros to their common length `l`; then the empty product is one trivial
/// zero, `l == 1` a digit product, `l < 14` and `l == 15` the schoolbook method,
/// and `16 <= l <= 32` and `l == 14` Karatsuba. Longer operands are refused.
pub fn mul_impl<K: DigitCapability>(cap: &K, x: &Vec<K::Digit>, y: &Vec<K::Digit>) -> (r: Result<
    Vec<K::Digit>,
    ParmError,
>)
    requires
        wf_digits::<K>(x@),
        wf_digits::<K>(y@),
    ensures
        max_len(x.len() as nat, y.len() as nat) > MAX_LEN ==> r is Err,
        max_len(x.len() as nat, y.len() as nat) <= MAX_LEN && cap.reliable() ==> r is Ok,
        r matches Ok(z) ==> {
            &&& wf_digits::<K>(z@)
            &&& cvalue::<K>(z@) == cvalue::<K>(x@) * cvalue::<K>(y@)
            &&& z.len() == mul_len(max_len(x.len() as nat, y.len() as nat))
            &&& 1 <= z.len() <= product_len_bound(max_len(x.len() as nat, y.len() as nat))
            &&& max_len(x.len() as nat, y.len() as nat) == 0 ==> K::trivial(z@[0])
        },
        r matches Err(e) ==> {
            ||| e == ParmError::Capability && max_len(x.len() as nat, y.len() as nat) <= MAX_LEN
            ||| e == ParmError::LengthExceeded(max_len(x.len() as nat, y.len() as nat) as usize)
                && max_len(x.len() as nat, y.len() as nat) > MAX_LEN
        },
    decreases karatsuba_measure(max_len(x.len() as nat, y.len() as nat)), 1int,
{
    let n: usize = if x.len() >= y.len() {
        x.len()
    } else {
        y.len()
    };
    if n > MAX_LEN {
        return Err(ParmError::LengthExceeded(n));
    }
    let xp = pad_to(cap, x, n);
    let yp = pad_to(cap, y, n);
    proof {
        lemma_mul_len_bound(n as nat);
    }
    if n == 0 {
        assert(vals::<K>(x@) =~= Seq::<int>::empty());
        assert(vals::<K>(y@) =~= Seq::<int>::empty());
        Ok(triv_zeros(cap, 1))
    } else if n == 1 {
        mul_1word(cap, &xp, &yp)
    } else if n < 14 || n == 15 {
        mul_schoolbook(cap, &xp, &yp)
    } else {
        mul_karatsuba(cap, &xp, &yp)
    }
}

/// The Karatsuba identity over the parts of the operands, as the engine
/// assembles it: `p` is `2^len0`, and `-(A + B)` enters shifted by `len0`.
proof fn lemma_karatsuba(p: int, x0: int, x1: int, y0: int, y1: int, va: int, vb: int, vc: int)
    requires
        va == x1 * y1,
        vb == x0 * y0,
        vc == (x0 + x1) * (y0 + y1),
    ensures
        vb + (p * p) * va + ((0 + p * vc) + (0 + p * (-(va + vb)))) == (x0 + p * x1) * (y0 + p
            * y1),
        (0 + (p * p) * va) + (vb + ((0 + p * vc) + (0 + p * (-(va + vb))))) == (x0 + p * x1) * (
        y0 + p * y1),
{
    let cross = x0 * y1 + x1 * y0;
    assert(vc == vb + va + cross) by (nonlinear_arith)
        requires
            va == x1 * y1,
            vb == x0 * y0,
            vc == (x0 + x1) * (y0 + y1),
            cross == x0 * y1 + x1 * y0,
    ;
    let px1 = p * x1;
    let py1 = p * y1;
    assert((x0 + px1) * (y0 + py1) == x0 * y0 + x0 * py1 + px1 * y0 + px1 * py1)
        by (nonlinear_arith);
    assert(x0 * py1 == p * (x0 * y1)) by (nonlinear_arith)
        requires
            py1 == p * y1,
    ;
    assert(px1 * y0 == p * (x1 * y0)) by (nonlinear_arith)
        requires
            px1 == p * x1,
    ;
    assert(px1 * py1 == (p * p) * (x1 * y1)) by (nonlinear_arith)
        requires
            px1 == p * x1,
            py1 == p * y1,
    ;
    assert(p * (x0 * y1) + p * (x1 * y0) == p * cross) by (nonlinear_arith)
        requires
            cross == x0 * y1 + x1 * y0,
    ;
    assert(p * vc == p * vb + p * va + p * cross) by (nonlinear_arith)
        requires
            vc == vb + va + cross,
    ;
    assert(p * (-(va + vb)) == -(p * va) - p * vb) by (nonlinear_arith);
}

/// Karatsuba multiplication: with `x = x0 + 2^len0 * x1` (and `y` alike),
/// `A = x1 * y1`, `B = x0 * y0`, `C = (x0 + x1) * (y0 + y1)`, the product is
/// `B + 2^len0 * (C - A - B) + 2^(2 len0) * A`.
#[verifier::rlimit(40)]
fn mul_karatsuba<K: DigitCapability>(cap: &K, x: &Vec<K::Digit>, y: &Vec<K::Digit>) -> (r: Result<
    Vec<K::Digit>,
    ParmError,
>)
    requires
        wf_digits::<K>(x@),
        wf_digits::<K>(y@),
        2 <= x.len() == y.len() <= MAX_LEN,
    ensures
        cap.reliable() ==> r is Ok,
        r matches Ok(z) ==> {
            &&& wf_digits::<K>(z@)
            &&& cvalue::<K>(z@) == cvalue::<K>(x@) * cvalue::<K>(y@)
            &&& z.len() == karatsuba_len(
                x.len() as nat,
                mul_len((x.len() - (x.len() + 1) / 2) as nat),
                mul_len(((x.len() + 1) / 2) as nat),
                mul_len(((x.len() + 1) / 2 + 1) as nat),
            )
        },
        r matches Err(e) ==> e == ParmError::Capability,
    decreases x.len() as int, 0int,
{
    let len = x.len();
    let len0 = (len + 1) / 2;
    assert(len0 + (len - len0) == len && len - len0 <= len0 <= len - len0 + 1 && len0 >= 1 && len - len0 >= 1);
    proof {
        lemma_mul_len_bound((len - len0) as nat);
        lemma_mul_len_bound(len0 as nat);
        lemma_mul_len_bound((len0 + 1) as nat);
    }
    let x0 = take_range(cap, x, 0, len0);
    let x1 = take_range(cap, x, len0, len);
    let y0 = take_range(cap, y, 0, len0);
    let y1 = take_range(cap, y, len0, len);
    proof {
        assert(vals::<K>(x@) =~= vals::<K>(x0@) + vals::<K>(x1@));
        assert(vals::<K>(y@) =~= vals::<K>(y0@) + vals::<K>(y1@));
        lemma_value_concat(vals::<K>(x0@), vals::<K>(x1@));
        lemma_value_concat(vals::<K>(y0@), vals::<K>(y1@));
    }
    let a = mul_impl(cap, &x1, &y1)?;
    let b = mul_impl(cap, &x0, &y0)?;
    let x01 = add_sub_noise_refresh(true, cap, &x0, &x1)?;
    let y01 = add_sub_noise_refresh(true, cap, &y0, &y1)?;
    let c_plain = mul_impl(cap, &x01, &y01)?;
    let c = concat::<K>(triv_zeros(cap, len0), c_plain);
    let pa_pb = add_sub_noise_refresh(true, cap, &a, &b)?;
    let na_nb = concat::<K>(triv_zeros(cap, len0), opposite_impl(cap, &pa_pb));
    let c_nanb = add_sub_noise_refresh(true, cap, &c, &na_nb)?;
    let ghost len1 = (len - len0) as nat;
    assert(x01.len() == len0 + 1);
    assert(a.len() == mul_len(len1));
    assert(b.len() == mul_len(len0 as nat));
    assert(c_plain.len() == mul_len((len0 + 1) as nat));
    assert(pa_pb.len() == max_len(a.len() as nat, b.len() as nat) + 1);
    assert(c_nanb.len() == max_len(c.len() as nat, na_nb.len() as nat) + 1);
    proof {
        lemma_pow2_adds(len0 as nat, len0 as nat);
        lemma_karatsuba(
            pow2(len0 as nat) as int,
            cvalue::<K>(x0@),
            cvalue::<K>(x1@),
            cvalue::<K>(y0@),
            cvalue::<K>(y1@),
            cvalue::<K>(a@),
            cvalue::<K>(b@),
            cvalue::<K>(c_plain@),
        );
    }
    if b.len() == 2 * len0 {
        let ba = concat::<K>(b, a);
        add_sub_noise_refresh(true, cap, &ba, &c_nanb)
    } else {
        let b_c = add_sub_noise_refresh(true, cap, &b, &c_nanb)?;
        let a_sh = concat::<K>(triv_zeros(cap, 2 * len0), a);
        add_sub_noise_refresh(true, cap, &a_sh, &b_c)
    }
}

} // verus!
