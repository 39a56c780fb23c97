use vstd::prelude::*;
use vstd::arithmetic::power2::{
    pow2, lemma2_to64, lemma2_to64_rest, lemma_pow2_pos, lemma_pow2_unfold,
};
use vstd::arithmetic::div_mod::{lemma_div_denominator, lemma_mod_breakdown, lemma_small_mod};

use crate::capability::{DigitCapability, abs, in_ring, sign};
use crate::digits::{
    value, is_digit, digits_ok, vals, wf_digits, cvalue, lemma_vals_push, lemma_value_push,
    lemma_value_bound, lemma_pow2_le,
};
use crate::error::ParmError;

verus! {

/// Digit `i` of the signed binary encoding of `m`: the sign of `m` where bit
/// `i` of `|m|` is set, `0` elsewhere.
pub open spec fn encode_digit(m: int, i: nat) -> int {
    if (abs(m) / pow2(i) as int) % 2 == 0 {
        0
    } else {
        sign(m)
    }
}

/// What an encoding of `m` in `bits` digits stands for: `m` with its
/// magnitude cut to the low `bits` bits.
pub open spec fn encoded_value(m: int, bits: nat) -> int {
    sign(m) * (abs(m) % pow2(bits) as int)
}

pub open spec fn ints(s: Seq<i8>) -> Seq<int> {
    s.map_values(|d: i8| d as int)
}

/// Digits read outside the alphabet `{-1, 0, 1}` count as `0` when decrypting.
pub open spec fn in_alphabet(s: Seq<int>) -> Seq<int> {
    s.map_values(|v: int| if is_digit(v) { v } else { 0 })
}

/// An encoding keeps the integer exactly when its magnitude fits in `bits` bits.
pub proof fn lemma_encoded_value_exact(m: int, bits: nat)
    requires
        abs(m) < pow2(bits),
    ensures
        encoded_value(m, bits) == m,
{
    lemma_small_mod(abs(m) as nat, pow2(bits));
}

/// The signed binary digits of `m`, least significant first.
pub fn encode_digits(m: i64, bits: usize) -> (r: Vec<i8>)
    ensures
        r.len() == bits,
        forall|i: int| 0 <= i < bits ==> r@[i] as int == encode_digit(m as int, i as nat),
        digits_ok(ints(r@)),
        value(ints(r@)) == encoded_value(m as int, bits as nat),
{
    let mag: u64 = if m < 0 {
        (0i128 - m as i128) as u64
    } else {
        m as u64
    };
    let neg = m < 0;
    let ghost a = abs(m as int);
    let mut rest: u64 = mag;
    let mut r: Vec<i8> = Vec::new();
    let mut i: usize = 0;
    proof {
        lemma2_to64();
        assert(ints(r@) =~= Seq::<int>::empty());
        assert(a % 1 == 0);
    }
    while i < bits
        invariant
            i <= bits,
            r.len() == i,
            a == abs(m as int),
            a >= 0,
            neg == (m < 0),
            rest as int == a / pow2(i as nat) as int,
            forall|q: int| 0 <= q < i ==> r@[q] as int == encode_digit(m as int, q as nat),
            digits_ok(ints(r@)),
            value(ints(r@)) == sign(m as int) * (a % pow2(i as nat) as int),
        decreases bits - i,
    {
        let d: i8 = if rest % 2 == 0 {
            0
        } else if neg {
            -1
        } else {
            1
        };
        proof {
            let p = pow2(i as nat) as int;
            lemma_pow2_pos(i as nat);
            lemma_pow2_unfold((i + 1) as nat);
            lemma_mod_breakdown(a, p, 2);
            lemma_div_denominator(a, p, 2);
            assert(ints(r@.push(d)) =~= ints(r@).push(d as int));
            lemma_value_push(ints(r@), d as int);
            let b = (a / p) % 2;
            assert(d as int == sign(m as int) * b) by {
                if m == 0 {
                    assert(a == 0);
                    assert(0int / p == 0) by (nonlinear_arith)
                        requires
                            p > 0,
                    ;
                }
            }
            let s = sign(m as int);
            let lo = a % p;
            assert(s * lo + (s * b) * p == s * (p * b + lo)) by (nonlinear_arith);
            assert(p * 2 == 2 * p);
            assert forall|q: int| 0 <= q < i + 1 implies is_digit(#[trigger] ints(r@.push(d))[q]) by {
                if q < i {
                    assert(ints(r@.push(d))[q] == ints(r@)[q]);
                }
            }
        }
        r.push(d);
        rest = rest / 2;
        i += 1;
    }
    r
}

/// Encryption of `m` as `bits` digits of its signed binary encoding.
pub fn parm_encrypt<K: DigitCapability>(cap: &K, sk: &K::Secret, m: i32, bits: usize) -> (r: Result<
    Vec<K::Digit>,
    ParmError,
>)
    ensures
        cap.reliable() ==> r is Ok,
        r matches Ok(z) ==> {
            &&& z.len() == bits
            &&& wf_digits::<K>(z@)
            &&& forall|i: int|
                0 <= i < bits ==> K::val(#[trigger] z@[i]) == encode_digit(m as int, i as nat)
            &&& cvalue::<K>(z@) == encoded_value(m as int, bits as nat)
            &&& abs(m as int) < pow2(bits as nat) ==> cvalue::<K>(z@) == m
        },
        r matches Err(e) ==> e == ParmError::Capability,
{
    let ds = encode_digits(m as i64, bits);
    let mut res: Vec<K::Digit> = Vec::new();
    let mut i: usize = 0;
    assert(vals::<K>(res@) =~= Seq::<int>::empty());
    assert(ints(ds@).take(0) =~= Seq::<int>::empty());
    while i < bits
        invariant
            ds.len() == bits,
            i <= bits,
            res.len() == i,
            forall|q: int| 0 <= q < bits ==> ds@[q] as int == encode_digit(m as int, q as nat),
            digits_ok(ints(ds@)),
            vals::<K>(res@) == ints(ds@).take(i as int),
        decreases bits - i,
    {
        assert(ints(ds@)[i as int] == ds@[i as int] as int);
        assert(is_digit(ints(ds@)[i as int]));
        let c = cap.encrypt(sk, ds[i])?;
        proof {
            lemma_vals_push::<K>(res@, c);
            assert(ints(ds@).take(i + 1) =~= ints(ds@).take(i as int).push(ds@[i as int] as int));
        }
        res.push(c);
        i += 1;
    }
    proof {
        assert(ints(ds@).take(bits as int) =~= ints(ds@));
        assert forall|q: int| 0 <= q < bits implies K::val(#[trigger] res@[q]) == encode_digit(
            m as int,
            q as nat,
        ) by {
            assert(vals::<K>(res@)[q] == K::val(res@[q]));
            assert(ints(ds@)[q] == ds@[q] as int);
        }
        if abs(m as int) < pow2(bits as nat) {
            lemma_encoded_value_exact(m as int, bits as nat);
        }
    }
    Ok(res)
}

/// Decryption: the sum of `digit_i * 2^i`, where a digit read outside
/// `{-1, 0, 1}` counts as `0`.
pub fn parm_decrypt<K: DigitCapability>(cap: &K, sk: &K::Secret, pc: &Vec<K::Digit>) -> (r: Result<
    i64,
    ParmError,
>)
    requires
        pc.len() <= 63,
        wf_digits::<K>(pc@) || forall|i: int|
            0 <= i < pc.len() ==> in_ring(#[trigger] vals::<K>(pc@)[i]),
    ensures
        cap.reliable() ==> r is Ok,
        r matches Ok(m) ==> m as int == value(in_alphabet(vals::<K>(pc@))),
        r matches Ok(m) ==> wf_digits::<K>(pc@) ==> m as int == cvalue::<K>(pc@),
        r matches Err(e) ==> e == ParmError::Capability,
{
    let ghost s = in_alphabet(vals::<K>(pc@));
    assert forall|i: int| 0 <= i < pc.len() implies in_ring(#[trigger] vals::<K>(pc@)[i]) by {
        if wf_digits::<K>(pc@) {
            assert(is_digit(vals::<K>(pc@)[i]));
        }
    }
    let mut m: i64 = 0;
    let mut p: i64 = 1;
    let mut i: usize = 0;
    proof {
        lemma2_to64();
        assert(s.take(0) =~= Seq::<int>::empty());
    }
    while i < pc.len()
        invariant
            pc.len() <= 63,
            forall|q: int| 0 <= q < pc.len() ==> in_ring(#[trigger] vals::<K>(pc@)[q]),
            s == in_alphabet(vals::<K>(pc@)),
            i <= pc.len(),
            i < pc.len() ==> p as int == pow2(i as nat),
            m as int == value(s.take(i as int)),
        decreases pc.len() - i,
    {
        assert(vals::<K>(pc@)[i as int] == K::val(pc@[i as int]));
        let mi = cap.decrypt(sk, &pc[i])?;
        proof {
            lemma2_to64();
            assert(s.take(i + 1) =~= s.take(i as int).push(s[i as int]));
            lemma_value_push(s.take(i as int), s[i as int]);
            assert(digits_ok(s.take(i + 1))) by {
                assert forall|q: int| 0 <= q < i + 1 implies is_digit(#[trigger] s.take(i + 1)[q]) by {
                    assert(s.take(i + 1)[q] == s[q]);
                }
            }
            lemma_value_bound(s.take(i + 1));
            lemma_pow2_le((i + 1) as nat, 63);
            assert(s[i as int] == if is_digit(mi as int) { mi as int } else { 0 });
            let d = s[i as int];
            let pp = p as int;
            lemma2_to64_rest();
            if mi == 1 {
                assert(d == 1);
                assert(d * pp == pp) by (nonlinear_arith)
                    requires
                        d == 1,
                ;
            } else if mi == -1 {
                assert(d == -1);
                assert(d * pp == -pp) by (nonlinear_arith)
                    requires
                        d == -1,
                ;
            } else {
                assert(d == 0);
                assert(d * pp == 0) by (nonlinear_arith)
                    requires
                        d == 0,
                ;
            }
            assert(value(s.take(i + 1)) == m + d * pp);
        }
        if mi == 1 {
            m = m + p;
        } else if mi == -1 {
            m = m - p;
        }
        if i + 1 < pc.len() {
            proof {
                lemma_pow2_unfold((i + 1) as nat);
                lemma_pow2_le((i + 1) as nat, 62);
                lemma2_to64_rest();
                assert(p * 2 == pow2((i + 1) as nat));
            }
            p = p * 2;
        }
        i += 1;
    }
    proof {
        assert(s.take(pc.len() as int) =~= s);
        if wf_digits::<K>(pc@) {
            assert(s =~= vals::<K>(pc@)) by {
                assert forall|q: int| 0 <= q < pc.len() implies s[q] == vals::<K>(pc@)[q] by {
                    assert(is_digit(vals::<K>(pc@)[q]));
                }
            }
        }
    }
    Ok(m)
}

/// Number of binary digits of `n`: `0` for `0`.
pub open spec fn bit_length(n: nat) -> nat
    decreases n,
{
    if n == 0 {
        0
    } else {
        1 + bit_length(n / 2)
    }
}

pub proof fn lemma_bit_length(n: nat)
    ensures
        n < pow2(bit_length(n)),
    decreases n,
{
    lemma2_to64();
    if n > 0 {
        lemma_bit_length(n / 2);
        lemma_pow2_unfold(bit_length(n));
    }
}

/// An integer below `2^m` has at most `m` binary digits.
pub proof fn lemma_bit_length_le(n: nat, m: nat)
    requires
        n < pow2(m),
    ensures
        bit_length(n) <= m,
    decreases n,
{
    lemma2_to64();
    if n > 0 {
        if m == 0 {
            assert(false);
        } else {
            lemma_pow2_unfold(m);
            lemma_bit_length_le(n / 2, (m - 1) as nat);
        }
    }
}

/// Number of binary digits of `|k|`.
pub fn bits_needed(k: i64) -> (r: usize)
    ensures
        r as nat == bit_length(abs(k as int) as nat),
        r <= 64,
{
    let mut rest: u64 = if k < 0 {
        (0i128 - k as i128) as u64
    } else {
        k as u64
    };
    let mut count: usize = 0;
    proof {
        lemma2_to64();
        lemma_bit_length_le(rest as nat, 64);
    }
    while rest > 0
        invariant
            count + bit_length(rest as nat) == bit_length(abs(k as int) as nat),
            bit_length(rest as nat) + count <= 64,
        decreases rest,
    {
        rest = rest / 2;
        count += 1;
    }
    count
}

/// Trivial (public) encoding of `k` in as many digits of its signed binary
/// form as `|k|` has bits.
pub fn encode_trivial_int<K: DigitCapability>(cap: &K, k: i64) -> (r: Vec<K::Digit>)
    ensures
        r.len() == bit_length(abs(k as int) as nat),
        r.len() <= 64,
        wf_digits::<K>(r@),
        cvalue::<K>(r@) == k,
{
    let bits = bits_needed(k);
    let ds = encode_digits(k, bits);
    let mut res: Vec<K::Digit> = Vec::new();
    let mut i: usize = 0;
    assert(vals::<K>(res@) =~= Seq::<int>::empty());
    assert(ints(ds@).take(0) =~= Seq::<int>::empty());
    while i < bits
        invariant
            ds.len() == bits,
            i <= bits,
            res.len() == i,
            digits_ok(ints(ds@)),
            vals::<K>(res@) == ints(ds@).take(i as int),
        decreases bits - i,
    {
        assert(ints(ds@)[i as int] == ds@[i as int] as int);
        assert(is_digit(ints(ds@)[i as int]));
        let c = cap.encode_trivial(ds[i]);
        proof {
            lemma_vals_push::<K>(res@, c);
            assert(ints(ds@).take(i + 1) =~= ints(ds@).take(i as int).push(ds@[i as int] as int));
        }
        res.push(c);
        i += 1;
    }
    proof {
        assert(ints(ds@).take(bits as int) =~= ints(ds@));
        lemma_bit_length(abs(k as int) as nat);
        lemma_encoded_value_exact(k as int, bits as nat);
    }
    res
}

} // verus!
