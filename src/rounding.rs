use vstd::prelude::*;
use vstd::arithmetic::power2::{pow2, lemma2_to64, lemma_pow2_pos, lemma_pow2_unfold};
use vstd::arithmetic::div_mod::{
    lemma_fundamental_div_mod, lemma_fundamental_div_mod_converse, lemma_mod_bound,
};

use crate::addition::add_sub_noise_refresh;
use crate::capability::{DigitCapability, StepFn};
use crate::ciphertext::{triv_zeros, concat, take_range, zeros};
use crate::digits::{
    value, is_digit, vals, wf_digits, cvalue, lemma_vals_push, lemma_value_push,
    lemma_value_concat, lemma_value_bound,
};
use crate::error::ParmError;
use crate::signum::sgn_impl;

verus! {

/// Rounding half up at bit `pos`: the low `pos` bits (of the two's complement
/// form) are cleared, and `2^pos` is added where bit `pos - 1` was set.
pub open spec fn round_half_up(x: int, pos: nat) -> int {
    if pos == 0 {
        x
    } else {
        let p = pow2(pos) as int;
        let r = x % p;
        if r >= pow2((pos - 1) as nat) {
            x - r + p
        } else {
            x - r
        }
    }
}

/// With `x + half = l + p * h` and `|l| < p`, rounding `x` half up at `p`
/// gives `p * h`, less `p` where `l` is negative.
proof fn lemma_round_split(x: int, h: int, l: int, p: int, half: int)
    requires
        half > 0,
        p == 2 * half,
        x + half == l + p * h,
        -p < l < p,
    ensures
        p * (h + (if l < 0 {
            -1int
        } else {
            0
        })) == (if x % p >= half {
            x - x % p + p
        } else {
            x - x % p
        }),
{
    let r = x % p;
    let k = x / p;
    lemma_fundamental_div_mod(x, p);
    lemma_mod_bound(x, p);
    let q = h + (if l < 0 {
        -1int
    } else {
        0
    });
    let e = l + (if l < 0 {
        p
    } else {
        0
    });
    assert(x + half == q * p + e) by (nonlinear_arith)
        requires
            x + half == l + p * h,
            q == h + (if l < 0 {
                -1int
            } else {
                0
            }),
            e == l + (if l < 0 {
                p
            } else {
                0
            }),
    ;
    lemma_fundamental_div_mod_converse(x + half, p, q, e);
    if r >= half {
        assert(x + half == (k + 1) * p + (r + half - p)) by (nonlinear_arith)
            requires
                x == p * k + r,
        ;
        lemma_fundamental_div_mod_converse(x + half, p, k + 1, r + half - p);
        assert(p * q == p * k + p) by (nonlinear_arith)
            requires
                q == k + 1,
        ;
    } else {
        assert(x + half == k * p + (r + half)) by (nonlinear_arith)
            requires
                x == p * k + r,
        ;
        lemma_fundamental_div_mod_converse(x + half, p, k, r + half);
    }
}

/// Rounding of an encrypted integer half up at bit `pos`: `2^(pos - 1)` is
/// added, the low `pos` digits are dropped, and the high part is lowered by one
/// where the dropped digits stood for a negative number. Positions at or beyond
/// the length of `x` are refused; position `0` leaves `x` as it is.
pub fn round_at_impl<K: DigitCapability>(cap: &K, x: &Vec<K::Digit>, pos: usize) -> (r: Result<
    Vec<K::Digit>,
    ParmError,
>)
    requires
        wf_digits::<K>(x@),
        x.len() < usize::MAX - 2,
    ensures
        pos == 0 || (pos < x.len() && cap.reliable()) ==> r is Ok,
        pos > 0 && pos >= x.len() ==> r is Err,
        r matches Ok(z) ==> {
            &&& wf_digits::<K>(z@)
            &&& cvalue::<K>(z@) == round_half_up(cvalue::<K>(x@), pos as nat)
            &&& z.len() == if pos == 0 {
                x.len() as int
            } else {
                x.len() + 2
            }
        },
        r matches Err(e) ==> {
            ||| e == ParmError::Capability && 0 < pos < x.len()
            ||| e == ParmError::RoundingPosition(pos) && 0 < pos && pos >= x.len()
        },
{
    if pos == 0 {
        let z = take_range(cap, x, 0, x.len());
        assert(vals::<K>(x@).subrange(0, x.len() as int) =~= vals::<K>(x@));
        return Ok(z);
    }
    if pos >= x.len() {
        return Err(ParmError::RoundingPosition(pos));
    }
    let mut c = triv_zeros(cap, pos - 1);
    let one = cap.encode_trivial(1);
    proof {
        lemma_vals_push::<K>(c@, one);
        lemma_value_push(vals::<K>(c@), 1);
        assert forall|q: int| 0 <= q < pos implies is_digit(#[trigger] vals::<K>(c@.push(one))[q]) by {
            if q < pos - 1 {
                assert(vals::<K>(c@.push(one))[q] == zeros((pos - 1) as nat)[q]);
            }
        }
    }
    c.push(one);
    let t = add_sub_noise_refresh(true, cap, x, &c)?;
    let lo_part = take_range(cap, &t, 0, pos);
    let hi_part = take_range(cap, &t, pos, t.len());
    proof {
        assert(vals::<K>(t@) =~= vals::<K>(lo_part@) + vals::<K>(hi_part@));
        lemma_value_concat(vals::<K>(lo_part@), vals::<K>(hi_part@));
        lemma_value_bound(vals::<K>(lo_part@));
    }
    let s = sgn_impl(cap, &lo_part)?;
    let neg = cap.bootstrap(&s[0], StepFn::NegPart)?;
    let mut nv: Vec<K::Digit> = Vec::new();
    nv.push(neg);
    proof {
        assert(vals::<K>(nv@) =~= Seq::<int>::empty().push(K::val(neg)));
        lemma_value_push(Seq::<int>::empty(), K::val(neg));
        lemma2_to64();
        assert(value(vals::<K>(nv@)) == K::val(neg));
        assert(is_digit(vals::<K>(nv@)[0]));
    }
    let h = add_sub_noise_refresh(true, cap, &hi_part, &nv)?;
    let z = concat::<K>(triv_zeros(cap, pos), h);
    proof {
        lemma_pow2_unfold(pos as nat);
        lemma_pow2_pos((pos - 1) as nat);
        let l = cvalue::<K>(lo_part@);
        assert(K::val(neg) == if l < 0 {
            -1int
        } else {
            0
        });
        lemma_round_split(
            cvalue::<K>(x@),
            cvalue::<K>(hi_part@),
            l,
            pow2(pos as nat) as int,
            pow2((pos - 1) as nat) as int,
        );
    }
    Ok(z)
}

} // verus!
