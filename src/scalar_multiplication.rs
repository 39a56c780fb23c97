use vstd::prelude::*;
use vstd::arithmetic::power2::{pow2, lemma2_to64};

use crate::addition::add_sub_noise_refresh;
use crate::capability::{DigitCapability};
use crate::ciphertext::{triv_zeros, concat, take_range};
use crate::digits::{value, is_digit, digits_ok, vals, wf_digits, cvalue, lemma_value_push};
use crate::encryption::{encode_digits, ints, lemma_encoded_value_exact};
use crate::error::ParmError;

verus! {

/// Product of an encrypted integer and a plaintext integer `k`: the copies of
/// `x` shifted to the set bits of `|k|` are added (or, for negative `k`,
/// subtracted) one after another.
pub fn scalar_mul_impl<K: DigitCapability>(cap: &K, k: i32, x: &Vec<K::Digit>) -> (r: Result<
    Vec<K::Digit>,
    ParmError,
>)
    requires
        wf_digits::<K>(x@),
        x.len() <= usize::MAX - 64,
    ensures
        cap.reliable() ==> r is Ok,
        r matches Ok(z) ==> {
            &&& wf_digits::<K>(z@)
            &&& cvalue::<K>(z@) == k * cvalue::<K>(x@)
            &&& z.len() <= x.len() + 32
        },
        r matches Err(e) ==> e == ParmError::Capability,
{
    let ds = encode_digits(k as i64, 32);
    let ghost ks = ints(ds@);
    let ghost cx = cvalue::<K>(x@);
    let mut acc: Vec<K::Digit> = Vec::new();
    let mut i: usize = 0;
    assert(vals::<K>(acc@) =~= Seq::<int>::empty());
    assert(ks.take(0) =~= Seq::<int>::empty());
    assert(wf_digits::<K>(acc@));
    while i < 32
        invariant
            ds.len() == 32,
            ks == ints(ds@),
            digits_ok(ks),
            wf_digits::<K>(x@),
            x.len() <= usize::MAX - 64,
            cx == cvalue::<K>(x@),
            i <= 32,
            wf_digits::<K>(acc@),
            acc.len() <= x.len() + i,
            cvalue::<K>(acc@) == value(ks.take(i as int)) * cx,
        decreases 32 - i,
    {
        let ghost d = ks[i as int];
        assert(d == ds@[i as int] as int);
        assert(is_digit(d));
        proof {
            assert(ks.take(i + 1) =~= ks.take(i as int).push(d));
            lemma_value_push(ks.take(i as int), d);
        }
        if ds[i] != 0 {
            let sh = concat::<K>(triv_zeros(cap, i), take_range(cap, x, 0, x.len()));
            proof {
                assert(vals::<K>(x@).subrange(0, x.len() as int) =~= vals::<K>(x@));
                let p = pow2(i as nat) as int;
                let v0 = value(ks.take(i as int));
                assert(v0 * cx + d * (p * cx) == (v0 + d * p) * cx) by (nonlinear_arith);
                if d == -1 {
                    assert(v0 * cx - (p * cx) == (v0 + d * p) * cx) by (nonlinear_arith)
                        requires
                            d == -1,
                    ;
                }
            }
            acc = add_sub_noise_refresh(ds[i] == 1, cap, &acc, &sh)?;
        } else {
            assert(d * pow2(i as nat) == 0);
        }
        i += 1;
    }
    proof {
        assert(ks.take(32) =~= ks);
        lemma2_to64();
        lemma_encoded_value_exact(k as int, 32);
        assert(value(ks) * cx == k * cx);
    }
    Ok(acc)
}

} // verus!
