use vstd::prelude::*;
use vstd::arithmetic::power2::pow2;

use crate::addition::add_sub_noise_refresh;
use crate::capability::{DigitCapability, StepFn, sign};
use crate::ciphertext::max_len;
use crate::digits::{value, is_digit, vals, wf_digits, cvalue, lemma_vals_push, lemma_value_push};
use crate::error::ParmError;
use crate::signum::sgn_impl;

verus! {

pub open spec fn max_int(a: int, b: int) -> int {
    if a >= b {
        a
    } else {
        b
    }
}

/// Maximum of two encrypted integers: `y + relu(x - y)`, where the digits of
/// `x - y` are kept or cleared by a bootstrap that reads the sign of `x - y`.
pub fn max_impl<K: DigitCapability>(cap: &K, x: &Vec<K::Digit>, y: &Vec<K::Digit>) -> (r: Result<
    Vec<K::Digit>,
    ParmError,
>)
    requires
        wf_digits::<K>(x@),
        wf_digits::<K>(y@),
        x.len() < usize::MAX - 2,
        y.len() < usize::MAX - 2,
    ensures
        cap.reliable() ==> r is Ok,
        r matches Ok(z) ==> {
            &&& wf_digits::<K>(z@)
            &&& cvalue::<K>(z@) == max_int(cvalue::<K>(x@), cvalue::<K>(y@))
            &&& z.len() <= max_len(x.len() as nat, y.len() as nat) + 2
        },
        r matches Err(e) ==> e == ParmError::Capability,
{
    let d = add_sub_noise_refresh(false, cap, x, y)?;
    let s = sgn_impl(cap, &d)?;
    let ghost sv = sign(cvalue::<K>(d@));
    let s3 = cap.scale_by_constant(&s[0], 3);
    let ghost ds = vals::<K>(d@);
    let mut g: Vec<K::Digit> = Vec::new();
    let mut i: usize = 0;
    assert(vals::<K>(g@) =~= Seq::<int>::empty());
    assert(ds.take(0) =~= Seq::<int>::empty());
    while i < d.len()
        invariant
            ds == vals::<K>(d@),
            wf_digits::<K>(d@),
            K::val(s3) == 3 * sv,
            sv == sign(cvalue::<K>(d@)),
            i <= d.len(),
            g.len() == i,
            wf_digits::<K>(g@),
            cvalue::<K>(g@) == if sv == 1 {
                value(ds.take(i as int))
            } else {
                0
            },
        decreases d.len() - i,
    {
        assert(ds[i as int] == K::val(d@[i as int]));
        assert(is_digit(ds[i as int]));
        let a = cap.add_digit(&s3, &d[i]);
        let gi = cap.bootstrap(&a, StepFn::GatePositive)?;
        proof {
            let di = ds[i as int];
            assert(K::val(gi) == if sv == 1 { di } else { 0 });
            lemma_vals_push::<K>(g@, gi);
            lemma_value_push(vals::<K>(g@), K::val(gi));
            assert(ds.take(i + 1) =~= ds.take(i as int).push(di));
            lemma_value_push(ds.take(i as int), di);
            assert(0 * pow2(i as nat) == 0);
            assert forall|q: int| 0 <= q < i + 1 implies is_digit(
                #[trigger] vals::<K>(g@.push(gi))[q],
            ) by {
                if q < i {
                    assert(vals::<K>(g@.push(gi))[q] == vals::<K>(g@)[q]);
                }
            }
        }
        g.push(gi);
        i += 1;
    }
    assert(ds.take(d.len() as int) =~= ds);
    add_sub_noise_refresh(true, cap, y, &g)
}

} // verus!
