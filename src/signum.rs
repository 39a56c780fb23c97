use vstd::prelude::*;
use vstd::arithmetic::power2::{pow2, lemma2_to64, lemma_pow2_unfold};

use crate::capability::{DigitCapability, StepFn, sign};
use crate::ciphertext::{triv_zeros, take_range};
use crate::digits::{
    value, is_digit, digits_ok, vals, wf_digits, cvalue, top_sign, lemma_vals_push,
    lemma_value_push, lemma_value_bound, lemma_value_sign,
};
use crate::error::ParmError;

verus! {

/// Group size of the signum reduction: the plaintext precision (5 bits) less one.
pub const GROUP_SIZE: usize = 4;

/// Every entry is a plaintext of magnitude at most 15, which a bootstrap reads
/// unambiguously.
pub open spec fn small(s: Seq<int>) -> bool {
    forall|i: int| 0 <= i < s.len() ==> -15 <= #[trigger] s[i] <= 15
}

/// The signs of the entries.
pub open spec fn signs(s: Seq<int>) -> Seq<int> {
    s.map_values(|v: int| sign(v))
}

pub proof fn lemma_top_sign_signs(s: Seq<int>)
    ensures
        top_sign(signs(s)) == top_sign(s),
        digits_ok(signs(s)),
    decreases s.len(),
{
    if s.len() > 0 {
        lemma_top_sign_signs(s.drop_last());
        assert(signs(s).drop_last() =~= signs(s.drop_last()));
    }
}

pub proof fn lemma_top_sign_concat(a: Seq<int>, b: Seq<int>)
    ensures
        top_sign(a + b) == if top_sign(b) != 0 {
            top_sign(b)
        } else {
            top_sign(a)
        },
    decreases b.len(),
{
    if b.len() == 0 {
        assert(a + b =~= a);
    } else {
        lemma_top_sign_concat(a, b.drop_last());
        assert((a + b).drop_last() =~= a + b.drop_last());
    }
}

/// A group of at most four entries collapses to one entry of the same top
/// sign: the sum of the signs weighted by powers of two.
proof fn lemma_group(g: Seq<int>)
    requires
        g.len() <= 4,
    ensures
        sign(value(signs(g))) == top_sign(g),
        -15 <= value(signs(g)) <= 15,
{
    lemma_top_sign_signs(g);
    lemma_value_sign(signs(g));
    lemma_value_bound(signs(g));
    lemma2_to64();
    if g.len() == 0 {
    } else if g.len() == 1 {
    } else if g.len() == 2 {
    } else if g.len() == 3 {
    } else {
    }
}

/// One level of the signum reduction and the levels below it, down to one
/// entry. Each group of `gamma` entries becomes the sum of their signs, the
/// sign of the entry at place `i` of its group weighted by `2^i` through a
/// bootstrap; the sum itself needs no bootstrap. The top sign (the sign of the
/// most significant nonzero entry) is kept at every level.
pub fn sgn_recursion_raw<K: DigitCapability>(gamma: usize, cap: &K, x: &Vec<K::Digit>) -> (r:
    Result<Vec<K::Digit>, ParmError>)
    requires
        2 <= gamma <= GROUP_SIZE,
        x.len() >= 1,
        small(vals::<K>(x@)),
    ensures
        cap.reliable() ==> r is Ok,
        r matches Ok(z) ==> {
            &&& z.len() == 1
            &&& small(vals::<K>(z@))
            &&& top_sign(vals::<K>(z@)) == top_sign(vals::<K>(x@))
            &&& x.len() == 1 ==> vals::<K>(z@) == vals::<K>(x@)
        },
        r matches Err(e) ==> e == ParmError::Capability,
    decreases x.len(),
{
    if x.len() == 1 {
        let z = take_range(cap, x, 0, 1);
        assert(vals::<K>(x@).subrange(0, 1) =~= vals::<K>(x@));
        return Ok(z);
    }
    let len = x.len();
    let ghost xs = vals::<K>(x@);
    let mut b: Vec<K::Digit> = Vec::new();
    let mut lo: usize = 0;
    assert(vals::<K>(b@) =~= Seq::<int>::empty());
    assert(xs.take(0) =~= Seq::<int>::empty());
    assert(gamma * 0 == 0) by (nonlinear_arith);
    while lo < len
        invariant
            2 <= gamma <= GROUP_SIZE,
            len == x.len() >= 2,
            xs == vals::<K>(x@),
            small(xs),
            lo <= len,
            lo < len ==> lo == gamma * b.len(),
            lo > 0 ==> b.len() >= 1,
            b.len() >= 1 ==> gamma * (b.len() - 1) < len,
            small(vals::<K>(b@)),
            top_sign(vals::<K>(b@)) == top_sign(xs.take(lo as int)),
        decreases len - lo,
    {
        let hi: usize = if len - lo >= gamma {
            lo + gamma
        } else {
            len
        };
        let ghost g = xs.subrange(lo as int, hi as int);
        let mut bj = cap.encode_trivial(0);
        let mut w: i8 = 1;
        let mut i: usize = 0;
        proof {
            lemma2_to64();
            assert(signs(g).take(0) =~= Seq::<int>::empty());
        }
        while i < hi - lo
            invariant
                lo < hi <= len,
                hi - lo <= gamma <= GROUP_SIZE,
                len == x.len(),
                xs == vals::<K>(x@),
                small(xs),
                g == xs.subrange(lo as int, hi as int),
                i <= hi - lo,
                w as int == pow2(i as nat),
                K::val(bj) == value(signs(g).take(i as int)),
            decreases hi - lo - i,
        {
            let ghost v = xs[lo + i];
            assert(v == K::val(x@[lo + i]));
            assert(-15 <= v <= 15);
            proof {
                lemma2_to64();
                if i == 0 {
                } else if i == 1 {
                } else if i == 2 {
                } else {
                }
            }
            assert(1 <= w <= 8);
            let s = cap.bootstrap(&x[lo + i], StepFn::SignTimes(w))?;
            proof {
                let sg = signs(g);
                assert(sg[i as int] == sign(v));
                if v > 0 {
                    assert(sign(v) * pow2(i as nat) == w);
                } else if v < 0 {
                    assert(sign(v) * pow2(i as nat) == -w);
                } else {
                    assert(sign(v) * pow2(i as nat) == 0);
                }
                assert(K::val(s) == sign(v) * pow2(i as nat));
                assert(sg.take(i + 1) =~= sg.take(i as int).push(sg[i as int]));
                lemma_value_push(sg.take(i as int), sg[i as int]);
                lemma_top_sign_signs(g);
                assert(digits_ok(sg.take(i + 1))) by {
                    assert forall|q: int| 0 <= q < i + 1 implies is_digit(
                        #[trigger] sg.take(i + 1)[q],
                    ) by {
                        assert(sg.take(i + 1)[q] == sg[q]);
                    }
                }
                lemma_value_bound(sg.take(i + 1));
                lemma2_to64();
                if i == 0 {
                } else if i == 1 {
                } else if i == 2 {
                } else {
                }
            }
            bj = cap.add_digit(&bj, &s);
            proof {
                lemma_pow2_unfold((i + 1) as nat);
            }
            assert(w <= 8);
            w = w * 2;
            i += 1;
        }
        proof {
            assert(signs(g).take((hi - lo) as int) =~= signs(g));
            lemma_group(g);
            let bs = vals::<K>(b@);
            lemma_vals_push::<K>(b@, bj);
            assert(xs.take(hi as int) =~= xs.take(lo as int) + g);
            lemma_top_sign_concat(xs.take(lo as int), g);
            assert(vals::<K>(b@.push(bj)).drop_last() =~= bs);
            assert forall|q: int| 0 <= q < b.len() + 1 implies -15 <= #[trigger] vals::<K>(
                b@.push(bj),
            )[q] <= 15 by {
                if q < b.len() {
                    assert(vals::<K>(b@.push(bj))[q] == bs[q]);
                }
            }
            assert(gamma * (b.len() + 1) == gamma * b.len() + gamma) by (nonlinear_arith);
        }
        b.push(bj);
        lo = hi;
    }
    proof {
        assert(xs.take(len as int) =~= xs);
        assert(gamma * (b.len() - 1) >= 2 * (b.len() - 1)) by (nonlinear_arith)
            requires
                gamma >= 2,
                b.len() >= 1,
        ;
    }
    sgn_recursion_raw(gamma, cap, &b)
}

/// Signum of an encrypted integer: one digit holding `-1`, `0` or `1`. The
/// empty integer is read as zero.
pub fn sgn_impl<K: DigitCapability>(cap: &K, x: &Vec<K::Digit>) -> (r: Result<
    Vec<K::Digit>,
    ParmError,
>)
    requires
        wf_digits::<K>(x@),
    ensures
        cap.reliable() ==> r is Ok,
        r matches Ok(z) ==> {
            &&& z.len() == 1
            &&& wf_digits::<K>(z@)
            &&& K::val(z@[0]) == sign(cvalue::<K>(x@))
            &&& cvalue::<K>(z@) == sign(cvalue::<K>(x@))
        },
        r matches Err(e) ==> e == ParmError::Capability,
{
    proof {
        lemma_value_sign(vals::<K>(x@));
        assert(small(vals::<K>(x@))) by {
            assert forall|i: int| 0 <= i < x.len() implies -15 <= #[trigger] vals::<K>(x@)[i]
                <= 15 by {
                assert(is_digit(vals::<K>(x@)[i]));
            }
        }
    }
    let s_raw = if x.len() == 0 {
        let z = triv_zeros(cap, 1);
        assert(vals::<K>(x@) =~= Seq::<int>::empty());
        assert(z@[0] == z@[0]);
        assert(vals::<K>(z@)[0] == 0);
        assert(vals::<K>(z@).drop_last() =~= Seq::<int>::empty());
        z
    } else {
        sgn_recursion_raw(GROUP_SIZE, cap, x)?
    };
    let ghost v0 = vals::<K>(s_raw@)[0];
    assert(v0 == K::val(s_raw@[0]));
    assert(vals::<K>(s_raw@).drop_last() =~= Seq::<int>::empty());
    assert(top_sign(vals::<K>(s_raw@)) == sign(v0)) by {
        reveal_with_fuel(top_sign, 2);
        assert(vals::<K>(s_raw@).last() == v0);
    }
    let s = cap.bootstrap(&s_raw[0], StepFn::SignTimes(1))?;
    let mut z: Vec<K::Digit> = Vec::new();
    z.push(s);
    proof {
        assert(vals::<K>(z@) =~= seq![K::val(s)]);
        assert(vals::<K>(z@).drop_last() =~= Seq::<int>::empty());
        reveal_with_fuel(value, 2);
        lemma2_to64();
        assert(vals::<K>(z@)[0] == K::val(s));
        assert(is_digit(vals::<K>(z@)[0]));
        let zs = vals::<K>(z@);
        assert(value(zs) == value(zs.drop_last()) + zs.last() * pow2(0));
        assert(value(zs.drop_last()) == 0);
        assert(zs.last() * 1 == zs.last());
    }
    Ok(z)
}

} // verus!
