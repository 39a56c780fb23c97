use vstd::prelude::*;
use vstd::arithmetic::power2::pow2;

use crate::capability::DigitCapability;
use crate::digits::{
    is_digit, vals, wf_digits, cvalue, lemma_value_concat, lemma_value_zeros,
};

verus! {

pub open spec fn zeros(n: nat) -> Seq<int> {
    Seq::new(n, |i: int| 0int)
}

pub open spec fn max_len(a: nat, b: nat) -> nat {
    if a >= b {
        a
    } else {
        b
    }
}

/// Length of a sum or difference of operands of lengths `a` and `b`.
pub open spec fn sum_len(a: nat, b: nat) -> nat {
    if a == 0 && b == 0 {
        0
    } else {
        max_len(a, b) + 1
    }
}

/// `n` trivial zero digits.
pub fn triv_zeros<K: DigitCapability>(cap: &K, n: usize) -> (r: Vec<K::Digit>)
    ensures
        vals::<K>(r@) == zeros(n as nat),
        r.len() == n,
        cvalue::<K>(r@) == 0,
        wf_digits::<K>(r@),
        forall|k: int| 0 <= k < n ==> K::trivial(#[trigger] r@[k]),
{
    let mut r: Vec<K::Digit> = Vec::new();
    let mut i: usize = 0;
    while i < n
        invariant
            i <= n,
            r.len() == i,
            forall|k: int| 0 <= k < i ==> K::val(#[trigger] r@[k]) == 0,
            forall|k: int| 0 <= k < i ==> K::trivial(#[trigger] r@[k]),
        decreases n - i,
    {
        r.push(cap.encode_trivial(0));
        i += 1;
    }
    assert(vals::<K>(r@) =~= zeros(n as nat));
    proof {
        lemma_value_zeros(zeros(n as nat));
    }
    r
}

/// Copy of `x` followed by trivial zero digits up to length `n`.
pub fn pad_to<K: DigitCapability>(cap: &K, x: &Vec<K::Digit>, n: usize) -> (r: Vec<K::Digit>)
    requires
        x.len() <= n,
    ensures
        r.len() == n,
        vals::<K>(r@) == vals::<K>(x@) + zeros((n - x.len()) as nat),
        cvalue::<K>(r@) == cvalue::<K>(x@),
        wf_digits::<K>(x@) ==> wf_digits::<K>(r@),
{
    let mut r: Vec<K::Digit> = Vec::new();
    let mut i: usize = 0;
    while i < n
        invariant
            i <= n,
            x.len() <= n,
            r.len() == i,
            forall|k: int|
                0 <= k < i ==> K::val(#[trigger] r@[k]) == if k < x.len() {
                    K::val(x@[k])
                } else {
                    0
                },
        decreases n - i,
    {
        if i < x.len() {
            r.push(cap.duplicate(&x[i]));
        } else {
            r.push(cap.encode_trivial(0));
        }
        i += 1;
    }
    let ghost z = zeros((n - x.len()) as nat);
    assert(vals::<K>(r@) =~= vals::<K>(x@) + z);
    proof {
        lemma_value_concat(vals::<K>(x@), z);
        lemma_value_zeros(z);
        if wf_digits::<K>(x@) {
            assert forall|k: int| 0 <= k < r.len() implies is_digit(#[trigger] vals::<K>(r@)[k]) by {
                if k < x.len() {
                    assert(vals::<K>(x@)[k] == K::val(x@[k]));
                }
            }
        }
    }
    r
}

pub proof fn lemma_vals_concat<K: DigitCapability>(a: Seq<K::Digit>, b: Seq<K::Digit>)
    ensures
        vals::<K>(a + b) == vals::<K>(a) + vals::<K>(b),
        cvalue::<K>(a + b) == cvalue::<K>(a) + pow2(a.len()) * cvalue::<K>(b),
        wf_digits::<K>(a) && wf_digits::<K>(b) ==> wf_digits::<K>(a + b),
{
    assert(vals::<K>(a + b) =~= vals::<K>(a) + vals::<K>(b));
    lemma_value_concat(vals::<K>(a), vals::<K>(b));
    if wf_digits::<K>(a) && wf_digits::<K>(b) {
        assert forall|k: int| 0 <= k < a.len() + b.len() implies is_digit(
            #[trigger] vals::<K>(a + b)[k],
        ) by {
            if k < a.len() {
                assert(vals::<K>(a + b)[k] == vals::<K>(a)[k]);
            } else {
                assert(vals::<K>(a + b)[k] == vals::<K>(b)[k - a.len()]);
            }
        }
    }
}

/// `a` followed by `b`: the integer `a + 2^len(a) * b`.
pub fn concat<K: DigitCapability>(a: Vec<K::Digit>, b: Vec<K::Digit>) -> (r: Vec<K::Digit>)
    ensures
        r@ == a@ + b@,
        r.len() == a.len() + b.len(),
        vals::<K>(r@) == vals::<K>(a@) + vals::<K>(b@),
        cvalue::<K>(r@) == cvalue::<K>(a@) + pow2(a.len() as nat) * cvalue::<K>(b@),
        wf_digits::<K>(a@) && wf_digits::<K>(b@) ==> wf_digits::<K>(r@),
{
    let ghost a0 = a@;
    let ghost b0 = b@;
    let mut r = a;
    let mut rest = b;
    r.append(&mut rest);
    proof {
        lemma_vals_concat::<K>(a0, b0);
    }
    r
}

/// Copies of the digits of `x` at positions `lo .. hi`.
pub fn take_range<K: DigitCapability>(cap: &K, x: &Vec<K::Digit>, lo: usize, hi: usize) -> (r: Vec<
    K::Digit,
>)
    requires
        lo <= hi <= x.len(),
    ensures
        r.len() == hi - lo,
        vals::<K>(r@) == vals::<K>(x@).subrange(lo as int, hi as int),
        wf_digits::<K>(x@) ==> wf_digits::<K>(r@),
{
    let mut r: Vec<K::Digit> = Vec::new();
    let mut i: usize = lo;
    while i < hi
        invariant
            lo <= i <= hi,
            hi <= x.len(),
            r.len() == i - lo,
            forall|k: int| 0 <= k < r.len() ==> K::val(#[trigger] r@[k]) == K::val(x@[lo + k]),
        decreases hi - i,
    {
        r.push(cap.duplicate(&x[i]));
        i += 1;
    }
    assert(vals::<K>(r@) =~= vals::<K>(x@).subrange(lo as int, hi as int));
    proof {
        if wf_digits::<K>(x@) {
            assert forall|k: int| 0 <= k < r.len() implies is_digit(#[trigger] vals::<K>(r@)[k]) by {
                assert(vals::<K>(r@)[k] == vals::<K>(x@)[lo + k]);
            }
        }
    }
    r
}

} // verus!
