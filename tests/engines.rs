use parmesan::addition::add_sub_noise_refresh;
use parmesan::encryption::{encode_digits, parm_decrypt, parm_encrypt};
use parmesan::error::ParmError;
use parmesan::multiplication::{mul_impl, mul_lwe};
use parmesan::signum::{sgn_impl, sgn_recursion_raw};
use parmesan::simulator::{PlainCapability, PlainDigit};
use parmesan::squaring::{squ_impl, squ_lwe};

fn enc(cap: &PlainCapability, m: i32, bits: usize) -> Vec<PlainDigit> {
    parm_encrypt(cap, &(), m, bits).unwrap()
}

fn value_of(x: &[PlainDigit]) -> i128 {
    let mut acc: i128 = 0;
    for d in x.iter().rev() {
        acc = acc.checked_mul(2).unwrap().checked_add(d.value as i128).unwrap();
    }
    acc
}

fn digits_ok(x: &[PlainDigit]) -> bool {
    x.iter().all(|d| d.value >= -1 && d.value <= 1)
}

#[test]
fn encrypt_decrypt_round_trip() {
    let cap = PlainCapability::new();
    for m in [-255, -100, -5, -1, 0, 1, 3, 5, 77, 255] {
        let c = enc(&cap, m, 8);
        assert_eq!(c.len(), 8);
        assert!(digits_ok(&c));
        assert_eq!(parm_decrypt(&cap, &(), &c).unwrap(), m as i64);
    }
}

#[test]
fn encrypt_digits_are_signed_bits() {
    let cap = PlainCapability::new();
    let c = enc(&cap, -5, 4);
    let vals: Vec<i8> = c.iter().map(|d| d.value).collect();
    assert_eq!(vals, vec![-1, 0, -1, 0]);
    assert!(c.iter().all(|d| !d.triv));
}

#[test]
fn encrypt_truncates_to_width() {
    let cap = PlainCapability::new();
    let c = enc(&cap, 19, 4);
    assert_eq!(parm_decrypt(&cap, &(), &c).unwrap(), 3);
    let c = enc(&cap, -19, 4);
    assert_eq!(parm_decrypt(&cap, &(), &c).unwrap(), -3);
}

#[test]
fn encode_digits_of_minimum() {
    let d = encode_digits(i64::MIN, 64);
    assert_eq!(d[63], -1);
    assert!(d[..63].iter().all(|&v| v == 0));
}

#[test]
fn decrypt_ignores_digits_outside_alphabet() {
    let cap = PlainCapability::new();
    let c = vec![
        PlainDigit { value: 1, triv: false },
        PlainDigit { value: 3, triv: false },
        PlainDigit { value: -1, triv: false },
    ];
    assert_eq!(parm_decrypt(&cap, &(), &c).unwrap(), 1 - 4);
}

#[test]
fn failing_capability_reports_error() {
    let cap = PlainCapability::failing();
    assert_eq!(parm_encrypt(&cap, &(), 5, 8), Err(ParmError::Capability));
    let x = vec![PlainDigit { value: 1, triv: false }];
    assert_eq!(parm_decrypt(&cap, &(), &x), Err(ParmError::Capability));
    assert_eq!(add_sub_noise_refresh(true, &cap, &x, &x), Err(ParmError::Capability));
    assert_eq!(mul_impl(&cap, &x, &x), Err(ParmError::Capability));
}

#[test]
fn adder_sums_and_lengths() {
    let cap = PlainCapability::new();
    for (a, la) in [(-100, 8), (37, 7), (0, 3), (127, 8)] {
        for (b, lb) in [(-1, 2), (90, 8), (-127, 8), (5, 4)] {
            let x = enc(&cap, a, la);
            let y = enc(&cap, b, lb);
            let s = add_sub_noise_refresh(true, &cap, &x, &y).unwrap();
            let d = add_sub_noise_refresh(false, &cap, &x, &y).unwrap();
            assert_eq!(value_of(&s), (a + b) as i128);
            assert_eq!(value_of(&d), (a - b) as i128);
            assert_eq!(s.len(), la.max(lb) + 1);
            assert_eq!(d.len(), la.max(lb) + 1);
            assert!(digits_ok(&s) && digits_ok(&d));
        }
    }
}

#[test]
fn adder_of_empty_operands_is_empty() {
    let cap = PlainCapability::new();
    let e: Vec<PlainDigit> = Vec::new();
    assert!(add_sub_noise_refresh(true, &cap, &e, &e).unwrap().is_empty());
    let x = enc(&cap, -3, 2);
    let s = add_sub_noise_refresh(true, &cap, &e, &x).unwrap();
    assert_eq!(value_of(&s), -3);
    assert_eq!(s.len(), 3);
}

#[test]
fn adder_length_bound() {
    let cap = PlainCapability::new();
    for la in 0..6usize {
        for lb in 0..6usize {
            let x = enc(&cap, ((1i32 << la) - 1).max(0), la);
            let y = enc(&cap, -((1i32 << lb) - 1), lb);
            let s = add_sub_noise_refresh(true, &cap, &x, &y).unwrap();
            assert!(s.len() <= la.max(lb) + 1);
        }
    }
}

#[test]
fn digit_product_all_cases() {
    let cap = PlainCapability::new();
    for a in -1i8..=1 {
        for b in -1i8..=1 {
            for (ta, tb) in [(false, false), (true, false), (false, true)] {
                let x = PlainDigit { value: a, triv: ta };
                let y = PlainDigit { value: b, triv: tb };
                assert_eq!(mul_lwe(&cap, &x, &y).unwrap().value, a * b);
            }
        }
        let x = PlainDigit { value: a, triv: false };
        assert_eq!(squ_lwe(&cap, &x).unwrap().value, a * a);
    }
}

#[test]
fn mul_small_lengths() {
    let cap = PlainCapability::new();
    for bits in 1..=6usize {
        let lim = (1i32 << bits) - 1;
        for a in [-lim, -1, 0, 1, lim / 2, lim] {
            for b in [-lim, -2 % (lim + 1), 0, lim] {
                let x = enc(&cap, a, bits);
                let y = enc(&cap, b, bits);
                let p = mul_impl(&cap, &x, &y).unwrap();
                assert_eq!(value_of(&p), (a as i128) * (b as i128));
                assert!(digits_ok(&p));
            }
        }
    }
}

#[test]
fn mul_of_empty_is_single_zero() {
    let cap = PlainCapability::new();
    let e: Vec<PlainDigit> = Vec::new();
    let p = mul_impl(&cap, &e, &e).unwrap();
    assert_eq!(p.len(), 1);
    assert_eq!(value_of(&p), 0);
    let s = squ_impl(&cap, &e).unwrap();
    assert_eq!(s.len(), 1);
    assert_eq!(value_of(&s), 0);
}

#[test]
fn mul_strategy_boundary_lengths() {
    let cap = PlainCapability::new();
    for bits in [13usize, 14, 15, 16] {
        let lim = (1i32 << bits) - 1;
        for (a, b) in [(lim, lim), (-lim, lim), (1234, -4321), (lim / 3, -(lim / 7)), (0, lim)] {
            let x = enc(&cap, a, bits);
            let y = enc(&cap, b, bits);
            let p = mul_impl(&cap, &x, &y).unwrap();
            let q = mul_impl(&cap, &y, &x).unwrap();
            assert_eq!(value_of(&p), (a as i128) * (b as i128));
            assert_eq!(value_of(&q), value_of(&p));
            assert!(digits_ok(&p));
        }
    }
}

#[test]
fn mul_mixed_lengths() {
    let cap = PlainCapability::new();
    let x = enc(&cap, -3, 2);
    let y = enc(&cap, 20000, 16);
    assert_eq!(value_of(&mul_impl(&cap, &x, &y).unwrap()), -60000);
    assert_eq!(value_of(&mul_impl(&cap, &y, &x).unwrap()), -60000);
}

#[test]
fn mul_thirty_two_digits() {
    let cap = PlainCapability::new();
    let a = i32::MAX;
    let b = -1_999_999_999;
    let x = enc(&cap, a, 32);
    let y = enc(&cap, b, 32);
    let p = mul_impl(&cap, &x, &y).unwrap();
    assert_eq!(value_of(&p), (a as i128) * (b as i128));
    assert!(p.len() <= 8 * 32 + 8);
}

#[test]
fn mul_too_long_is_refused() {
    let cap = PlainCapability::new();
    let x = enc(&cap, 1, 33);
    let y = enc(&cap, 1, 2);
    assert_eq!(mul_impl(&cap, &x, &y), Err(ParmError::LengthExceeded(33)));
    assert_eq!(squ_impl(&cap, &x), Err(ParmError::LengthExceeded(33)));
}

#[test]
fn squ_matches_mul_every_length() {
    let cap = PlainCapability::new();
    for bits in 1..=32usize {
        let m: i32 = if bits >= 31 { i32::MAX - 12345 } else { (1i32 << bits) - 3 };
        for v in [m, -m, m / 5] {
            let x = enc(&cap, v, bits);
            let s = squ_impl(&cap, &x).unwrap();
            let p = mul_impl(&cap, &x, &x).unwrap();
            assert_eq!(value_of(&s), (v as i128) * (v as i128), "length {}", bits);
            assert_eq!(value_of(&s), value_of(&p));
            assert!(digits_ok(&s));
        }
    }
}

#[test]
fn squ_strategy_boundary() {
    let cap = PlainCapability::new();
    for bits in [3usize, 4] {
        for v in -((1i32 << bits) - 1)..(1i32 << bits) {
            let x = enc(&cap, v, bits);
            assert_eq!(value_of(&squ_impl(&cap, &x).unwrap()), (v * v) as i128);
        }
    }
}

#[test]
fn sgn_values_and_boundaries() {
    let cap = PlainCapability::new();
    for bits in [1usize, 4, 5, 8, 9, 16, 17] {
        let lim = (1i32 << bits) - 1;
        for v in [-lim, -1, 0, 1, lim, lim / 2, -(lim / 3)] {
            let x = enc(&cap, v, bits);
            let s = sgn_impl(&cap, &x).unwrap();
            assert_eq!(s.len(), 1);
            assert_eq!(s[0].value as i32, v.signum(), "value {} length {}", v, bits);
        }
    }
}

#[test]
fn sgn_of_empty_is_zero() {
    let cap = PlainCapability::new();
    let e: Vec<PlainDigit> = Vec::new();
    assert_eq!(sgn_impl(&cap, &e).unwrap()[0].value, 0);
}

#[test]
fn sgn_redundant_digits() {
    let cap = PlainCapability::new();
    // 1 - 2 + 4 - 8 + 16 = 11, high digit decides
    let x: Vec<PlainDigit> = [1i8, -1, 1, -1, 1]
        .iter()
        .map(|&v| PlainDigit { value: v, triv: false })
        .collect();
    assert_eq!(sgn_impl(&cap, &x).unwrap()[0].value, 1);
    // -1 + 2 + 0 + 0 + 0 + 0 + 0 + 0 - 0 ... with top digit negative
    let y: Vec<PlainDigit> = [1i8, 1, 1, 1, 1, 1, 1, -1]
        .iter()
        .map(|&v| PlainDigit { value: v, triv: false })
        .collect();
    assert_eq!(sgn_impl(&cap, &y).unwrap()[0].value, -1);
}

#[test]
fn sgn_recursion_keeps_top_sign() {
    let cap = PlainCapability::new();
    let x = enc(&cap, -37, 9);
    for gamma in 2..=4usize {
        let r = sgn_recursion_raw(gamma, &cap, &x).unwrap();
        assert_eq!(r.len(), 1);
        assert!(r[0].value < 0);
    }
}

#[test]
fn mul_of_empty_is_trivial_zero() {
    let cap = PlainCapability::new();
    let e: Vec<PlainDigit> = Vec::new();
    let p = mul_impl(&cap, &e, &e).unwrap();
    assert_eq!(p, vec![PlainDigit { value: 0, triv: true }]);
    let s = squ_impl(&cap, &e).unwrap();
    assert_eq!(s, vec![PlainDigit { value: 0, triv: true }]);
}

#[test]
fn product_lengths_are_fixed() {
    let cap = PlainCapability::new();
    let x = enc(&cap, 5, 8);
    let y = enc(&cap, -3, 8);
    assert_eq!(mul_impl(&cap, &x, &y).unwrap().len(), 23);
    assert_eq!(squ_impl(&cap, &x).unwrap().len(), 19);
    let a = enc(&cap, 1000, 14);
    let b = enc(&cap, -999, 14);
    let p = mul_impl(&cap, &a, &b).unwrap();
    assert_eq!(p.len(), 35);
    assert_eq!(mul_impl(&cap, &a, &b).unwrap().len(), p.len());
    for n in 0..=32usize {
        let v = enc(&cap, 1, n);
        assert!(mul_impl(&cap, &v, &v).unwrap().len() <= 3 * n + 2);
        assert!(squ_impl(&cap, &v).unwrap().len() <= 3 * n + 2);
    }
}

#[test]
fn one_digit_product_layout() {
    let cap = PlainCapability::new();
    let x = enc(&cap, -1, 1);
    let y = enc(&cap, 1, 1);
    let p = mul_impl(&cap, &x, &y).unwrap();
    assert_eq!(p.len(), 2);
    assert_eq!(p[0].value, -1);
    assert_eq!(p[1], PlainDigit { value: 0, triv: true });
    let s = squ_impl(&cap, &x).unwrap();
    assert_eq!(s[0].value, 1);
    assert_eq!(s[1], PlainDigit { value: 0, triv: true });
}

#[test]
fn schoolbook_length_is_three_n_minus_one() {
    let cap = PlainCapability::new();
    for n in 2..=13usize {
        let x = enc(&cap, 3, n);
        assert_eq!(mul_impl(&cap, &x, &x).unwrap().len(), 3 * n - 1);
    }
    for n in 2..=3usize {
        let x = enc(&cap, 3, n);
        assert_eq!(squ_impl(&cap, &x).unwrap().len(), 3 * n - 1);
    }
}

#[test]
fn trivial_operand_skips_bootstrap() {
    let cap = PlainCapability::failing();
    let t = PlainDigit { value: -1, triv: true };
    let x = PlainDigit { value: 1, triv: false };
    assert_eq!(mul_lwe(&cap, &t, &x).unwrap().value, -1);
    assert_eq!(mul_lwe(&cap, &x, &t).unwrap().value, -1);
    assert_eq!(mul_lwe(&cap, &x, &x), Err(ParmError::Capability));
}

#[test]
fn sgn_recursion_keeps_single_digit() {
    let cap = PlainCapability::new();
    let x = vec![PlainDigit { value: -7, triv: false }];
    assert_eq!(sgn_recursion_raw(4, &cap, &x).unwrap(), x);
}
