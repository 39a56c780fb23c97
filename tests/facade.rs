use parmesan::arithmetics::ParmArithmetics;
use parmesan::encryption::{parm_decrypt, parm_encrypt};
use parmesan::error::ParmError;
use parmesan::simulator::{PlainCapability, PlainDigit};

type Ct = Vec<PlainDigit>;
type Cap = PlainCapability;

fn enc(cap: &Cap, m: i32, bits: usize) -> Ct {
    parm_encrypt(cap, &(), m, bits).unwrap()
}

fn dec(x: &Ct) -> i128 {
    let mut acc: i128 = 0;
    for d in x.iter().rev() {
        acc = acc.checked_mul(2).unwrap().checked_add(d.value as i128).unwrap();
    }
    acc
}

fn plain(v: i64) -> i64 {
    v
}

#[test]
fn oracle_equivalence_binary_operations() {
    let cap = Cap::new();
    let xs = [-100i32, -17, -1, 0, 1, 5, 63, 100];
    let ys = [-31i32, -3, 0, 2, 31];
    for &x in xs.iter() {
        for &y in ys.iter() {
            for (cx, cy) in [(enc(&cap, x, 8), enc(&cap, y, 6)), (enc(&cap, x, 9), enc(&cap, y, 9))] {
                let (px, py) = (plain(x as i64), plain(y as i64));
                let checks: [(Ct, i64); 4] = [
                    (
                        <Ct as ParmArithmetics<Cap>>::add(&cap, &cx, &cy).unwrap(),
                        <i64 as ParmArithmetics<Cap>>::add(&cap, &px, &py).unwrap(),
                    ),
                    (
                        <Ct as ParmArithmetics<Cap>>::sub(&cap, &cx, &cy).unwrap(),
                        <i64 as ParmArithmetics<Cap>>::sub(&cap, &px, &py).unwrap(),
                    ),
                    (
                        <Ct as ParmArithmetics<Cap>>::mul(&cap, &cx, &cy).unwrap(),
                        <i64 as ParmArithmetics<Cap>>::mul(&cap, &px, &py).unwrap(),
                    ),
                    (
                        <Ct as ParmArithmetics<Cap>>::max(&cap, &cx, &cy).unwrap(),
                        <i64 as ParmArithmetics<Cap>>::max(&cap, &px, &py).unwrap(),
                    ),
                ];
                for (c, p) in checks.iter() {
                    assert_eq!(dec(c), *p as i128, "x = {}, y = {}", x, y);
                }
                let swapped = <Ct as ParmArithmetics<Cap>>::sub(&cap, &cy, &cx).unwrap();
                assert_eq!(dec(&swapped), (y - x) as i128);
                let swapped = <Ct as ParmArithmetics<Cap>>::max(&cap, &cy, &cx).unwrap();
                assert_eq!(dec(&swapped), x.max(y) as i128);
            }
        }
    }
}

#[test]
fn oracle_equivalence_unary_operations() {
    let cap = Cap::new();
    for x in -40i32..=40 {
        let cx = enc(&cap, x, 7);
        let px = x as i64;
        assert_eq!(dec(&<Ct as ParmArithmetics<Cap>>::opp(&cap, &cx)), -(x as i128));
        assert_eq!(<i64 as ParmArithmetics<Cap>>::opp(&cap, &px), -px);
        let pairs: [(Ct, i64); 4] = [
            (
                <Ct as ParmArithmetics<Cap>>::sgn(&cap, &cx).unwrap(),
                <i64 as ParmArithmetics<Cap>>::sgn(&cap, &px).unwrap(),
            ),
            (
                <Ct as ParmArithmetics<Cap>>::relu(&cap, &cx).unwrap(),
                <i64 as ParmArithmetics<Cap>>::relu(&cap, &px).unwrap(),
            ),
            (
                <Ct as ParmArithmetics<Cap>>::squ(&cap, &cx).unwrap(),
                <i64 as ParmArithmetics<Cap>>::squ(&cap, &px).unwrap(),
            ),
            (
                <Ct as ParmArithmetics<Cap>>::add_const(&cap, &cx, -1000).unwrap(),
                <i64 as ParmArithmetics<Cap>>::add_const(&cap, &px, -1000).unwrap(),
            ),
        ];
        for (c, p) in pairs.iter() {
            assert_eq!(dec(c), *p as i128, "x = {}", x);
        }
        for k in [-7i32, -1, 0, 1, 3, 12345] {
            let c = <Ct as ParmArithmetics<Cap>>::scalar_mul(&cap, k, &cx).unwrap();
            let p = <i64 as ParmArithmetics<Cap>>::scalar_mul(&cap, k, &px).unwrap();
            assert_eq!(dec(&c), p as i128);
        }
        for pos in 0..7usize {
            let c = <Ct as ParmArithmetics<Cap>>::round_at(&cap, &cx, pos).unwrap();
            let p = <i64 as ParmArithmetics<Cap>>::round_at(&cap, &px, pos).unwrap();
            assert_eq!(dec(&c), p as i128, "x = {}, pos = {}", x, pos);
        }
    }
}

#[test]
fn add_zero_and_opposite() {
    let cap = Cap::new();
    for x in [-9i32, 0, 14] {
        let cx = enc(&cap, x, 5);
        let zero = <Ct as ParmArithmetics<Cap>>::zero();
        assert_eq!(dec(&<Ct as ParmArithmetics<Cap>>::add(&cap, &cx, &zero).unwrap()), x as i128);
        let neg = <Ct as ParmArithmetics<Cap>>::opp(&cap, &cx);
        assert_eq!(dec(&<Ct as ParmArithmetics<Cap>>::add(&cap, &cx, &neg).unwrap()), 0);
        let px = x as i64;
        let pz = <i64 as ParmArithmetics<Cap>>::zero();
        assert_eq!(<i64 as ParmArithmetics<Cap>>::add(&cap, &px, &pz).unwrap(), px);
    }
}

#[test]
fn add_and_mul_commute() {
    let cap = Cap::new();
    let cx = enc(&cap, -77, 8);
    let cy = enc(&cap, 45, 6);
    let a = <Ct as ParmArithmetics<Cap>>::add(&cap, &cx, &cy).unwrap();
    let b = <Ct as ParmArithmetics<Cap>>::add(&cap, &cy, &cx).unwrap();
    assert_eq!(dec(&a), dec(&b));
    let a = <Ct as ParmArithmetics<Cap>>::mul(&cap, &cx, &cy).unwrap();
    let b = <Ct as ParmArithmetics<Cap>>::mul(&cap, &cy, &cx).unwrap();
    assert_eq!(dec(&a), dec(&b));
    assert_eq!(dec(&a), -77 * 45);
}

#[test]
fn scenario_five_and_minus_three() {
    let cap = Cap::new();
    let x = enc(&cap, 5, 8);
    let y = enc(&cap, -3, 8);
    let sum = <Ct as ParmArithmetics<Cap>>::add(&cap, &x, &y).unwrap();
    assert_eq!(parm_decrypt(&cap, &(), &sum).unwrap(), 2);
    let prod = <Ct as ParmArithmetics<Cap>>::mul(&cap, &x, &y).unwrap();
    assert_eq!(dec(&prod), -15);
    let s = <Ct as ParmArithmetics<Cap>>::sgn(&cap, &prod).unwrap();
    assert_eq!(parm_decrypt(&cap, &(), &s).unwrap(), -1);
    let sq = <Ct as ParmArithmetics<Cap>>::squ(&cap, &x).unwrap();
    assert_eq!(dec(&sq), 25);
}

#[test]
fn sgn_plain_and_encrypted_zero() {
    let cap = Cap::new();
    assert_eq!(<i64 as ParmArithmetics<Cap>>::sgn(&cap, &0).unwrap(), 0);
    assert_eq!(<i64 as ParmArithmetics<Cap>>::sgn(&cap, &-8).unwrap(), -1);
    assert_eq!(<i64 as ParmArithmetics<Cap>>::sgn(&cap, &8).unwrap(), 1);
    let z = enc(&cap, 0, 8);
    assert_eq!(dec(&<Ct as ParmArithmetics<Cap>>::sgn(&cap, &z).unwrap()), 0);
}

#[test]
fn round_at_example_and_identity() {
    let cap = Cap::new();
    assert_eq!(<i64 as ParmArithmetics<Cap>>::round_at(&cap, &0b1011, 2).unwrap(), 0b1100);
    assert_eq!(<i64 as ParmArithmetics<Cap>>::round_at(&cap, &0b1001, 2).unwrap(), 0b1000);
    assert_eq!(<i64 as ParmArithmetics<Cap>>::round_at(&cap, &-0b1011, 2).unwrap(), -0b1100);
    assert_eq!(<i64 as ParmArithmetics<Cap>>::round_at(&cap, &12345, 0).unwrap(), 12345);
    let c = enc(&cap, 0b1011, 5);
    assert_eq!(dec(&<Ct as ParmArithmetics<Cap>>::round_at(&cap, &c, 2).unwrap()), 0b1100);
    assert_eq!(dec(&<Ct as ParmArithmetics<Cap>>::round_at(&cap, &c, 0).unwrap()), 0b1011);
}

#[test]
fn round_at_refuses_position_beyond_width() {
    let cap = Cap::new();
    assert_eq!(
        <i64 as ParmArithmetics<Cap>>::round_at(&cap, &5, 63),
        Err(ParmError::RoundingPosition(63))
    );
    assert_eq!(<i64 as ParmArithmetics<Cap>>::round_at(&cap, &5, 62).unwrap(), 0);
    let c = enc(&cap, 5, 4);
    assert_eq!(
        <Ct as ParmArithmetics<Cap>>::round_at(&cap, &c, 4),
        Err(ParmError::RoundingPosition(4))
    );
    assert_eq!(dec(&<Ct as ParmArithmetics<Cap>>::round_at(&cap, &c, 3).unwrap()), 8);
}

#[test]
fn facade_mul_refuses_long_operands() {
    let cap = Cap::new();
    let x = enc(&cap, 3, 40);
    let y = enc(&cap, 3, 4);
    assert_eq!(
        <Ct as ParmArithmetics<Cap>>::mul(&cap, &x, &y),
        Err(ParmError::LengthExceeded(40))
    );
    assert_eq!(<Ct as ParmArithmetics<Cap>>::squ(&cap, &x), Err(ParmError::LengthExceeded(40)));
}

#[test]
fn facade_capability_failure() {
    let good = Cap::new();
    let bad = Cap::failing();
    let x = enc(&good, 6, 4);
    assert_eq!(<Ct as ParmArithmetics<Cap>>::sgn(&bad, &x), Err(ParmError::Capability));
    assert_eq!(<Ct as ParmArithmetics<Cap>>::max(&bad, &x, &x), Err(ParmError::Capability));
    assert_eq!(<Ct as ParmArithmetics<Cap>>::add_const(&bad, &x, 1), Err(ParmError::Capability));
    assert_eq!(<Ct as ParmArithmetics<Cap>>::round_at(&bad, &x, 2), Err(ParmError::Capability));
}

#[test]
fn zero_is_empty_sequence() {
    let z = <Ct as ParmArithmetics<Cap>>::zero();
    assert!(z.is_empty());
    let cap = Cap::new();
    assert_eq!(parm_decrypt(&cap, &(), &z).unwrap(), 0);
}

#[test]
fn facade_result_lengths() {
    let cap = Cap::new();
    let x = enc(&cap, 5, 8);
    let y = enc(&cap, -3, 6);
    assert_eq!(<Ct as ParmArithmetics<Cap>>::add(&cap, &x, &y).unwrap().len(), 9);
    assert_eq!(<Ct as ParmArithmetics<Cap>>::sub(&cap, &y, &x).unwrap().len(), 9);
    assert_eq!(<Ct as ParmArithmetics<Cap>>::sgn(&cap, &x).unwrap().len(), 1);
    let c = <Ct as ParmArithmetics<Cap>>::add_const(&cap, &x, 5).unwrap();
    assert_eq!(c.len(), 9);
    assert_eq!(parm_decrypt(&cap, &(), &c).unwrap(), 10);
    let c = <Ct as ParmArithmetics<Cap>>::add_const(&cap, &enc(&cap, 1, 2), -1000).unwrap();
    assert_eq!(c.len(), 11);
    assert_eq!(parm_decrypt(&cap, &(), &c).unwrap(), -999);
    assert!(<Ct as ParmArithmetics<Cap>>::scalar_mul(&cap, -77, &x).unwrap().len() <= 8 + 32);
    assert!(<Ct as ParmArithmetics<Cap>>::max(&cap, &x, &y).unwrap().len() <= 10);
    assert_eq!(<Ct as ParmArithmetics<Cap>>::round_at(&cap, &x, 2).unwrap().len(), 10);
    assert_eq!(<Ct as ParmArithmetics<Cap>>::round_at(&cap, &x, 0).unwrap().len(), 8);
}

#[test]
fn chained_operations_decrypt() {
    let cap = Cap::new();
    let x = enc(&cap, 5, 8);
    let y = enc(&cap, -3, 8);
    let m = <Ct as ParmArithmetics<Cap>>::mul(&cap, &x, &y).unwrap();
    assert_eq!(parm_decrypt(&cap, &(), &m).unwrap(), -15);
    let s = <Ct as ParmArithmetics<Cap>>::sgn(&cap, &m).unwrap();
    assert_eq!(parm_decrypt(&cap, &(), &s).unwrap(), -1);
    let q = <Ct as ParmArithmetics<Cap>>::squ(&cap, &x).unwrap();
    assert_eq!(parm_decrypt(&cap, &(), &q).unwrap(), 25);
}

#[test]
fn plain_reference_needs_no_capability() {
    let bad = Cap::failing();
    assert_eq!(<i64 as ParmArithmetics<Cap>>::add(&bad, &2, &3).unwrap(), 5);
    assert_eq!(<i64 as ParmArithmetics<Cap>>::mul(&bad, &-2, &3).unwrap(), -6);
    assert_eq!(<i64 as ParmArithmetics<Cap>>::sgn(&bad, &-4).unwrap(), -1);
}

#[test]
fn round_at_high_position_plain() {
    let cap = Cap::new();
    let big: i64 = 1 << 62;
    assert_eq!(
        <i64 as ParmArithmetics<Cap>>::round_at(&cap, &big, 63),
        Err(ParmError::RoundingPosition(63))
    );
}
