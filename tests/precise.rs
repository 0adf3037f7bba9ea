use bonding_curve::precise::{PreciseNumber, ONE};

fn raw(value: u128) -> PreciseNumber {
    PreciseNumber { value }
}

#[test]
fn new_scales_and_overflows() {
    assert_eq!(PreciseNumber::new(7).unwrap().value, 7 * ONE);
    assert!(PreciseNumber::new(u128::MAX / ONE + 1).is_none());
}

#[test]
fn add_and_sub_are_checked() {
    assert_eq!(raw(5).checked_add(&raw(7)).unwrap().value, 12);
    assert!(raw(u128::MAX).checked_add(&raw(1)).is_none());
    assert_eq!(raw(7).checked_sub(&raw(5)).unwrap().value, 2);
    assert!(raw(5).checked_sub(&raw(7)).is_none());
}

#[test]
fn unsigned_sub_reports_sign() {
    let (d, neg) = raw(5).unsigned_sub(&raw(7));
    assert_eq!((d.value, neg), (2, true));
    let (d, neg) = raw(7).unsigned_sub(&raw(5));
    assert_eq!((d.value, neg), (2, false));
}

#[test]
fn mul_rounds_to_nearest() {
    let a = PreciseNumber::new(3).unwrap();
    let b = PreciseNumber::new(4).unwrap();
    assert_eq!(a.checked_mul(&b).unwrap().value, 12 * ONE);
    // 1.5e-12 * 1 rounds to 2e-12; 0.4e-12 rounds to 0
    assert_eq!(raw(3).checked_mul(&raw(ONE / 2)).unwrap().value, 2);
    assert_eq!(raw(2).checked_mul(&raw(ONE / 5)).unwrap().value, 0);
    // large operands that fit
    let big = PreciseNumber::new(10_000_000_000_000).unwrap();
    assert_eq!(big.checked_mul(&big).unwrap().value, 100_000_000_000_000_000_000_000_000 * ONE);
    assert!(big.checked_mul(&big).unwrap().checked_mul(&big).is_none());
}

#[test]
fn div_rounds_to_nearest_and_rejects_zero() {
    let one = PreciseNumber::new(1).unwrap();
    let three = PreciseNumber::new(3).unwrap();
    assert_eq!(one.checked_div(&three).unwrap().value, 333_333_333_333);
    let two = PreciseNumber::new(2).unwrap();
    assert_eq!(two.checked_div(&three).unwrap().value, 666_666_666_667);
    assert!(one.checked_div(&raw(0)).is_none());
    let big = PreciseNumber::new(u128::MAX / ONE).unwrap();
    assert_eq!(big.checked_div(&big).unwrap().value, ONE);
    assert!(big.checked_div(&raw(1)).is_none());
}

#[test]
fn floor_ceiling_and_rounding() {
    let x = raw(2 * ONE + ONE / 2);
    assert_eq!(x.floor().value, 2 * ONE);
    assert_eq!(x.ceiling().unwrap().value, 3 * ONE);
    assert_eq!(raw(2 * ONE).ceiling().unwrap().value, 2 * ONE);
    assert!(raw(u128::MAX).ceiling().is_none());
    assert_eq!(x.to_imprecise(), 3);
    assert_eq!(raw(2 * ONE + ONE / 2 - 1).to_imprecise(), 2);
    assert_eq!(raw(u128::MAX).to_imprecise(), u128::MAX / ONE);
    assert_eq!(raw(ONE + ONE / 2).to_imprecise(), 2);
}

#[test]
fn sqrt_rounds_as_asked() {
    let four = PreciseNumber::new(4).unwrap();
    assert_eq!(four.sqrt_u64(false).value, 2 * ONE);
    assert_eq!(four.sqrt_u64(true).value, 2 * ONE);
    let two = PreciseNumber::new(2).unwrap();
    assert_eq!(two.sqrt_u64(false).value, 1_414_213_000_000);
    assert_eq!(two.sqrt_u64(true).value, 1_414_214_000_000);
    assert_eq!(raw(u128::MAX).sqrt_u64(false).value, (u64::MAX as u128) * 1_000_000);
}
