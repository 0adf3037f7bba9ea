use bonding_curve::curve::{solve_quadratic_positive_root, LinearPriceCurve};
use bonding_curve::precise::{PreciseNumber, ONE};

fn curve(sn: u64, sd: u64, an: u64, ad: u64) -> LinearPriceCurve {
    LinearPriceCurve {
        slope_numerator: sn,
        slope_denominator: sd,
        initial_token_a_price_numerator: an,
        initial_token_a_price_denominator: ad,
    }
}

fn whole(n: u128) -> PreciseNumber {
    PreciseNumber::new(n).unwrap()
}

#[test]
fn worked_example_half_b_squared() {
    let c = curve(1, 1, 0, 1);
    assert_eq!(c.swap_a_to_b(2, 0, 1000), Some((2, 2)));
}

#[test]
fn fee_adjusted_example_marginal_price_fifty() {
    let c = curve(1, 2, 50, 1);
    // 50 collateral moves the position to just under one bonded token
    let b = c.b_value_with_amt_a_locked_quadratic(&whole(50), false).unwrap();
    assert_eq!(b.value, 995_048_000_000);
    assert!(b.value > ONE * 99 / 100 && b.value < ONE);
    // the payout is floored
    assert_eq!(c.swap_a_to_b(50, 0, 300 * 100_000_000), Some((50, 0)));
}

#[test]
fn locked_a_increases_with_position() {
    let c = curve(1, 2, 50, 1);
    let mut last = c.amt_a_locked_at_b_value_quadratic(&whole(0)).unwrap().value;
    assert_eq!(last, 0);
    for b in [1u128, 2, 10, 1000, 30_000_000_000] {
        let now = c.amt_a_locked_at_b_value_quadratic(&whole(b)).unwrap().value;
        assert!(last < now);
        last = now;
    }
    assert_eq!(c.amt_a_locked_at_b_value_quadratic(&whole(10)).unwrap().value, 525 * ONE);
    assert_eq!(curve(1, 1, 0, 1).amt_a_locked_at_b_value_quadratic(&whole(2)).unwrap().value, 2 * ONE);
}

#[test]
fn position_from_locked_a_inverts_the_curve() {
    let c = curve(1, 2, 50, 1);
    for b in [0u128, 1, 10, 1000] {
        let locked = c.amt_a_locked_at_b_value_quadratic(&whole(b)).unwrap();
        for up in [false, true] {
            let back = c.b_value_with_amt_a_locked_quadratic(&locked, up).unwrap();
            assert_eq!(back.value, b * ONE);
        }
    }
}

#[test]
fn solver_finds_positive_root() {
    // x^2 + 0x - 9 = 0
    let r = solve_quadratic_positive_root(&whole(1), &whole(1), &whole(0), &whole(1), &whole(9), false);
    assert_eq!(r.unwrap().value, 3 * ONE);
    // division by a zero coefficient fails
    let r = solve_quadratic_positive_root(&whole(0), &whole(1), &whole(0), &whole(1), &whole(9), false);
    assert!(r.is_none());
}

#[test]
fn swaps_stay_within_reserves() {
    let c = curve(1, 2, 50, 1);
    let (paid, got) = c.swap_a_to_b(123_456_789, 0, 30_000_000_000).unwrap();
    assert_eq!((paid, got), (123_456_789, 22_122));
    assert!(got <= 30_000_000_000);
    let (paid, got) = c.swap_b_to_a(1000, 30_000_000_000, 1_000_000).unwrap();
    assert_eq!((paid, got), (1000, 750_997));
    assert!(got <= 1_000_000);
}

#[test]
fn round_trip_returns_no_more_than_paid() {
    let c = curve(1, 2, 50, 1);
    let (paid, got) = c.swap_a_to_b(1_000_000, 0, 30_000_000_000).unwrap();
    assert_eq!((paid, got), (1_000_000, 1902));
    let (_, back) = c.swap_b_to_a(got, 30_000_000_000 - got, 1_000_000).unwrap();
    assert_eq!(back, 999_949);
    assert!(back <= paid);
    let (paid, got) = c.swap_a_to_b(123_456_789, 0, 30_000_000_000).unwrap();
    let (_, back) = c.swap_b_to_a(got, 0, paid).unwrap();
    assert_eq!(back, 123_456_738);
    assert!(back <= paid);
}

#[test]
fn exact_drain_amount_buys_whole_reserve() {
    let c = curve(1, 1, 0, 1);
    // 0.5 * 1000^2 buys all 1000
    assert_eq!(c.swap_a_to_b(500_000, 0, 1000), Some((500_000, 1000)));
    // more than that pays only what draining takes
    assert_eq!(c.swap_a_to_b(1_000_000_000, 0, 1000), Some((500_000, 1000)));
    // one unit less goes through the curve
    assert_eq!(c.swap_a_to_b(499_999, 0, 1000), Some((499_999, 999)));
}

#[test]
fn selling_past_zero_drains_collateral() {
    let c = curve(1, 1, 0, 1);
    // 2 collateral sits at position 2: selling 100 takes only 2
    assert_eq!(c.swap_b_to_a(100, 0, 2), Some((2, 2)));
    assert_eq!(c.swap_b_to_a(1, 998, 2), Some((1, 1)));
    assert_eq!(c.swap_b_to_a(1902, 0, 1_000_000), Some((1414, 1_000_000)));
}

#[test]
fn uncomputable_drain_check_fails_the_swap() {
    // the locked collateral at the end of the reserve overflows
    assert_eq!(curve(1, 4, 0, 1).swap_a_to_b(72_000_000_000_000_000_000_000_000, 0, 20_000_000_000_000), None);
    // the reserve itself does not fit the fixed-point form
    assert_eq!(curve(1, 1, 0, 1).swap_a_to_b(2, 0, u128::MAX), None);
}

#[test]
fn constructor_rejects_zero_denominators() {
    assert!(LinearPriceCurve::new(1, 0, 50, 1).is_none());
    assert!(LinearPriceCurve::new(1, 2, 50, 0).is_none());
    let c = LinearPriceCurve::new(1, 2, 50, 1).unwrap();
    assert_eq!((c.slope_numerator, c.slope_denominator), (1, 2));
    assert_eq!((c.initial_token_a_price_numerator, c.initial_token_a_price_denominator), (50, 1));
}

#[test]
fn malformed_curve_fails() {
    assert_eq!(curve(1, 0, 0, 1).swap_a_to_b(5, 0, 10), None);
    assert_eq!(curve(3, 1, 0, 0).swap_b_to_a(5, 0, 10), None);
}

#[test]
fn position_recovery_is_accurate_on_launch_curve() {
    let c = curve(1, 2, 50, 1);
    for reserve_a in [0u128, 1_000_000, 123_456_789] {
        let a = whole(reserve_a);
        let b_start = c.b_value_with_amt_a_locked_quadratic(&a, true).unwrap();
        // the curve at the rounded-up position comes within a unit of the collateral
        let locked = c.amt_a_locked_at_b_value_quadratic(&b_start).unwrap();
        assert!(locked.value + ONE > a.value);
    }
}
