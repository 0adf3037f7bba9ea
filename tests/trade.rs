use bonding_curve::curve::LinearPriceCurve;
use bonding_curve::trade::{fee_of, quote_swap_to_sol, quote_swap_to_token, to_u128, to_u64, SwapAmounts, SwapError};

fn launch_curve() -> LinearPriceCurve {
    LinearPriceCurve {
        slope_numerator: 1,
        slope_denominator: 2,
        initial_token_a_price_numerator: 50,
        initial_token_a_price_denominator: 1,
    }
}

#[test]
fn fee_is_one_percent_rounded_down() {
    assert_eq!(fee_of(1_000_000), 10_000);
    assert_eq!(fee_of(19_999), 199);
    assert_eq!(fee_of(9_999), 99);
    assert_eq!(fee_of(99), 0);
    assert_eq!(fee_of(u64::MAX), u64::MAX / 100);
}

#[test]
fn conversions() {
    assert_eq!(to_u128(u64::MAX), Ok(u64::MAX as u128));
    assert_eq!(to_u64(u64::MAX as u128), Ok(u64::MAX));
    assert_eq!(to_u64(u64::MAX as u128 + 1), Err(SwapError::ConversionFailure));
}

#[test]
fn buying_takes_fee_first() {
    let q = quote_swap_to_token(&launch_curve(), 1_010_101, 0, 30_000_000_000).unwrap();
    assert_eq!(q, SwapAmounts { paid: 1_000_000, received: 1902, fee: 10_101 });
}

#[test]
fn fee_adjusted_purchase_of_fifty_buys_under_one_token() {
    // 50 gross, 0 fee: the curve reaches 0.995 of a token, floored to nothing
    assert_eq!(
        quote_swap_to_token(&launch_curve(), 50, 0, 30_000_000_000),
        Err(SwapError::ZeroTradingOutput)
    );
}

#[test]
fn selling_takes_fee_from_payout() {
    let q = quote_swap_to_sol(&launch_curve(), 1000, 30_000_000_000, 1_000_000).unwrap();
    assert_eq!(q, SwapAmounts { paid: 1000, received: 750_997 - 7509, fee: 7509 });
}

#[test]
fn selling_for_nothing_is_rejected() {
    let c = LinearPriceCurve::new(1, 1, 0, 1).unwrap();
    assert_eq!(quote_swap_to_sol(&c, 1, 0, 1), Err(SwapError::ZeroTradingOutput));
}

#[test]
fn unpriceable_trade_is_rejected() {
    let broken = LinearPriceCurve {
        slope_numerator: 1,
        slope_denominator: 0,
        initial_token_a_price_numerator: 0,
        initial_token_a_price_denominator: 1,
    };
    assert_eq!(quote_swap_to_token(&broken, 100, 0, 10), Err(SwapError::ZeroTradingTokens));
    assert_eq!(quote_swap_to_sol(&broken, 100, 10, 0), Err(SwapError::ZeroTradingTokens));
}
