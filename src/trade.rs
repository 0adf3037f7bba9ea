//! Amounts of a trade against a pool: the fee on the collateral side and the
//! conversions between ledger amounts (`u64`) and curve amounts (`u128`).
use vstd::prelude::*;
use crate::curve::LinearPriceCurve;

verus! {

/// Fee rate, in units of `DENOMINATOR`: 1%.
pub const FEE_PERCENTAGE: u16 = 100;

pub const DENOMINATOR: u16 = 10000;

#[derive(Clone, Copy, Debug, PartialEq, Eq, Structural)]
pub enum SwapError {
    /// An amount does not fit the ledger's integer type.
    ConversionFailure,
    /// The curve could not price the trade.
    ZeroTradingTokens,
    /// The trade was priced but would pay out nothing.
    ZeroTradingOutput,
}

/// What a trade moves: `paid` from the trader into the pool, `received` from
/// the pool to the trader, and `fee` to the fee account.
#[derive(Clone, Copy, Debug, PartialEq, Eq, Structural)]
pub struct SwapAmounts {
    pub paid: u64,
    pub received: u64,
    pub fee: u64,
}

pub fn to_u128(val: u64) -> (r: Result<u128, SwapError>)
    ensures
        r == Ok::<u128, SwapError>(val as u128),
{
    Ok(val as u128)
}

pub fn to_u64(val: u128) -> (r: Result<u64, SwapError>)
    ensures
        val <= u64::MAX ==> r == Ok::<u64, SwapError>(val as u64),
        val > u64::MAX ==> r == Err::<u64, SwapError>(SwapError::ConversionFailure),
{
    if val <= u64::MAX as u128 {
        Ok(val as u64)
    } else {
        Err(SwapError::ConversionFailure)
    }
}

pub open spec fn fee_spec(amount: nat) -> nat {
    amount * (FEE_PERCENTAGE as nat) / (DENOMINATOR as nat)
}

/// The fee on `amount`: 1% of it, rounded down.
pub fn fee_of(amount: u64) -> (r: u64)
    ensures
        r == fee_spec(amount as nat),
        r <= amount,
{
    assert(amount as u128 * 100 <= u128::MAX) by (nonlinear_arith)
        requires
            amount <= u64::MAX,
    ;
    let wide = amount as u128 * FEE_PERCENTAGE as u128;
    let fee = wide / DENOMINATOR as u128;
    assert(fee <= amount) by (nonlinear_arith)
        requires
            wide == amount * 100,
            fee == wide / 10000,
    ;
    fee as u64
}

/// The outcome of buying the bonded token with `amount_in` collateral, of which
/// the 1% fee is taken first, from a pool holding `pool_collateral` and `pool_bonded`.
pub open spec fn swap_to_token_spec(curve: LinearPriceCurve, amount_in: nat, pool_collateral: nat, pool_bonded: nat) -> Result<SwapAmounts, SwapError> {
    let fee = fee_spec(amount_in);
    match curve.swap_a_to_b_spec((amount_in - fee) as nat, pool_collateral, pool_bonded) {
        Some((paid, received)) => if received > u64::MAX {
            Err(SwapError::ConversionFailure)
        } else if received == 0 {
            Err(SwapError::ZeroTradingOutput)
        } else {
            Ok(SwapAmounts { paid: paid as u64, received: received as u64, fee: fee as u64 })
        },
        None => Err(SwapError::ZeroTradingTokens),
    }
}

/// The outcome of selling `amount_in` bonded tokens to a pool holding
/// `pool_collateral`; the fee is taken from the collateral paid out.
pub open spec fn swap_to_sol_spec(curve: LinearPriceCurve, amount_in: nat, pool_collateral: nat) -> Result<SwapAmounts, SwapError> {
    match curve.swap_b_to_a_spec(amount_in, pool_collateral) {
        Some((paid, out)) => if out == 0 {
            Err(SwapError::ZeroTradingOutput)
        } else {
            let fee = fee_spec(out);
            Ok(SwapAmounts { paid: paid as u64, received: (out - fee) as u64, fee: fee as u64 })
        },
        None => Err(SwapError::ZeroTradingTokens),
    }
}

/// Prices a purchase of the bonded token: 1% of `amount_in` goes to the fee,
/// the rest buys on the curve. A trade that would deliver nothing is rejected.
pub fn quote_swap_to_token(
    curve: &LinearPriceCurve,
    amount_in: u64,
    pool_collateral: u64,
    pool_bonded: u64,
) -> (r: Result<SwapAmounts, SwapError>)
    ensures
        r == swap_to_token_spec(*curve, amount_in as nat, pool_collateral as nat, pool_bonded as nat),
        r matches Ok(q) ==> q.paid + q.fee <= amount_in && q.received > 0 && q.received <= pool_bonded,
{
    let fee_amount = fee_of(amount_in);
    let source_amount = to_u128(amount_in - fee_amount)?;
    let swap_source_amount = to_u128(pool_collateral)?;
    let swap_destination_amount = to_u128(pool_bonded)?;
    let (paid, received) = match curve.swap_a_to_b(
        source_amount,
        swap_source_amount,
        swap_destination_amount,
    ) {
        Some(amounts) => amounts,
        None => return Err(SwapError::ZeroTradingTokens),
    };
    let paid = to_u64(paid)?;
    let received = to_u64(received)?;
    if received == 0 {
        return Err(SwapError::ZeroTradingOutput);
    }
    Ok(SwapAmounts { paid, received, fee: fee_amount })
}

/// Prices a sale of the bonded token: the curve's collateral output is split
/// into 1% fee and the rest for the trader. A trade whose collateral output is
/// zero is rejected.
pub fn quote_swap_to_sol(
    curve: &LinearPriceCurve,
    amount_in: u64,
    pool_bonded: u64,
    pool_collateral: u64,
) -> (r: Result<SwapAmounts, SwapError>)
    ensures
        r == swap_to_sol_spec(*curve, amount_in as nat, pool_collateral as nat),
        r matches Ok(q) ==> q.paid <= amount_in && q.received + q.fee <= pool_collateral,
{
    let source_amount = to_u128(amount_in)?;
    let swap_source_amount = to_u128(pool_bonded)?;
    let swap_destination_amount = to_u128(pool_collateral)?;
    let (paid, out) = match curve.swap_b_to_a(
        source_amount,
        swap_source_amount,
        swap_destination_amount,
    ) {
        Some(amounts) => amounts,
        None => return Err(SwapError::ZeroTradingTokens),
    };
    let paid = to_u64(paid)?;
    let out = to_u64(out)?;
    if out == 0 {
        return Err(SwapError::ZeroTradingOutput);
    }
    let fee_amount = fee_of(out);
    Ok(SwapAmounts { paid, received: out - fee_amount, fee: fee_amount })
}

} // verus!
