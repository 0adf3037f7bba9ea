//! The linear-price bonding curve: the collateral locked at a curve position
//! is `0.5 * slope * b^2 + a0 * b`, and swaps move along that curve.
use vstd::prelude::*;
use crate::precise::{
    PreciseNumber, ONE, HALF, ROOT_ONE, raw_of, new_spec, add_spec, sub_spec, mul_spec, mul_raw,
    div_spec, floor_raw, imprecise_spec, sqrt_raw,
};

verus! {

/// Raw value of the whole number `n`.
pub open spec fn whole(n: nat) -> nat {
    n * (ONE as nat)
}

/// `o * b`, or `None` where `o` is `None`.
pub open spec fn then_mul(o: Option<nat>, b: nat) -> Option<nat> {
    match o {
        Some(a) => mul_spec(a, b),
        None => None,
    }
}

/// `o / b`, or `None` where `o` is `None`.
pub open spec fn then_div(o: Option<nat>, b: nat) -> Option<nat> {
    match o {
        Some(a) => div_spec(a, b),
        None => None,
    }
}

/// `4 * k * lhs`, with `k = kn / kd`.
pub open spec fn four_k_lhs_spec(kn: nat, kd: nat, lhs: nat) -> Option<nat> {
    then_div(then_mul(mul_spec(kn, whole(4)), lhs), kd)
}

/// `e^2 + 4 * k * lhs`, with `e = en / ed`.
pub open spec fn discriminant_spec(kn: nat, kd: nat, en: nat, ed: nat, lhs: nat) -> Option<nat> {
    match (then_div(then_div(mul_spec(en, en), ed), ed), four_k_lhs_spec(kn, kd, lhs)) {
        (Some(e2), Some(f)) => add_spec(e2, f),
        _ => None,
    }
}

/// Raw value of the positive root of `k * x^2 + e * x - lhs = 0`, computed as
/// `(sqrt(e^2 + 4 * k * lhs) - e) / 2k` with `k = kn / kd` and `e = en / ed`,
/// where a negative numerator (an artefact of rounding the root) counts as 0.
pub open spec fn quadratic_root_spec(kn: nat, kd: nat, en: nat, ed: nat, lhs: nat, up: bool) -> Option<nat> {
    match (discriminant_spec(kn, kd, en, ed, lhs), div_spec(en, ed)) {
        (Some(d), Some(e)) => {
            let numerator = match sub_spec(sqrt_raw(d, up), e) {
                Some(n) => n,
                None => 0,
            };
            then_div(then_div(mul_spec(numerator, kd), kn), whole(2))
        },
        _ => None,
    }
}

/// An optional pair of amounts, as mathematical integers.
pub open spec fn amounts_of(o: Option<(u128, u128)>) -> Option<(nat, nat)> {
    match o {
        Some((x, y)) => Some((x as nat, y as nat)),
        None => None,
    }
}

/// The whole part of the number whose raw value is `x`.
pub open spec fn floor_units(x: nat) -> nat {
    imprecise_spec(floor_raw(x))
}

proof fn lemma_floor_units(x: nat)
    ensures
        floor_units(x) == x / (ONE as nat),
        imprecise_spec(x) <= x / (ONE as nat) + 1,
{
    crate::precise::lemma_div_split(x / (ONE as nat), HALF as nat, ONE as nat);
    vstd::arithmetic::div_mod::lemma_fundamental_div_mod(x as int, ONE as int);
    crate::precise::lemma_div_split(x / (ONE as nat), (x % (ONE as nat) + HALF) as nat, ONE as nat);
}

proof fn lemma_units_bound(x: nat, n: nat)
    requires
        x <= whole(n),
    ensures
        x / (ONE as nat) <= n,
{
    vstd::arithmetic::div_mod::lemma_div_is_ordered(x as int, whole(n) as int, ONE as int);
    crate::precise::lemma_div_split(n, 0, ONE as nat);
}

proof fn lemma_rounded_units_bound(x: nat, n: nat)
    requires
        x < whole(n),
    ensures
        imprecise_spec(x) <= n,
{
    vstd::arithmetic::div_mod::lemma_div_is_ordered((x + HALF) as int, (whole(n) + HALF) as int, ONE as int);
    crate::precise::lemma_div_split(n, HALF as nat, ONE as nat);
}

proof fn lemma_whole_u64_fits(n: nat)
    requires
        n <= u64::MAX,
    ensures
        whole(n) * 2 <= u128::MAX,
        whole(n) * 1 == whole(n),
{
    assert(whole(n) * 2 <= u128::MAX) by (nonlinear_arith)
        requires
            n <= u64::MAX,
            whole(n) == n * 1_000_000_000_000,
    ;
}

proof fn lemma_mul_whole(x: nat, c: nat)
    ensures
        mul_raw(x, whole(c)) == x * c,
{
    assert(x * whole(c) + HALF == (x * c) * ONE + HALF) by (nonlinear_arith);
    crate::precise::lemma_div_split(x * c, HALF as nat, ONE as nat);
}

/// Positive root of `k * x^2 + e * x - lhs = 0` with `k = k_numerator / k_denominator`
/// and `e = e_value_numerator / e_value_denominator`; the square root is rounded
/// up where `should_round_sqrt_up` holds. `None` where a step overflows or divides
/// by zero.
pub fn solve_quadratic_positive_root(
    k_numerator: &PreciseNumber,
    k_denominator: &PreciseNumber,
    e_value_numerator: &PreciseNumber,
    e_value_denominator: &PreciseNumber,
    lhs_value: &PreciseNumber,
    should_round_sqrt_up: bool,
) -> (r: Option<PreciseNumber>)
    ensures
        raw_of(r) == quadratic_root_spec(
            k_numerator.value as nat,
            k_denominator.value as nat,
            e_value_numerator.value as nat,
            e_value_denominator.value as nat,
            lhs_value.value as nat,
            should_round_sqrt_up,
        ),
{
    let four = PreciseNumber::new(4)?;
    let four_k_lhs = k_numerator.checked_mul(&four)?.checked_mul(lhs_value)?.checked_div(
        k_denominator,
    )?;
    let e2_plus_4_k_lhs = e_value_numerator.checked_mul(e_value_numerator)?.checked_div(
        e_value_denominator,
    )?.checked_div(e_value_denominator)?.checked_add(&four_k_lhs)?;
    // the root is taken in integer arithmetic, at the cost of precision
    let sqrt_e2_plus_4_k_lhs = e2_plus_4_k_lhs.sqrt_u64(should_round_sqrt_up);
    let e_value = e_value_numerator.checked_div(e_value_denominator)?;
    // a root rounded down may fall just below e: treat the difference as 0
    let numerator = match sqrt_e2_plus_4_k_lhs.checked_sub(&e_value) {
        Some(val) => val,
        None => PreciseNumber::new(0)?,
    };
    // multiply by the denominator of k before dividing by its numerator
    let two = PreciseNumber::new(2)?;
    numerator.checked_mul(k_denominator)?.checked_div(k_numerator)?.checked_div(&two)
}

/// Parameters of a linear-price curve: the price of the bonded token starts at
/// `a0 = initial_token_a_price_numerator / initial_token_a_price_denominator`
/// and grows by `slope = slope_numerator / slope_denominator` per bonded token.
#[derive(Clone, Copy, Debug)]
pub struct LinearPriceCurve {
    pub slope_numerator: u64,
    pub slope_denominator: u64,
    pub initial_token_a_price_numerator: u64,
    pub initial_token_a_price_denominator: u64,
}

impl LinearPriceCurve {
    /// A curve with the given slope and initial price; `None` where either
    /// denominator is zero, since such a curve can price no trade.
    pub fn new(
        slope_numerator: u64,
        slope_denominator: u64,
        initial_token_a_price_numerator: u64,
        initial_token_a_price_denominator: u64,
    ) -> (r: Option<LinearPriceCurve>)
        ensures
            r is Some <==> (slope_denominator != 0 && initial_token_a_price_denominator != 0),
            r matches Some(c) ==> c.slope_numerator == slope_numerator
                && c.slope_denominator == slope_denominator
                && c.initial_token_a_price_numerator == initial_token_a_price_numerator
                && c.initial_token_a_price_denominator == initial_token_a_price_denominator,
    {
        if slope_denominator == 0 || initial_token_a_price_denominator == 0 {
            None
        } else {
            Some(
                LinearPriceCurve {
                    slope_numerator,
                    slope_denominator,
                    initial_token_a_price_numerator,
                    initial_token_a_price_denominator,
                },
            )
        }
    }

    /// Raw value of the collateral locked at the position whose raw value is
    /// `b`: `slope * b * b / 2 + a0 * b`, each product taken before its division.
    pub open spec fn locked_a_spec(self, b: nat) -> Option<nat> {
        let half_m_b_squared = then_div(
            then_div(
                then_mul(mul_spec(whole(self.slope_numerator as nat), b), b),
                whole(self.slope_denominator as nat),
            ),
            whole(2),
        );
        let a0_times_b = then_div(
            mul_spec(whole(self.initial_token_a_price_numerator as nat), b),
            whole(self.initial_token_a_price_denominator as nat),
        );
        match (half_m_b_squared, a0_times_b) {
            (Some(h), Some(l)) => add_spec(h, l),
            _ => None,
        }
    }

    /// Raw value of the position at which the collateral whose raw value is `a`
    /// is locked: the positive root for `k = slope / 2` and `e = a0`.
    pub open spec fn b_at_locked_a_spec(self, a: nat, up: bool) -> Option<nat> {
        quadratic_root_spec(
            whole(self.slope_numerator as nat),
            whole(2 * (self.slope_denominator as nat)),
            whole(self.initial_token_a_price_numerator as nat),
            whole(self.initial_token_a_price_denominator as nat),
            a,
            up,
        )
    }

    /// Collateral, rounded to the nearest unit, that moves the curve from
    /// position `b_start` (raw) to `b_start + reserve_b` when `a_start` (raw)
    /// is locked at `b_start`.
    pub open spec fn drain_cost_spec(self, a_start: nat, b_start: nat, reserve_b: nat) -> Option<nat> {
        match new_spec(reserve_b) {
            Some(d) => match add_spec(b_start, d) {
                Some(max_b) => match self.locked_a_spec(max_b) {
                    Some(max_a) => match sub_spec(max_a, a_start) {
                        Some(needed) => Some(imprecise_spec(needed)),
                        None => None,
                    },
                    None => None,
                },
                None => None,
            },
            None => None,
        }
    }

    /// The drain check: `None` where the collateral that buys the whole of
    /// `reserve_b` cannot be computed; `Some(Some((cost, reserve_b)))` where
    /// that collateral `cost` is at most `source`; `Some(None)` where it is more.
    pub open spec fn drain_a_to_b_spec(self, a_start: nat, b_start: nat, source: nat, reserve_b: nat) -> Option<Option<(nat, nat)>> {
        match self.drain_cost_spec(a_start, b_start, reserve_b) {
            Some(cost) => if cost <= source {
                Some(Some((cost, reserve_b)))
            } else {
                Some(None)
            },
            None => None,
        }
    }

    /// Collateral that buys all of `reserve_b` from a pool holding `reserve_a`.
    pub open spec fn drain_cost_from_reserves(self, reserve_a: nat, reserve_b: nat) -> Option<nat> {
        match new_spec(reserve_a) {
            Some(a_start) => match self.b_at_locked_a_spec(a_start, true) {
                Some(b_start) => self.drain_cost_spec(a_start, b_start, reserve_b),
                None => None,
            },
            None => None,
        }
    }

    /// Outcome of buying the bonded token with `source` collateral from a pool
    /// holding `reserve_a` collateral and `reserve_b` bonded tokens.
    pub open spec fn swap_a_to_b_spec(self, source: nat, reserve_a: nat, reserve_b: nat) -> Option<(nat, nat)> {
        match new_spec(reserve_a) {
            Some(a_start) => match self.b_at_locked_a_spec(a_start, true) {
                Some(b_start) => match self.drain_a_to_b_spec(a_start, b_start, source, reserve_b) {
                    None => None,
                    Some(Some(drained)) => Some(drained),
                    Some(None) => match new_spec(source) {
                        Some(s) => match add_spec(a_start, s) {
                            Some(a_end) => match self.b_at_locked_a_spec(a_end, false) {
                                Some(b_end) => match sub_spec(b_end, b_start) {
                                    Some(bought) => if floor_units(bought) <= reserve_b {
                                        Some((source, floor_units(bought)))
                                    } else {
                                        None
                                    },
                                    None => None,
                                },
                                None => None,
                            },
                            None => None,
                        },
                        None => None,
                    },
                },
                None => None,
            },
            None => None,
        }
    }

    /// Outcome of selling `source` bonded tokens to a pool holding `reserve_a`
    /// collateral.
    pub open spec fn swap_b_to_a_spec(self, source: nat, reserve_a: nat) -> Option<(nat, nat)> {
        match new_spec(reserve_a) {
            Some(a_start) => match self.b_at_locked_a_spec(a_start, true) {
                Some(b_start) => match new_spec(source) {
                    Some(s) => {
                        let negative = b_start < s;
                        let distance = if negative { (s - b_start) as nat } else { (b_start - s) as nat };
                        match crate::precise::ceiling_spec(distance) {
                            Some(b_end) => if negative {
                                Some((imprecise_spec(b_start), reserve_a))
                            } else {
                                match self.locked_a_spec(b_end) {
                                    Some(a_end) => match sub_spec(a_start, a_end) {
                                        Some(sold) => Some((source, floor_units(sold))),
                                        None => None,
                                    },
                                    None => None,
                                }
                            },
                            None => None,
                        }
                    },
                    None => None,
                },
                None => None,
            },
            None => None,
        }
    }

    /// Collateral locked at curve position `b_value`.
    pub fn amt_a_locked_at_b_value_quadratic(&self, b_value: &PreciseNumber) -> (r: Option<
        PreciseNumber,
    >)
        ensures
            raw_of(r) == self.locked_a_spec(b_value.value as nat),
    {
        // 0.5 * m * b^2
        let half_m_b_squared = PreciseNumber::new(self.slope_numerator as u128)?.checked_mul(
            b_value,
        )?.checked_mul(b_value)?.checked_div(
            &PreciseNumber::new(self.slope_denominator as u128)?,
        )?.checked_div(&PreciseNumber::new(2)?)?;
        // a0 * b, division last
        let a0_times_b = PreciseNumber::new(self.initial_token_a_price_numerator as u128)?.checked_mul(
            b_value,
        )?.checked_div(&PreciseNumber::new(self.initial_token_a_price_denominator as u128)?)?;
        half_m_b_squared.checked_add(&a0_times_b)
    }

    /// Curve position at which `token_a_amount` collateral is locked, the
    /// square root rounded up where `should_round_sqrt_up` holds.
    pub fn b_value_with_amt_a_locked_quadratic(
        &self,
        token_a_amount: &PreciseNumber,
        should_round_sqrt_up: bool,
    ) -> (r: Option<PreciseNumber>)
        ensures
            raw_of(r) == self.b_at_locked_a_spec(token_a_amount.value as nat, should_round_sqrt_up),
    {
        proof {
            lemma_whole_u64_fits(self.slope_numerator as nat);
            lemma_whole_u64_fits(self.slope_denominator as nat);
            lemma_whole_u64_fits(self.initial_token_a_price_numerator as nat);
            lemma_whole_u64_fits(self.initial_token_a_price_denominator as nat);
            lemma_mul_whole(whole(self.slope_numerator as nat), 1);
            lemma_mul_whole(whole(self.slope_denominator as nat), 2);
            assert(whole(self.slope_denominator as nat) * 2 == whole(2 * (self.slope_denominator as nat)))
                by (nonlinear_arith);
        }
        // k = m / 2 is kept as a fraction: dividing first would lose digits
        let slope_numerator = PreciseNumber::new(self.slope_numerator as u128)?;
        let slope_denominator = PreciseNumber::new(self.slope_denominator as u128)?;
        let k_numerator = slope_numerator.checked_mul(&PreciseNumber::new(1)?)?;
        let k_denominator = slope_denominator.checked_mul(&PreciseNumber::new(2)?)?;
        // e = a0
        let e_value_numerator = PreciseNumber::new(self.initial_token_a_price_numerator as u128)?;
        let e_value_denominator = PreciseNumber::new(
            self.initial_token_a_price_denominator as u128,
        )?;
        solve_quadratic_positive_root(
            &k_numerator,
            &k_denominator,
            &e_value_numerator,
            &e_value_denominator,
            token_a_amount,
            should_round_sqrt_up,
        )
    }

    /// The drain check. `None` where its arithmetic fails; else `Some(Some((cost,
    /// swap_destination_amount)))` where `source_amount` covers the collateral
    /// `cost` that buys all of `swap_destination_amount`, and `Some(None)` where
    /// it does not.
    pub fn maximum_a_remaining_for_swap_a_to_b(
        &self,
        a_start: &PreciseNumber,
        b_start: &PreciseNumber,
        source_amount: u128,
        swap_destination_amount: u128,
    ) -> (r: Option<Option<(u128, u128)>>)
        ensures
            match r {
                None => self.drain_a_to_b_spec(
                    a_start.value as nat,
                    b_start.value as nat,
                    source_amount as nat,
                    swap_destination_amount as nat,
                ) is None,
                Some(d) => self.drain_a_to_b_spec(
                    a_start.value as nat,
                    b_start.value as nat,
                    source_amount as nat,
                    swap_destination_amount as nat,
                ) == Some(amounts_of(d)),
            },
    {
        // at b_start + swap_destination_amount the pool holds no bonded token
        let maximum_b_value = b_start.checked_add(&PreciseNumber::new(swap_destination_amount)?)?;
        let maximum_a_locked = self.amt_a_locked_at_b_value_quadratic(&maximum_b_value)?;
        let maximum_a_remaining = maximum_a_locked.checked_sub(a_start)?.to_imprecise();
        if maximum_a_remaining <= source_amount {
            Some(Some((maximum_a_remaining, swap_destination_amount)))
        } else {
            Some(None)
        }
    }

    /// Buys the bonded token with `source_amount` collateral from a pool holding
    /// `swap_source_amount` collateral and `swap_destination_amount` bonded
    /// tokens; returns the collateral consumed and the bonded tokens delivered.
    /// The pool's collateral must be exactly what the curve locks at its
    /// position. `None` where any step fails, the drain check included, and
    /// where rounding would pay out more than the bonded reserve.
    pub fn swap_a_to_b(
        &self,
        source_amount: u128,
        swap_source_amount: u128,
        swap_destination_amount: u128,
    ) -> (r: Option<(u128, u128)>)
        ensures
            amounts_of(r) == self.swap_a_to_b_spec(
                source_amount as nat,
                swap_source_amount as nat,
                swap_destination_amount as nat,
            ),
            r matches Some((consumed, delivered)) ==> consumed <= source_amount
                && delivered <= swap_destination_amount,
    {
        let a_start = PreciseNumber::new(swap_source_amount)?;
        // the start position is rounded up, in the pool's favour
        let b_start = self.b_value_with_amt_a_locked_quadratic(&a_start, true)?;
        // a drain check that cannot be computed fails the swap
        match self.maximum_a_remaining_for_swap_a_to_b(
            &a_start,
            &b_start,
            source_amount,
            swap_destination_amount,
        )? {
            Some(drained) => {
                return Some(drained);
            },
            None => {},
        }
        let a_end = a_start.checked_add(&PreciseNumber::new(source_amount)?)?;
        // the end position is rounded down, again in the pool's favour
        let b_end = self.b_value_with_amt_a_locked_quadratic(&a_end, false)?;
        let difference = b_end.checked_sub(&b_start)?;
        // never round a payout up
        let destination_amount = difference.floor().to_imprecise();
        // the reserve bounds the payout: where rounding would lift it above the
        // reserve, the swap fails
        if destination_amount > swap_destination_amount {
            return None;
        }
        Some((source_amount, destination_amount))
    }

    /// Sells `source_amount` bonded tokens to a pool holding
    /// `swap_destination_amount` collateral; returns the bonded tokens consumed
    /// and the collateral delivered. The pool's bonded-token balance is not
    /// read: the position follows from its collateral.
    pub fn swap_b_to_a(
        &self,
        source_amount: u128,
        _swap_source_amount: u128,
        swap_destination_amount: u128,
    ) -> (r: Option<(u128, u128)>)
        ensures
            amounts_of(r) == self.swap_b_to_a_spec(source_amount as nat, swap_destination_amount as nat),
            r matches Some((consumed, delivered)) ==> consumed <= source_amount
                && delivered <= swap_destination_amount,
    {
        let a_start = PreciseNumber::new(swap_destination_amount)?;
        // rounding the start up over-estimates the end, which rounds the payout down
        let b_start = self.b_value_with_amt_a_locked_quadratic(&a_start, true)?;
        // the end lies below zero where more bonded tokens come in than the curve holds
        let (b_end, b_end_is_negative) = b_start.unsigned_sub(&PreciseNumber::new(source_amount)?);
        // the end is rounded up: the root is under-estimated, and rounding down
        // here would let a trader gain by swapping back and forth
        let b_end = b_end.ceiling()?;
        if b_end_is_negative {
            // all collateral goes out, for the bonded tokens that bring the position to zero
            proof {
                lemma_rounded_units_bound(b_start.value as nat, source_amount as nat);
            }
            return Some((b_start.to_imprecise(), swap_destination_amount));
        }
        let a_end = self.amt_a_locked_at_b_value_quadratic(&b_end)?;
        let sold = a_start.checked_sub(&a_end)?;
        proof {
            lemma_floor_units(sold.value as nat);
            lemma_units_bound(sold.value as nat, swap_destination_amount as nat);
        }
        let destination_amount = sold.floor().to_imprecise();
        Some((source_amount, destination_amount))
    }
}

proof fn lemma_mul_raw_monotone(a1: nat, a2: nat, b1: nat, b2: nat)
    requires
        a1 <= a2,
        b1 <= b2,
    ensures
        mul_raw(a1, b1) <= mul_raw(a2, b2),
{
    assert(a1 * b1 <= a2 * b2) by (nonlinear_arith)
        requires
            a1 <= a2,
            b1 <= b2,
    ;
    vstd::arithmetic::div_mod::lemma_div_is_ordered(
        a1 * b1 + HALF,
        a2 * b2 + HALF,
        ONE as int,
    );
}

proof fn lemma_div_raw_monotone(a1: nat, a2: nat, b: nat)
    requires
        a1 <= a2,
        b > 0,
    ensures
        crate::precise::div_raw(a1, b) <= crate::precise::div_raw(a2, b),
{
    assert(a1 * ONE <= a2 * ONE) by (nonlinear_arith)
        requires
            a1 <= a2,
    ;
    vstd::arithmetic::div_mod::lemma_div_is_ordered(
        a1 * ONE + b / 2,
        a2 * ONE + b / 2,
        b as int,
    );
}

proof fn lemma_then_mul_monotone(o1: Option<nat>, o2: Option<nat>, b1: nat, b2: nat)
    requires
        b1 <= b2,
        o2 is Some ==> o1 is Some && o1->0 <= o2->0,
    ensures
        then_mul(o2, b2) is Some ==> then_mul(o1, b1) is Some && then_mul(o1, b1)->0 <= then_mul(o2, b2)->0,
{
    if then_mul(o2, b2) is Some {
        lemma_mul_raw_monotone(o1->0, o2->0, b1, b2);
    }
}

proof fn lemma_then_div_monotone(o1: Option<nat>, o2: Option<nat>, b: nat)
    requires
        o2 is Some ==> o1 is Some && o1->0 <= o2->0,
    ensures
        then_div(o2, b) is Some ==> then_div(o1, b) is Some && then_div(o1, b)->0 <= then_div(o2, b)->0,
{
    if then_div(o2, b) is Some {
        lemma_div_raw_monotone(o1->0, o2->0, b);
    }
}

/// The collateral locked on the curve never decreases as the position grows:
/// where it is defined at `b2`, it is defined at every `b1 <= b2` and no larger.
/// It grows strictly where the initial price times the distance between the
/// positions is at least one unit of the last digit (`a0 * (b2 - b1) >= 10^-12`).
pub proof fn lemma_locked_a_monotone(curve: LinearPriceCurve, b1: nat, b2: nat)
    requires
        b1 <= b2,
        curve.locked_a_spec(b2) is Some,
    ensures
        curve.locked_a_spec(b1) is Some,
        curve.locked_a_spec(b1)->0 <= curve.locked_a_spec(b2)->0,
        curve.initial_token_a_price_numerator * (b2 - b1) >= curve.initial_token_a_price_denominator
            ==> curve.locked_a_spec(b1)->0 < curve.locked_a_spec(b2)->0,
{
    let sn = whole(curve.slope_numerator as nat);
    let sd = whole(curve.slope_denominator as nat);
    let an = whole(curve.initial_token_a_price_numerator as nat);
    let ad = whole(curve.initial_token_a_price_denominator as nat);
    lemma_then_mul_monotone(Some(sn), Some(sn), b1, b2);
    lemma_then_mul_monotone(mul_spec(sn, b1), mul_spec(sn, b2), b1, b2);
    lemma_then_div_monotone(then_mul(mul_spec(sn, b1), b1), then_mul(mul_spec(sn, b2), b2), sd);
    lemma_then_div_monotone(
        then_div(then_mul(mul_spec(sn, b1), b1), sd),
        then_div(then_mul(mul_spec(sn, b2), b2), sd),
        whole(2),
    );
    lemma_then_mul_monotone(Some(an), Some(an), b1, b2);
    lemma_then_div_monotone(mul_spec(an, b1), mul_spec(an, b2), ad);
    if curve.initial_token_a_price_numerator * (b2 - b1) >= curve.initial_token_a_price_denominator {
        let n = curve.initial_token_a_price_numerator as nat;
        let d = ad;
        let x1 = mul_raw(an, b1);
        let x2 = mul_raw(an, b2);
        lemma_mul_whole_left(n, b1);
        lemma_mul_whole_left(n, b2);
        assert(x1 * ONE + d <= x2 * ONE) by (nonlinear_arith)
            requires
                x1 == n * b1,
                x2 == n * b2,
                n * (b2 - b1) >= curve.initial_token_a_price_denominator,
                d == curve.initial_token_a_price_denominator * ONE,
                b1 <= b2,
        ;
        vstd::arithmetic::div_mod::lemma_div_is_ordered(
            x1 * ONE + d / 2 + d,
            x2 * ONE + d / 2,
            d as int,
        );
        crate::precise::lemma_div_split(1, (x1 * ONE + d / 2) as nat, d);
    }
}

proof fn lemma_mul_whole_left(c: nat, x: nat)
    ensures
        mul_raw(whole(c), x) == c * x,
{
    assert(whole(c) * x + HALF == (c * x) * ONE + HALF) by (nonlinear_arith);
    crate::precise::lemma_div_split(c * x, HALF as nat, ONE as nat);
}

proof fn lemma_root_rounding_order(curve: LinearPriceCurve, a: nat)
    requires
        curve.b_at_locked_a_spec(a, true) is Some,
        curve.b_at_locked_a_spec(a, false) is Some,
    ensures
        curve.b_at_locked_a_spec(a, false)->0 <= curve.b_at_locked_a_spec(a, true)->0,
{
    let kn = whole(curve.slope_numerator as nat);
    let kd = whole(2 * (curve.slope_denominator as nat));
    let en = whole(curve.initial_token_a_price_numerator as nat);
    let ed = whole(curve.initial_token_a_price_denominator as nat);
    let d = discriminant_spec(kn, kd, en, ed, a)->0;
    let e = div_spec(en, ed)->0;
    let lo = sqrt_raw(d, false);
    let hi = sqrt_raw(d, true);
    assert(lo <= hi) by (nonlinear_arith)
        requires
            lo == crate::precise::int_sqrt(d, false) * ROOT_ONE,
            hi == crate::precise::int_sqrt(d, true) * ROOT_ONE,
            crate::precise::int_sqrt(d, false) <= crate::precise::int_sqrt(d, true),
    ;
    let n_lo = match sub_spec(lo, e) {
        Some(n) => n,
        None => 0,
    };
    let n_hi = match sub_spec(hi, e) {
        Some(n) => n,
        None => 0,
    };
    assert(n_lo <= n_hi);
    lemma_then_mul_monotone(Some(n_lo), Some(n_hi), kd, kd);
    lemma_then_div_monotone(mul_spec(n_lo, kd), mul_spec(n_hi, kd), kn);
    lemma_then_div_monotone(then_div(mul_spec(n_lo, kd), kn), then_div(mul_spec(n_hi, kd), kn), whole(2));
}

/// Selling straight back what a purchase along the curve bought returns at
/// most the collateral paid, wherever the curve, evaluated at the rounded-up
/// position of the pool's collateral, comes within one unit of that
/// collateral. The purchase must have taken the curve path, not the drain.
pub proof fn lemma_round_trip_bounded(
    curve: LinearPriceCurve,
    input_a: nat,
    reserve_a: nat,
    reserve_b: nat,
    bought: nat,
    b_start: nat,
)
    requires
        curve.swap_a_to_b_spec(input_a, reserve_a, reserve_b) == Some((input_a, bought)),
        curve.b_at_locked_a_spec(whole(reserve_a), true) == Some(b_start),
        curve.drain_a_to_b_spec(whole(reserve_a), b_start, input_a, reserve_b) == Some(None::<(nat, nat)>),
        curve.locked_a_spec(b_start) is Some,
        curve.locked_a_spec(b_start)->0 + ONE > whole(reserve_a),
    ensures
        curve.swap_b_to_a_spec(bought, reserve_a + input_a) matches Some((_, back))
            ==> back <= input_a,
{
    let a0 = whole(reserve_a);
    let a1 = whole(reserve_a + input_a);
    assert(a1 == a0 + whole(input_a)) by {
        assert((reserve_a + input_a) * ONE == reserve_a * ONE + input_a * ONE) by (nonlinear_arith);
    }
    let b_end = curve.b_at_locked_a_spec(a1, false)->0;
    assert(bought == floor_units((b_end - b_start) as nat));
    lemma_floor_units((b_end - b_start) as nat);
    let sold_b = whole(bought);
    assert(sold_b <= b_end - b_start) by {
        vstd::arithmetic::div_mod::lemma_fundamental_div_mod((b_end - b_start) as int, ONE as int);
        vstd::arithmetic::div_mod::lemma_mod_pos_bound((b_end - b_start) as int, ONE as int);
    }
    if curve.swap_b_to_a_spec(bought, reserve_a + input_a) is Some {
        let b_back = curve.b_at_locked_a_spec(a1, true)->0;
        lemma_root_rounding_order(curve, a1);
        assert(b_back >= sold_b);
        let distance = (b_back - sold_b) as nat;
        let b_after = crate::precise::ceiling_spec(distance)->0;
        assert(b_after >= distance) by {
            vstd::arithmetic::div_mod::lemma_fundamental_div_mod(distance as int, ONE as int);
            vstd::arithmetic::div_mod::lemma_mod_pos_bound(distance as int, ONE as int);
        }
        lemma_locked_a_monotone(curve, b_start, b_after);
        let a_after = curve.locked_a_spec(b_after)->0;
        let sold = (a1 - a_after) as nat;
        assert(sold < whole(input_a) + ONE);
        assert(whole(input_a) + ONE == whole(input_a + 1)) by {
            assert(input_a * ONE + ONE == (input_a + 1) * ONE) by (nonlinear_arith);
        }
        lemma_units_bound(sold, input_a + 1);
        lemma_floor_units(sold);
        assert(sold / (ONE as nat) <= input_a) by {
            if sold / (ONE as nat) > input_a {
                vstd::arithmetic::div_mod::lemma_fundamental_div_mod(sold as int, ONE as int);
                assert(sold >= whole(input_a + 1)) by (nonlinear_arith)
                    requires
                        sold == ONE * (sold / (ONE as nat)) + sold % (ONE as nat),
                        sold / (ONE as nat) >= input_a + 1,
                        sold % (ONE as nat) >= 0,
                ;
            }
        }
    }
}

/// From a pool that holds no collateral, selling straight back what a purchase
/// along the curve bought never returns more than the collateral paid.
pub proof fn lemma_round_trip_from_empty_pool(
    curve: LinearPriceCurve,
    input_a: nat,
    reserve_b: nat,
    bought: nat,
    b_start: nat,
)
    requires
        curve.swap_a_to_b_spec(input_a, 0, reserve_b) == Some((input_a, bought)),
        curve.b_at_locked_a_spec(0, true) == Some(b_start),
        curve.drain_a_to_b_spec(0, b_start, input_a, reserve_b) == Some(None::<(nat, nat)>),
        curve.locked_a_spec(b_start) is Some,
    ensures
        curve.swap_b_to_a_spec(bought, input_a) matches Some((_, back)) ==> back <= input_a,
{
    assert(whole(0) == 0);
    lemma_round_trip_bounded(curve, input_a, 0, reserve_b, bought, b_start);
}

/// A trade of exactly the collateral that buys the whole bonded reserve, or of
/// more, consumes exactly that collateral and delivers the whole reserve: the
/// drain outcome is taken as it stands, not recomputed through the inverse.
pub proof fn lemma_drain_boundary(curve: LinearPriceCurve, input_a: nat, reserve_a: nat, reserve_b: nat, cost: nat)
    requires
        curve.drain_cost_from_reserves(reserve_a, reserve_b) == Some(cost),
        cost <= input_a,
    ensures
        curve.swap_a_to_b_spec(input_a, reserve_a, reserve_b) == Some((cost, reserve_b)),
{
}

} // verus!
