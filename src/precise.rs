//! Nonnegative fixed-point numbers with twelve decimal digits of scale.
//!
//! A `PreciseNumber` holds `value`, the number multiplied by `ONE`. Every
//! operation is checked: it returns `None` where the exact result would not fit
//! rather than wrapping or panicking.
use vstd::prelude::*;
use vstd::arithmetic::div_mod::{
    lemma_fundamental_div_mod,
    lemma_fundamental_div_mod_converse,
    lemma_mod_pos_bound,
};

verus! {

/// Scale of the fixed-point representation: 10^12.
pub const ONE: u128 = 1_000_000_000_000;

/// Half of `ONE`, added before a division to round to nearest.
pub const HALF: u128 = 500_000_000_000;

/// Square root of `ONE`, the scale of a root taken on the raw value.
pub const ROOT_ONE: u128 = 1_000_000;

#[derive(Clone, Copy, Debug)]
pub struct PreciseNumber {
    /// The number times `ONE`.
    pub value: u128,
}

/// `Some(x)` where `x` is representable as a raw value, else `None`.
pub open spec fn fit(x: nat) -> Option<nat> {
    if x <= u128::MAX {
        Some(x)
    } else {
        None
    }
}

/// The raw value of an optional number.
pub open spec fn raw_of(o: Option<PreciseNumber>) -> Option<nat> {
    match o {
        Some(p) => Some(p.value as nat),
        None => None,
    }
}

/// Raw value of the integer `n`.
pub open spec fn new_spec(n: nat) -> Option<nat> {
    fit(n * (ONE as nat))
}

pub open spec fn add_spec(a: nat, b: nat) -> Option<nat> {
    fit(a + b)
}

pub open spec fn sub_spec(a: nat, b: nat) -> Option<nat> {
    if b <= a {
        Some((a - b) as nat)
    } else {
        None
    }
}

/// Product of two raw values, rounded to the nearest unit of the last digit.
pub open spec fn mul_raw(a: nat, b: nat) -> nat {
    (a * b + (HALF as nat)) / (ONE as nat)
}

pub open spec fn mul_spec(a: nat, b: nat) -> Option<nat> {
    fit(mul_raw(a, b))
}

/// Quotient of two raw values, rounded to the nearest unit of the last digit.
pub open spec fn div_raw(a: nat, b: nat) -> nat
    recommends
        b > 0,
{
    (a * (ONE as nat) + b / 2) / b
}

pub open spec fn div_spec(a: nat, b: nat) -> Option<nat> {
    if b == 0 {
        None
    } else {
        fit(div_raw(a, b))
    }
}

pub open spec fn floor_raw(a: nat) -> nat {
    a / (ONE as nat) * (ONE as nat)
}

pub open spec fn ceiling_raw(a: nat) -> nat {
    if a % (ONE as nat) == 0 {
        a
    } else {
        (a / (ONE as nat) + 1) * (ONE as nat)
    }
}

pub open spec fn ceiling_spec(a: nat) -> Option<nat> {
    fit(ceiling_raw(a))
}

/// The integer nearest to the number, halves rounded up.
pub open spec fn imprecise_spec(a: nat) -> nat {
    (a + (HALF as nat)) / (ONE as nat)
}

/// Ten to the power `k`.
pub open spec fn pow10(k: nat) -> nat
    decreases k,
{
    if k == 0 {
        1
    } else {
        10 * pow10((k - 1) as nat)
    }
}

/// `s` is the integer square root of `v`, rounded down.
pub open spec fn is_floor_sqrt(v: nat, s: nat) -> bool {
    s * s <= v < (s + 1) * (s + 1)
}

/// The integer square root of `v`, rounded down.
pub open spec fn floor_sqrt(v: nat) -> nat {
    choose|s: nat| is_floor_sqrt(v, s)
}

/// The integer square root of `v`, rounded up where `up` holds and `v` is no
/// perfect square, else rounded down.
pub open spec fn int_sqrt(v: nat, up: bool) -> nat {
    let s = floor_sqrt(v);
    if up && s * s != v {
        s + 1
    } else {
        s
    }
}

/// Raw value of the square root of the number whose raw value is `v`: the
/// root of the raw value, scaled by the root of `ONE`.
pub open spec fn sqrt_raw(v: nat, up: bool) -> nat {
    int_sqrt(v, up) * (ROOT_ONE as nat)
}

proof fn lemma_floor_sqrt_unique(v: nat, s: nat)
    requires
        is_floor_sqrt(v, s),
    ensures
        floor_sqrt(v) == s,
{
    let t = floor_sqrt(v);
    assert(is_floor_sqrt(v, t));
    if t < s {
        assert((t + 1) * (t + 1) <= s * s) by (nonlinear_arith)
            requires
                t < s,
        ;
    } else if s < t {
        assert((s + 1) * (s + 1) <= t * t) by (nonlinear_arith)
            requires
                s < t,
        ;
    }
}

proof fn lemma_root_scaled(v: nat, s: nat)
    requires
        is_floor_sqrt(v, s),
    ensures
        (s * ROOT_ONE) * (s * ROOT_ONE) <= v * ONE,
        v * ONE < (s * ROOT_ONE + ROOT_ONE) * (s * ROOT_ONE + ROOT_ONE),
        s * s < v ==> v * ONE <= ((s + 1) * ROOT_ONE) * ((s + 1) * ROOT_ONE),
        s * s < v ==> (s * ROOT_ONE) * (s * ROOT_ONE) < v * ONE,
        (s * ROOT_ONE) * (s * ROOT_ONE) == (s * s) * ONE,
        s > 0 ==> (s * ROOT_ONE - ROOT_ONE) * (s * ROOT_ONE - ROOT_ONE) < v * ONE,
{
    if s > 0 {
        assert((s * ROOT_ONE - ROOT_ONE) * (s * ROOT_ONE - ROOT_ONE) < (s * ROOT_ONE) * (s * ROOT_ONE))
            by (nonlinear_arith)
            requires
                s > 0,
        ;
    }
    assert((s * ROOT_ONE) * (s * ROOT_ONE) == (s * s) * ONE) by (nonlinear_arith);
    assert((s * ROOT_ONE + ROOT_ONE) * (s * ROOT_ONE + ROOT_ONE) == ((s + 1) * (s + 1)) * ONE)
        by (nonlinear_arith);
    assert(((s + 1) * ROOT_ONE) * ((s + 1) * ROOT_ONE) == ((s + 1) * (s + 1)) * ONE)
        by (nonlinear_arith);
    assert((s * s) * ONE <= v * ONE) by (nonlinear_arith)
        requires
            s * s <= v,
    ;
    assert(v * ONE < ((s + 1) * (s + 1)) * ONE) by (nonlinear_arith)
        requires
            v < (s + 1) * (s + 1),
    ;
    if s * s < v {
        assert((s * s) * ONE < v * ONE) by (nonlinear_arith)
            requires
                s * s < v,
        ;
        assert(v <= (s + 1) * (s + 1));
        assert(v * ONE <= ((s + 1) * (s + 1)) * ONE) by (nonlinear_arith)
            requires
                v <= (s + 1) * (s + 1),
        ;
    }
}

pub proof fn lemma_div_split(x: nat, y: nat, d: nat)
    requires
        d > 0,
    ensures
        (x * d + y) / d == x + y / d,
        (x * d + y) % d == y % d,
{
    let q = y / d;
    let r = y % d;
    assert(y == q * d + r && 0 <= r < d) by {
        lemma_fundamental_div_mod(y as int, d as int);
        lemma_mod_pos_bound(y as int, d as int);
    }
    assert(x * d + y == (x + q) * d + r) by (nonlinear_arith)
        requires
            y == q * d + r,
    ;
    lemma_fundamental_div_mod_converse((x * d + y) as int, d as int, (x + q) as int, r as int);
}

impl PreciseNumber {
    /// The integer `n` as a precise number; `None` where `n * ONE` overflows.
    pub fn new(n: u128) -> (r: Option<PreciseNumber>)
        ensures
            raw_of(r) == new_spec(n as nat),
    {
        match n.checked_mul(ONE) {
            Some(value) => Some(PreciseNumber { value }),
            None => None,
        }
    }

    pub fn checked_add(&self, other: &PreciseNumber) -> (r: Option<PreciseNumber>)
        ensures
            raw_of(r) == add_spec(self.value as nat, other.value as nat),
    {
        match self.value.checked_add(other.value) {
            Some(value) => Some(PreciseNumber { value }),
            None => None,
        }
    }

    /// `None` where the difference would be negative.
    pub fn checked_sub(&self, other: &PreciseNumber) -> (r: Option<PreciseNumber>)
        ensures
            raw_of(r) == sub_spec(self.value as nat, other.value as nat),
    {
        if other.value <= self.value {
            Some(PreciseNumber { value: self.value - other.value })
        } else {
            None
        }
    }

    /// Product, rounded to the nearest unit of the last digit; `None` on overflow.
    pub fn checked_mul(&self, other: &PreciseNumber) -> (r: Option<PreciseNumber>)
        ensures
            raw_of(r) == mul_spec(self.value as nat, other.value as nat),
    {
        let a = self.value;
        let b = other.value;
        let a_hi = a / ONE;
        let a_lo = a % ONE;
        let b_hi = b / ONE;
        let b_lo = b % ONE;
        assert(a_lo * b_lo < ONE * ONE) by (nonlinear_arith)
            requires
                a_lo < ONE,
                b_lo < ONE,
        ;
        let low = (a_lo * b_lo + HALF) / ONE;
        proof {
            let x = a_hi as nat * b as nat + a_lo as nat * b_hi as nat;
            let y = a_lo as nat * b_lo as nat + HALF as nat;
            assert(a as nat * b as nat + HALF as nat == x * ONE as nat + y) by (nonlinear_arith)
                requires
                    a == a_hi * ONE + a_lo,
                    b == b_hi * ONE + b_lo,
                    x == a_hi * b + a_lo * b_hi,
                    y == a_lo * b_lo + HALF,
            ;
            lemma_div_split(x, y, ONE as nat);
            assert(mul_raw(a as nat, b as nat) == a_hi * b + a_lo * b_hi + low);
            assert(a_hi * b >= 0 && a_lo * b_hi >= 0) by (nonlinear_arith);
        }
        let high = match a_hi.checked_mul(b) {
            Some(v) => v,
            None => return None,
        };
        let mid = match a_lo.checked_mul(b_hi) {
            Some(v) => v,
            None => return None,
        };
        let sum = match high.checked_add(mid) {
            Some(v) => v,
            None => return None,
        };
        match sum.checked_add(low) {
            Some(value) => Some(PreciseNumber { value }),
            None => None,
        }
    }

    /// Quotient, rounded to the nearest unit of the last digit; `None` on
    /// division by zero or overflow.
    pub fn checked_div(&self, other: &PreciseNumber) -> (r: Option<PreciseNumber>)
        ensures
            raw_of(r) == div_spec(self.value as nat, other.value as nat),
    {
        let a = self.value;
        let b = other.value;
        if b == 0 {
            return None;
        }
        let whole = a / b;
        let rest = a % b;
        // rest * ONE = q * b + r, built one decimal digit at a time so that no
        // intermediate exceeds b
        let mut q: u128 = 0;
        let mut r: u128 = rest;
        let mut k: usize = 0;
        assert(pow10(0) == 1);
        assert(rest * pow10(0) == q * b + r);
        while k < 12
            invariant
                0 < b,
                rest < b,
                k <= 12,
                r < b,
                rest * pow10(k as nat) == q * b + r,
                q < pow10(k as nat),
                pow10(k as nat) <= 1_000_000_000_000,
            decreases 12 - k,
        {
            let mut tq: u128 = 0;
            let mut tr: u128 = 0;
            let mut j: usize = 0;
            while j < 10
                invariant
                    0 < b,
                    r < b,
                    j <= 10,
                    tr < b,
                    tq <= j,
                    r * j == tq * b + tr,
                decreases 10 - j,
            {
                if tr >= b - r {
                    tr = tr - (b - r);
                    tq = tq + 1;
                } else {
                    tr = tr + r;
                }
                proof {
                    assert(r * (j + 1) == r * j + r) by (nonlinear_arith);
                    assert((tq - 1) * b + b == tq * b) by (nonlinear_arith);
                }
                j = j + 1;
            }
            proof {
                let p = pow10(k as nat);
                assert(pow10((k + 1) as nat) == 10 * p);
                assert(rest * (10 * p) == (10 * q + tq) * b + tr) by (nonlinear_arith)
                    requires
                        rest * p == q * b + r,
                        r * 10 == tq * b + tr,
                ;
                assert(10 * q + tq < 10 * p) by (nonlinear_arith)
                    requires
                        q < p,
                        rest < b,
                        rest * (10 * p) == (10 * q + tq) * b + tr,
                        0 < b,
                ;
                if k < 12 {
                    assert(pow10((k + 1) as nat) <= 1_000_000_000_000) by {
                        reveal_with_fuel(pow10, 13);
                        if k == 0 {} else if k == 1 {} else if k == 2 {} else if k == 3 {}
                        else if k == 4 {} else if k == 5 {} else if k == 6 {} else if k == 7 {}
                        else if k == 8 {} else if k == 9 {} else if k == 10 {} else {}
                    }
                }
            }
            q = 10 * q + tq;
            r = tr;
            k = k + 1;
        }
        proof {
            assert(pow10(12) == ONE) by {
                reveal_with_fuel(pow10, 13);
            }
        }
        let frac = if r >= b - b / 2 {
            q + 1
        } else {
            q
        };
        proof {
            let half = (b / 2) as nat;
            lemma_fundamental_div_mod(a as int, b as int);
            let x = whole as nat * ONE as nat;
            let y = rest as nat * ONE as nat + half;
            assert(a as nat * ONE as nat + half == x * b as nat + y) by (nonlinear_arith)
                requires
                    a == b * whole + rest,
                    x == whole * ONE,
                    y == rest * ONE + half,
            ;
            lemma_div_split(x, y, b as nat);
            lemma_div_split(q as nat, r as nat + half, b as nat);
            if r >= b - b / 2 {
                lemma_fundamental_div_mod_converse((r + half) as int, b as int, 1, (r + half - b) as int);
            } else {
                lemma_fundamental_div_mod_converse((r + half) as int, b as int, 0, (r + half) as int);
            }
            assert(div_raw(a as nat, b as nat) == whole * ONE + frac);
            assert(whole * ONE >= 0) by (nonlinear_arith);
        }
        let scaled = match whole.checked_mul(ONE) {
            Some(v) => v,
            None => return None,
        };
        match scaled.checked_add(frac) {
            Some(value) => Some(PreciseNumber { value }),
            None => None,
        }
    }

    /// The largest whole number not above `self`.
    pub fn floor(&self) -> (r: PreciseNumber)
        ensures
            r.value == floor_raw(self.value as nat),
    {
        let whole = self.value / ONE;
        assert(whole * ONE <= self.value) by (nonlinear_arith)
            requires
                whole == self.value / ONE,
        ;
        PreciseNumber { value: whole * ONE }
    }

    /// The smallest whole number not below `self`; `None` where it overflows.
    pub fn ceiling(&self) -> (r: Option<PreciseNumber>)
        ensures
            raw_of(r) == ceiling_spec(self.value as nat),
    {
        if self.value % ONE == 0 {
            Some(*self)
        } else {
            match (self.value / ONE + 1).checked_mul(ONE) {
                Some(value) => Some(PreciseNumber { value }),
                None => None,
            }
        }
    }

    /// The nearest integer, halves rounded up. It always fits in `u128`: it is
    /// at most the raw value divided by `ONE`, plus one.
    pub fn to_imprecise(&self) -> (r: u128)
        ensures
            r == imprecise_spec(self.value as nat),
    {
        let whole = self.value / ONE;
        let part = self.value % ONE;
        proof {
            lemma_fundamental_div_mod(self.value as int, ONE as int);
            assert(self.value + HALF == whole * ONE + (part + HALF));
            lemma_div_split(whole as nat, (part + HALF) as nat, ONE as nat);
        }
        whole + (part + HALF) / ONE
    }

    /// Square root, taken on the raw value in integer arithmetic: the root of a
    /// 128-bit raw value fits in 64 bits, and is scaled by `ROOT_ONE`, so the
    /// result carries six decimal digits of fraction. `round_up` picks the
    /// direction in which an inexact root is rounded. The error bound: the
    /// result lies within `ROOT_ONE` raw units (10^-6) of the exact root, below
    /// it when rounding down and above it when rounding up (the exact root's
    /// raw value squared is `self.value * ONE`).
    pub fn sqrt_u64(&self, round_up: bool) -> (r: PreciseNumber)
        ensures
            r.value == sqrt_raw(self.value as nat, round_up),
            !round_up ==> r.value * r.value <= self.value * ONE
                && self.value * ONE < (r.value + ROOT_ONE) * (r.value + ROOT_ONE),
            round_up ==> self.value * ONE <= r.value * r.value
                && (r.value == 0 || (r.value - ROOT_ONE) * (r.value - ROOT_ONE) < self.value * ONE),
    {
        let v = self.value;
        let mut lo: u128 = 0;
        let mut hi: u128 = 0x1_0000_0000_0000_0000;
        assert(v < hi * hi) by (nonlinear_arith)
            requires
                hi == 0x1_0000_0000_0000_0000u128,
                v <= u128::MAX,
        ;
        while hi - lo > 1
            invariant
                lo < hi <= 0x1_0000_0000_0000_0000u128,
                lo * lo <= v,
                v < hi * hi,
            decreases hi - lo,
        {
            let mid = lo + (hi - lo) / 2;
            assert(mid * mid < 0x1_0000_0000_0000_0000_0000_0000_0000_0000) by (nonlinear_arith)
                requires
                    mid < 0x1_0000_0000_0000_0000u128,
            ;
            if mid * mid <= v {
                lo = mid;
            } else {
                hi = mid;
            }
        }
        proof {
            assert(is_floor_sqrt(v as nat, lo as nat));
            lemma_floor_sqrt_unique(v as nat, lo as nat);
        }
        let root = if round_up && lo * lo != v {
            lo + 1
        } else {
            lo
        };
        proof {
            lemma_root_scaled(v as nat, lo as nat);
            if round_up && lo * lo != v {
                assert(lo * lo < v);
                assert((lo + 1) * ROOT_ONE - ROOT_ONE == lo * ROOT_ONE) by (nonlinear_arith);
            }
        }
        PreciseNumber { value: root * ROOT_ONE }
    }

    /// The distance between the two numbers, and whether `self - other` is negative.
    pub fn unsigned_sub(&self, other: &PreciseNumber) -> (r: (PreciseNumber, bool))
        ensures
            r.1 == (self.value < other.value),
            r.1 ==> r.0.value == other.value - self.value,
            !r.1 ==> r.0.value == self.value - other.value,
    {
        if self.value < other.value {
            (PreciseNumber { value: other.value - self.value }, true)
        } else {
            (PreciseNumber { value: self.value - other.value }, false)
        }
    }
}

} // verus!
