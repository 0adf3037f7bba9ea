//! Pricing core of a linear-price bonding-curve market: a fixed-point number
//! type, a quadratic solver built on it, the curve that prices swaps, and the
//! fee and amount conversions of a trade against a pool.
pub mod precise;
pub mod curve;
pub mod trade;
