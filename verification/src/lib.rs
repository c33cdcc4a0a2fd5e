//! Progressive tier-based fee calculation over exact fixed-point decimals.
//!
//! A [`table::TieredCalculator`] holds a table of `(threshold, rate)` tiers,
//! kept in ascending threshold order with unique thresholds.  Its `calculate`
//! operation charges each band of an amount at that band's rate and sums the
//! contributions.  Amounts, thresholds and rates are [`fixed::Dec`] values:
//! exact decimals with six fractional digits, so that results are reproducible
//! to the cent on every platform.  Fees come back as [`fixed::Fee`] values
//! with twelve fractional digits, which keeps every product exact.
//!
//! The module [`laws`] states and proves the general properties of the
//! calculation: what an empty table charges, what a single tier charges,
//! and that the fee grows with the amount when no rate is negative.

pub mod fixed;
pub mod laws;
pub mod table;
