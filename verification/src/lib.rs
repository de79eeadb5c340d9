//! An Elo-style rating engine.
//!
//! The engine recomputes skill ratings for named entities after an ordered
//! list of match results: a logistic probability model, a rating-dependent
//! volatility ("k-factor") bracket lookup, per-format win weights, and a
//! strict left-to-right fold that aborts on the first unresolvable match.
//!
//! Ratings, k-factors and win weights are real numbers in the surrounding
//! application. Verified code carries each of them as an opaque 32-bit
//! payload (`u32`): the engine never computes with the numeric values
//! themselves. The two places where real arithmetic happens — averaging two
//! ratings before the bracket lookup, and the Elo update formula — are
//! supplied by the caller as closures, and every contract here states exactly
//! how the engine's decisions and table updates relate to whatever values
//! those closures return.

pub mod config;
pub mod engine;
pub mod table;
