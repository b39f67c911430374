//! Odds of winning a single-elimination tournament.
//!
//! Entrants are drawn into a bracket whose length is a power of two, unused
//! places being byes. For every place the library computes the chance that its
//! occupant wins the whole bracket, from pairwise chances that a rating
//! predictor supplies. All chances are fixed-point numbers: a `u64` counting
//! parts of [`predictor::SCALE`].
//!
//! - [`util`]: powers of two.
//! - [`bracket`]: entrants, the tournament's description, building a bracket.
//! - [`predictor`]: the predictor's interface, and the Elo curve.
//! - [`engine`]: the chance of each place to win.
//! - [`totals`]: what the chances of a bracket add up to.
//! - [`nesting`]: a bound on how deeply a text nests its values.
//! - [`document`]: the calls into the `toml` crate.
//! - [`loader`]: from the text of a tournament file to a bracket.

pub mod bracket;
pub mod document;
pub mod engine;
pub mod loader;
pub mod nesting;
pub mod predictor;
pub mod totals;
pub mod util;
