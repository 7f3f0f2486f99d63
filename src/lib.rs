//! Random draws from a biased coin, a ranged die, or a list of options,
//! with and without replacement, and the tallies made from them.
mod random;
pub mod report;
pub mod tally;
pub mod tossable;

pub use tossable::{Chooser, Coin, CoinFace, Dice, Extractor, Tossable};
