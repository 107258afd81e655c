//! Dice notation: parsing "NdM" tokens, validating them, and rolling them.

pub mod notation;
pub mod roll;

pub use notation::{parse_roll, RollError, RollInstructions};
pub use roll::{gen_roll, roll, roll_dice, roll_with, tally, validate, DiceResult, RollResult, MAX_DICE};
