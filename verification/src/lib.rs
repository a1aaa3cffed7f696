//! Dice-notation parsing and roll computation.
//!
//! The library accepts tabletop dice notation (`"3d6"`, or `"20"` as a
//! shorthand for one twenty-sided die), rolls the described dice, and applies
//! a small set of modifiers: exploding dice, keep/drop-highest selection, and
//! success/crit threshold counting.

use vstd::prelude::*;

pub mod engine;
pub mod notation;
pub mod sorting;

verus! {

pub use crate::engine::roll_dice;
pub use crate::notation::parse_dice_notation;

/// A parsed dice notation: how many dice, how many sides, and the original
/// notation text, kept verbatim for round-trip display.
#[derive(Debug, Clone)]
pub struct DiceRoll {
    pub num_dice: u32,
    pub num_sides: u32,
    pub notation: String,
}

/// Caller-supplied modifiers for a roll. `keep` and `drop` are mutually
/// exclusive; all fields default to "off".
#[derive(Debug, Clone)]
pub struct RollOptions {
    pub explode: bool,
    pub keep: Option<u32>,
    pub drop: Option<u32>,
    pub success: Option<u32>,
    pub crit: Option<u32>,
}

impl Default for RollOptions {
    /// All modifiers switched off.
    fn default() -> (r: RollOptions)
        ensures
            !r.explode,
            r.keep is None,
            r.drop is None,
            r.success is None,
            r.crit is None,
    {
        RollOptions { explode: false, keep: None, drop: None, success: None, crit: None }
    }
}

/// The outcome of one roll: every generated value in generation order, the
/// post-selection values, their total, and the success/crit counts.
#[derive(Debug, Clone)]
pub struct RollResult {
    pub rolls: Vec<u32>,
    pub kept_rolls: Vec<u32>,
    pub total: u32,
    pub successes: u32,
    pub crits: u32,
    pub notation: String,
}

/// A terminal error: either the notation string matches neither grammar form,
/// or the option record is inconsistent.
#[derive(Debug)]
pub enum DiceError {
    InvalidNotation(String),
    InvalidOptions(String),
}

} // verus!
