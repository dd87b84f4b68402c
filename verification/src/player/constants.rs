//! The numbers that govern a player's survival.

use vstd::prelude::*;

verus! {

/// Hunger grows by one every this many turns.
pub const HUNGER_INTERVAL: u32 = 8;

/// Thirst grows by one every this many turns.
pub const THIRST_INTERVAL: u32 = 6;

/// The hunger a new player can bear.
pub const INITIAL_HUNGER_CAP: u32 = 10;

/// The thirst a new player can bear.
pub const INITIAL_THIRST_CAP: u32 = 10;

/// The chance, in hundredths, that a won fight raises the player's damage.
pub const UPGRADE_PERCENT: u32 = 40;

/// The character that stands for the player on the map.
pub const CHARACTER: char = 'G';

} // verus!
