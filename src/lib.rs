//! Tables and rules for solving Yatzy with five or six dice.
//!
//! - `dice_throw`: hands as face counts, the scoring rules, ordered dice,
//!   reroll masks and sub-hands.
//! - `dice_distributions`: the hands of a game in lexicographic order, their
//!   inverse map, roll probabilities and the reroll transition counts.
//! - `level_ordering`: the reachable configurations of the upper and lower
//!   sections, grouped by how many categories are filled, with inverse maps.
//! - `yatzy`: a game state, filling a category with its bonus delta, and its
//!   table coordinates.
//! - `guide`: strategy bytes, score sheets and category names.
//! - `layer_schedule`: the order in which layers are solved and the test of
//!   a layer on disk.
//! - `simulation`: positions of states in the strategy layers, the stored
//!   byte of a state, and turns and whole games played by stored strategies.
//! - `util`: flags as binary numbers.

pub mod dice_distributions;
pub mod dice_throw;
pub mod guide;
pub mod layer_schedule;
pub mod level_ordering;
pub mod simulation;
pub mod util;
pub mod yatzy;
