//! A Monte Carlo Tree Search engine for two-player, perfect-information,
//! turn-based games.
//!
//! The engine is generic over a [`state::State`]: any game that can enumerate
//! its legal actions, apply one, test terminality and report a terminal
//! reward can be searched. The search tree lives in an append-only
//! [`arena::Arena`] of [`node::Node`]s linked by indices, and the engine in
//! [`search`] drives the select / expand / simulate / backpropagate loop and
//! extracts the best root action. [`tic_tac_toe`] supplies a small game that
//! exercises the whole engine.

pub mod arena;
pub mod ext;
pub mod node;
pub mod search;
pub mod num;
pub mod state;
pub mod tic_tac_toe;

use vstd::prelude::*;

verus! {

/// Fixed-point scale: one unit of a scaled quantity is `1 / SCALE`.
pub const SCALE: u64 = 1_000_000;

/// Largest exploration constant a search accepts, scaled by [`SCALE`]
/// (an unscaled constant of 1000); it keeps the UCB arithmetic within `u64`.
pub const C_MAX: u64 = 1_000_000_000;

/// Most rollouts one backpropagation may carry, and the root visit count at
/// which a search stops early rather than risk overflowing the statistics.
pub const BATCH_CAP: u64 = 0xFFFF_FFFF;

/// Largest visit count any node can reach: one batch beyond [`BATCH_CAP`].
pub const VISITS_CAP: u64 = 0x1_FFFF_FFFE;

} // verus!
