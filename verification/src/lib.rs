//! A warehouse routing library that learns shortest routes between named
//! locations of a fixed graph by tabular Q-learning, then reads the route
//! out of the learned value table by a greedy walk.
//!
//! Values are held in fixed-point arithmetic: a Q-value is an integer count
//! of thousandths, and the discount factor and learning rate are integer
//! numerators over [`DENOM`].
use vstd::prelude::*;

pub mod compose;
pub mod extract;
pub mod learn;
pub mod matrix;
pub mod model;
pub mod random;

verus! {

/// Denominator of the fixed-point scale: the discount factor and learning
/// rate are fractions over this value, and Q-values are integer multiples
/// of `1 / DENOM`.
pub const DENOM: i64 = 1000;

/// Largest admissible entry of a reward matrix.
pub const MAX_REWARD: i64 = 1_000_000;

/// Upper bound that every entry of a trained Q-table stays under, in
/// fixed-point units. Chosen so that one learning update on in-bound
/// values stays in bound for every admissible discount factor.
pub const Q_BOUND: i64 = MAX_REWARD * DENOM * DENOM;

/// Reward written at the goal state's self-transition, so that the learner
/// is pulled toward the goal.
pub const GOAL_BONUS: i64 = 1000;

/// How a route query can fail.
#[derive(Debug, PartialEq, Eq)]
pub enum RouteError {
    /// A supplied location name is not in the environment's mapping.
    UnknownLocation(String),
    /// The greedy walk over the trained table exceeded its step bound
    /// without reaching the goal.
    RouteExtractionStalled,
}

} // verus!
