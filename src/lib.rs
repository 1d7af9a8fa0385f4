//! Minimum enclosing ball of a set of points, by Welzl's recursion.
//!
//!   * [`Enclosing`] is what a ball type offers: its dimension, a containment test, and the
//!     circumscribed ball of a set of bounds.
//!   * [`enclosing_points`] finds the minimum ball enclosing a [`Deque`] of points, moving the
//!     points found on its surface to the front.
//!   * [`OVec`] holds the bounds of one branch of the recursion, never more than its capacity.
//!   * [`maybe_grow`] moves deep recursion onto a fresh stack before the current one runs out.

mod deque;
mod enclosing;
mod guard;
mod ovec;

pub use deque::Deque;
pub use enclosing::{
    descends, enclose, enclosing_points, enclosing_points_with_bounds, holds_own_bounds,
    lemma_enclose_bounds, lemma_enclose_permutes, lemma_enclose_single, lemma_welzl_holds,
    simplex_dimension, welzl, welzl_steps, Descent, Enclosing,
};
pub use guard::{maybe_grow, red_zone, stack_size};
pub use ovec::OVec;
