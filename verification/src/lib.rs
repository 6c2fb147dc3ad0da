//! Rank assignment for layered drawings of directed acyclic graphs.
//!
//! A ranking gives every vertex an integer layer so that each edge points
//! from a lower layer to a higher one, at least a minimum length apart.
//! [`initial::initial_ranking`] builds a first ranking,
//! [`tighten::feasible_tree`] moves tight trees until tight edges span every
//! connected component, and [`rank::Ranks::into_layers`] groups the
//! vertices by rank. [`assign::assign_ranks`] does the first two in one call.

pub mod assign;
pub mod connect;
pub mod error;
pub mod forest;
pub mod graph;
pub mod initial;
pub mod layers;
pub mod rank;
pub mod shift;
pub mod tighten;
pub mod tree;
