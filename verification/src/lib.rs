//! Exact distributions of the position of moving entities on a board of
//! 880 cells.
//!
//! An entity starts at one of a range of cells and moves towards cell 0.
//! How far it gets in a given time is random: its speed is drawn from a
//! range, and a slow effect, if there is one, lasts for one of up to 201
//! lengths of time. The library computes the distribution of its position
//! in exact rational arithmetic.
//!
//! An evaluation yields the masses of the distribution: weights that are
//! added to runs of cells, in the order in which they are added, together
//! with the exact bounds of the positions that the entity can have. Every
//! weight is a fraction of 64-bit integers, and an evaluation fails exactly
//! if one of its numbers has no such fraction.
//!
//! - [`rational`] holds the numbers, [`number_theory`] what is proved of
//!   fractions in lowest terms.
//! - [`timing`] splits the time of an entity into its phases and weighs the
//!   lengths of the slow effect.
//! - [`fractions`] lists the fractions of bounded denominator within an
//!   interval, in the order that [`sorting`] gives them.
//! - [`constant`], [`animation`] and [`mixture`] are the evaluators, one
//!   for each kind of movement; [`walk`], [`cover`], [`segment`] and
//!   [`plan`] are the parts of an animation. [`engine`] picks the evaluator.
//! - [`mass`] holds the masses and what they add up to, [`histogram`] the
//!   difference array that turns them into the probabilities of the cells.
//! - [`totals`] and [`support`] prove that the masses of an evaluation add
//!   up to 1 and lie within its bounds.
//! - [`parse`] and [`record`] read the entity database.

pub mod number_theory;
pub mod rational;
pub mod sorting;
pub mod common;
pub mod timing;
pub mod fractions;
pub mod mass;
pub mod histogram;
pub mod constant;
pub mod walk;
pub mod cover;
pub mod segment;
pub mod plan;
pub mod animation;
pub mod mixture;
pub mod engine;
pub mod totals;
pub mod support;
pub mod parse;
pub mod record;
