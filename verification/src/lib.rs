//! Building blocks for a trailing constraint-programming solver.
//!
//! - [`context`]: the trail, which opens and closes checkpoints and runs the
//!   restore actions registered between them;
//! - [`reversible`]: cells whose values the trail restores;
//! - [`search`]: a model of the moves a solver makes with a trail and its
//!   cells;
//! - [`laws`]: what closing checkpoints guarantees, proved over that model.
pub mod context;
pub mod laws;
pub mod reversible;
pub mod search;
