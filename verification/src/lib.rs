//! Planning the excavation of a grid whose hardness is only learned by
//! probing: estimating the cost field, finding cheap paths over it, joining
//! houses to water sources by a forest of such paths, and improving that
//! forest by random search before the digging is committed.

pub mod cells;
pub mod estimate;
pub mod field;
pub mod flood;
pub mod grid;
pub mod guess;
pub mod network;
pub mod path;
pub mod probe;
pub mod queue;
pub mod schedule;
pub mod search;
pub mod smoothing;
pub mod solver;
pub mod sums;
pub mod union_find;
pub mod walk;
