//! Query-side logic of the engine that involves no probabilities: the
//! three-valued truth type, FIND's modes, and the region-containment
//! certainty of a categorical join.
//!
//! - [`types`] — three-valued truth, FIND modes, JOIN option defaults
//! - [`join`] — certainty of a `same` join between two supports

pub mod join;
pub mod types;
