//! # nescioDB
//!
//! *nescio* (lat.): "I do not know". A database whose primary object is
//! ignorance, not values: a slot without evidence is a region of maximal
//! entropy, evidence narrows it, time widens it again.
//!
//! This crate holds the parts of nescioDB whose behaviour is stated and
//! proved:
//!
//! - [`binlog`] — the binary evidence log: encoding, decoding, torn-tail recovery
//! - [`time`] — calendar arithmetic, reading and writing points in time
//! - [`rng`] — the deterministic generator behind SAMPLE
//! - [`engine`] — three-valued truth, FIND modes, the certainty of a `same` join
//! - [`model`] — evidence records, categorical domains
//! - [`store`] — the coupling graph's cycle test, coupling labels, slot removal
//! - [`watch`] — the knowledge-horizon search and watch transitions
//! - [`server`] — query strings, the route table, HTTP answers
//! - [`text`] — string helpers shared by the above
//! - [`error`] — the error type

pub mod error;
pub mod text;
pub mod binlog;
pub mod model;
pub mod time;
pub mod rng;
pub mod engine;
pub mod server;
pub mod store;
pub mod watch;
