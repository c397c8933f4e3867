//! The data model: what the evidence log stores, and the categorical
//! domains that claims about labelled values are checked against.
//!
//! - [`evidence`] — claims and evidence records as they travel through the log
//! - [`domain`] — categorical slot domains

pub mod domain;
pub mod evidence;
