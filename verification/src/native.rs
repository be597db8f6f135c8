//! Transfers of live values across native boundaries.

pub mod schedule;
pub mod store;
pub mod transfer;
