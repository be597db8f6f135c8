//! How vector and floating-point instructions become native code.

pub mod cold;
pub mod conditions;
pub mod emit;
pub mod guards;
pub mod immediates;
pub mod lanes;
pub mod memory;
pub mod plan;
pub mod shifts;
pub mod shuffles;
pub mod vector;
