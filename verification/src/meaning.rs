//! What guest instructions do to the state of the guest, and the laws that tie the
//! analyses and the plans of the compiler to it.

pub mod branches;
pub mod effects;
pub mod execution;
pub mod floats;
pub mod guest;
pub mod lanes;
pub mod liveness;
pub mod moves;
pub mod needs;
pub mod numbers;
pub mod operands;
pub mod transfers;
pub mod vectors;
