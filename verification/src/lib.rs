//! Verified core of a tiered JIT for A64 guests.
//!
//! The crate holds the decisions of the compiler and of the runtime around it:
//! dataflow over guest state, physical entry and exit contracts, executable
//! memory accounting, relocation, code lifetime, and lowering plans. Emission
//! of host code, system calls and threads live in the surrounding application.

pub mod abi;
pub mod analysis;
pub mod decode;
pub mod direct;
pub mod executable;
pub mod fp_env;
pub mod fp_policy;
pub mod lifetime;
pub mod meaning;
pub mod native;
pub mod simd;
