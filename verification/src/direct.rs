//! Execution of guest code through compiled regions.

pub mod builds;
pub mod changes;
pub mod checks;
pub mod compiler;
pub mod dirty;
pub mod dominance;
pub mod endings;
pub mod error;
pub mod exit;
pub mod fault;
pub mod flags;
pub mod intake;
pub mod invalidation;
pub mod loads;
pub mod publication;
pub mod region;
pub mod report;
pub mod registers;
pub mod round;
pub mod run;
pub mod scheduler;
pub mod sites;
pub mod slice;
pub mod text;
pub mod translate;
