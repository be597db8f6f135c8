//! Who may run which code, and when its storage may be reused.

pub mod admission;
pub mod cleared;
pub mod collect;
pub mod coordinator;
pub mod detach;
pub mod directory;
pub mod dispatch;
pub mod drain;
pub mod ending;
pub mod keys;
pub mod pages;
pub mod prepare;
pub mod process;
pub mod publish;
pub mod reclaim;
pub mod registry;
pub mod stop;
pub mod sums;
pub mod unit;
pub mod units;
