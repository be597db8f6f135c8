//! Bounded executable storage: budget, spans, staging and relocation.

use vstd::prelude::*;

pub mod cache;
pub mod output;
pub mod segment;
pub mod usage;

verus! {

pub const MIB: usize = 1048576;

/// Bytes of address space reserved for code, reachable by direct branches.
pub const WINDOW_BYTES: usize = 2146435072;

pub const SEGMENT_BYTES: usize = 16777216;

pub const SEGMENTS: usize = 128;

/// The end of each segment is kept for branch islands.
pub const ISLAND_BYTES: usize = 65536;

pub const SOFT_BYTES: usize = 536870912;

pub const HARD_BYTES: usize = 671088640;

/// The part of the hard limit that only the low tier may use.
pub const LCQ_RESERVE: usize = 33554432;

#[derive(Clone, Copy, Debug, PartialEq, Eq, Structural)]
pub enum Tier {
    Lcq,
    Hcq,
}

/// Relocation kinds of the supported code generators. Every kind without a
/// documented encoding here is rejected.
#[derive(Clone, Copy, Debug, PartialEq, Eq, Structural)]
pub enum Reloc {
    Abs8,
    Abs4,
    X86PCRel4,
    X86CallPCRel4,
    X86GOTPCRel4,
    Arm64Call,
    Aarch64AdrPrelPgHi21,
    Aarch64AddAbsLo12Nc,
    Other(u32),
}

#[derive(Debug)]
pub enum Error {
    /// A host operation failed with this error number.
    Host { operation: &'static str, code: i32 },
    Capacity(&'static str),
    Output(String),
    Relocation { offset: u32, kind: Reloc, detail: &'static str },
    Poisoned,
    Closed,
}

} // verus!
