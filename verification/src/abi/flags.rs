//! Deferred producers of the architectural flags.

use vstd::prelude::*;

verus! {

/// How NZCV can be computed from values that are still at hand.
#[derive(Debug, PartialEq, Eq)]
pub enum LazyFlags<Value> {
    Canonical(Value),
    Packed(Value),
    Add { lhs: Value, rhs: Value, result: Value, width: u8 },
    Subtract { lhs: Value, rhs: Value, result: Value, width: u8 },
    AddCarry { lhs: Value, rhs: Value, carry: Value, result: Value, width: u8 },
    SubtractCarry { lhs: Value, rhs: Value, carry: Value, result: Value, width: u8 },
    Logical { result: Value, width: u8 },
    Conditional {
        predicate: Value,
        when_true: Box<LazyFlags<Value>>,
        /// The instruction's four-bit NZCV literal, not packed bits 31:28.
        when_false: u32,
    },
}

impl<Value: Copy> Clone for LazyFlags<Value> {
    fn clone(&self) -> (r: LazyFlags<Value>)
        ensures
            r == *self,
        decreases self,
    {
        match self {
            LazyFlags::Canonical(value) => LazyFlags::Canonical(*value),
            LazyFlags::Packed(value) => LazyFlags::Packed(*value),
            LazyFlags::Add { lhs, rhs, result, width } => LazyFlags::Add {
                lhs: *lhs,
                rhs: *rhs,
                result: *result,
                width: *width,
            },
            LazyFlags::Subtract { lhs, rhs, result, width } => LazyFlags::Subtract {
                lhs: *lhs,
                rhs: *rhs,
                result: *result,
                width: *width,
            },
            LazyFlags::AddCarry { lhs, rhs, carry, result, width } => LazyFlags::AddCarry {
                lhs: *lhs,
                rhs: *rhs,
                carry: *carry,
                result: *result,
                width: *width,
            },
            LazyFlags::SubtractCarry { lhs, rhs, carry, result, width } => LazyFlags::SubtractCarry {
                lhs: *lhs,
                rhs: *rhs,
                carry: *carry,
                result: *result,
                width: *width,
            },
            LazyFlags::Logical { result, width } => LazyFlags::Logical {
                result: *result,
                width: *width,
            },
            LazyFlags::Conditional { predicate, when_true, when_false } => LazyFlags::Conditional {
                predicate: *predicate,
                when_true: Box::new((&**when_true).clone()),
                when_false: *when_false,
            },
        }
    }
}

impl<Value> LazyFlags<Value> {
    /// Canonical storage no longer holds the flags.
    pub fn dirty(&self) -> (r: bool)
        ensures
            r == !(self is Canonical),
    {
        !matches!(self, LazyFlags::Canonical(_))
    }
}

} // verus!
