//! The four flags as expressions over the values they are deferred to.

use vstd::prelude::*;
use crate::abi::flags::LazyFlags;

verus! {

/// A bit that native code computes. Values are machine words of the width of the
/// operation; a carry and a predicate are words that hold zero or one.
#[derive(Debug, PartialEq, Eq)]
pub enum BitExpr<Value> {
    Literal(bool),
    /// Bit `bit` of a value.
    Bit { value: Value, bit: u8 },
    IsZero(Value),
    /// A word that holds zero or one.
    Word(Value),
    Below(Value, Value),
    AtLeast(Value, Value),
    Above(Value, Value),
    Same(Value, Value),
    /// Bit `bit` of `!(lhs ^ rhs) & (lhs ^ result)`.
    SumChangesSign { lhs: Value, rhs: Value, result: Value, bit: u8 },
    /// Bit `bit` of `(lhs ^ rhs) & (lhs ^ result)`.
    DifferenceChangesSign { lhs: Value, rhs: Value, result: Value, bit: u8 },
    Not(Box<BitExpr<Value>>),
    And(Box<BitExpr<Value>>, Box<BitExpr<Value>>),
    Or(Box<BitExpr<Value>>, Box<BitExpr<Value>>),
    Equal(Box<BitExpr<Value>>, Box<BitExpr<Value>>),
    Differ(Box<BitExpr<Value>>, Box<BitExpr<Value>>),
    Select { predicate: Value, when_true: Box<BitExpr<Value>>, when_false: bool },
}

/// Bit `bit` of a word.
pub open spec fn bit_of(word: u64, bit: u8) -> bool {
    (word >> bit) & 1 == 1
}

impl<Value> BitExpr<Value> {
    /// The bit, where each value holds the word that `env` gives.
    pub open spec fn eval(self, env: spec_fn(Value) -> u64) -> bool
        decreases self,
    {
        match self {
            BitExpr::Literal(bit) => bit,
            BitExpr::Bit { value, bit } => bit_of(env(value), bit),
            BitExpr::IsZero(value) => env(value) == 0,
            BitExpr::Word(value) => env(value) != 0,
            BitExpr::Below(a, b) => env(a) < env(b),
            BitExpr::AtLeast(a, b) => env(a) >= env(b),
            BitExpr::Above(a, b) => env(a) > env(b),
            BitExpr::Same(a, b) => env(a) == env(b),
            BitExpr::SumChangesSign { lhs, rhs, result, bit } => bit_of(
                !(env(lhs) ^ env(rhs)) & (env(lhs) ^ env(result)),
                bit,
            ),
            BitExpr::DifferenceChangesSign { lhs, rhs, result, bit } => bit_of(
                (env(lhs) ^ env(rhs)) & (env(lhs) ^ env(result)),
                bit,
            ),
            BitExpr::Not(a) => !a.eval(env),
            BitExpr::And(a, b) => a.eval(env) && b.eval(env),
            BitExpr::Or(a, b) => a.eval(env) || b.eval(env),
            BitExpr::Equal(a, b) => a.eval(env) == b.eval(env),
            BitExpr::Differ(a, b) => a.eval(env) != b.eval(env),
            BitExpr::Select { predicate, when_true, when_false } => if env(predicate) != 0 {
                when_true.eval(env)
            } else {
                when_false
            },
        }
    }
}

/// Two to the power of the width.
pub open spec fn modulus(width: u8) -> int {
    if width == 32 {
        0x1_0000_0000
    } else {
        0x1_0000_0000_0000_0000
    }
}

pub open spec fn is_width(width: u8) -> bool {
    width == 32 || width == 64
}

/// The word read as a two's complement number.
pub open spec fn signed(word: u64, width: u8) -> int {
    if word < modulus(width) / 2 {
        word as int
    } else {
        word - modulus(width)
    }
}

pub open spec fn fits_signed(value: int, width: u8) -> bool {
    -modulus(width) / 2 <= value < modulus(width) / 2
}

/// The values hold what the operation computed.
pub open spec fn computed<Value>(flags: LazyFlags<Value>, env: spec_fn(Value) -> u64) -> bool
    decreases flags,
{
    match flags {
        LazyFlags::Canonical(_) => true,
        LazyFlags::Packed(_) => true,
        LazyFlags::Add { lhs, rhs, result, width } => {
            &&& is_width(width)
            &&& env(lhs) < modulus(width) && env(rhs) < modulus(width)
            &&& env(result) == (env(lhs) + env(rhs)) % modulus(width)
        },
        LazyFlags::Subtract { lhs, rhs, result, width } => {
            &&& is_width(width)
            &&& env(lhs) < modulus(width) && env(rhs) < modulus(width)
            &&& env(result) == (env(lhs) - env(rhs)) % modulus(width)
        },
        LazyFlags::AddCarry { lhs, rhs, carry, result, width } => {
            &&& is_width(width)
            &&& env(lhs) < modulus(width) && env(rhs) < modulus(width) && env(carry) <= 1
            &&& env(result) == (env(lhs) + env(rhs) + env(carry)) % modulus(width)
        },
        LazyFlags::SubtractCarry { lhs, rhs, carry, result, width } => {
            &&& is_width(width)
            &&& env(lhs) < modulus(width) && env(rhs) < modulus(width) && env(carry) <= 1
            &&& env(result) == (env(lhs) - env(rhs) - 1 + env(carry)) % modulus(width)
        },
        LazyFlags::Logical { result, width } => is_width(width) && env(result) < modulus(width),
        LazyFlags::Conditional { predicate, when_true, when_false } => computed(*when_true, env),
    }
}

/// The sign of the result.
pub open spec fn n_of<Value>(flags: LazyFlags<Value>, env: spec_fn(Value) -> u64) -> bool
    decreases flags,
{
    match flags {
        LazyFlags::Canonical(packed) => bit_of(env(packed), 31),
        LazyFlags::Packed(packed) => bit_of(env(packed), 31),
        LazyFlags::Add { result, width, .. } => signed(env(result), width) < 0,
        LazyFlags::Subtract { result, width, .. } => signed(env(result), width) < 0,
        LazyFlags::AddCarry { result, width, .. } => signed(env(result), width) < 0,
        LazyFlags::SubtractCarry { result, width, .. } => signed(env(result), width) < 0,
        LazyFlags::Logical { result, width } => signed(env(result), width) < 0,
        LazyFlags::Conditional { predicate, when_true, when_false } => if env(predicate) != 0 {
            n_of(*when_true, env)
        } else {
            bit_of(when_false as u64, 3)
        },
    }
}

/// The result is zero.
pub open spec fn z_of<Value>(flags: LazyFlags<Value>, env: spec_fn(Value) -> u64) -> bool
    decreases flags,
{
    match flags {
        LazyFlags::Canonical(packed) => bit_of(env(packed), 30),
        LazyFlags::Packed(packed) => bit_of(env(packed), 30),
        LazyFlags::Add { result, .. } => env(result) == 0,
        LazyFlags::Subtract { result, .. } => env(result) == 0,
        LazyFlags::AddCarry { result, .. } => env(result) == 0,
        LazyFlags::SubtractCarry { result, .. } => env(result) == 0,
        LazyFlags::Logical { result, .. } => env(result) == 0,
        LazyFlags::Conditional { predicate, when_true, when_false } => if env(predicate) != 0 {
            z_of(*when_true, env)
        } else {
            bit_of(when_false as u64, 2)
        },
    }
}

/// A sum carries out; a difference does not borrow.
pub open spec fn c_of<Value>(flags: LazyFlags<Value>, env: spec_fn(Value) -> u64) -> bool
    decreases flags,
{
    match flags {
        LazyFlags::Canonical(packed) => bit_of(env(packed), 29),
        LazyFlags::Packed(packed) => bit_of(env(packed), 29),
        LazyFlags::Add { lhs, rhs, width, .. } => env(lhs) + env(rhs) >= modulus(width),
        LazyFlags::Subtract { lhs, rhs, .. } => env(lhs) - env(rhs) >= 0,
        LazyFlags::AddCarry { lhs, rhs, carry, width, .. } => env(lhs) + env(rhs) + env(carry)
            >= modulus(width),
        LazyFlags::SubtractCarry { lhs, rhs, carry, .. } => env(lhs) - env(rhs) - 1 + env(carry)
            >= 0,
        LazyFlags::Logical { .. } => false,
        LazyFlags::Conditional { predicate, when_true, when_false } => if env(predicate) != 0 {
            c_of(*when_true, env)
        } else {
            bit_of(when_false as u64, 1)
        },
    }
}

/// The signed result does not fit.
pub open spec fn v_of<Value>(flags: LazyFlags<Value>, env: spec_fn(Value) -> u64) -> bool
    decreases flags,
{
    match flags {
        LazyFlags::Canonical(packed) => bit_of(env(packed), 28),
        LazyFlags::Packed(packed) => bit_of(env(packed), 28),
        LazyFlags::Add { lhs, rhs, width, .. } => !fits_signed(
            signed(env(lhs), width) + signed(env(rhs), width),
            width,
        ),
        LazyFlags::Subtract { lhs, rhs, width, .. } => !fits_signed(
            signed(env(lhs), width) - signed(env(rhs), width),
            width,
        ),
        LazyFlags::AddCarry { lhs, rhs, carry, width, .. } => !fits_signed(
            signed(env(lhs), width) + signed(env(rhs), width) + env(carry),
            width,
        ),
        LazyFlags::SubtractCarry { lhs, rhs, carry, width, .. } => !fits_signed(
            signed(env(lhs), width) - signed(env(rhs), width) - 1 + env(carry),
            width,
        ),
        LazyFlags::Logical { .. } => false,
        LazyFlags::Conditional { predicate, when_true, when_false } => if env(predicate) != 0 {
            v_of(*when_true, env)
        } else {
            bit_of(when_false as u64, 0)
        },
    }
}

proof fn lemma_sign_bit(word: u64, width: u8)
    requires
        is_width(width),
        word < modulus(width),
    ensures
        bit_of(word, (width - 1) as u8) == (signed(word, width) < 0),
{
    if width == 32 {
        assert(word < 0x1_0000_0000 ==> (((word >> 31u8) & 1 == 1) == (word >= 0x8000_0000)))
            by (bit_vector);
    } else {
        assert(((word >> 63u8) & 1 == 1) == (word >= 0x8000_0000_0000_0000)) by (bit_vector);
    }
}

/// The sign bit of each combination of words, by the signs of the words.
proof fn lemma_sign_combinations(lhs: u64, rhs: u64, result: u64, bit: u8)
    requires
        bit < 64,
    ensures
        bit_of(!(lhs ^ rhs) & (lhs ^ result), bit) == (bit_of(lhs, bit) == bit_of(rhs, bit)
            && bit_of(lhs, bit) != bit_of(result, bit)),
        bit_of((lhs ^ rhs) & (lhs ^ result), bit) == (bit_of(lhs, bit) != bit_of(rhs, bit)
            && bit_of(lhs, bit) != bit_of(result, bit)),
{
    assert(bit < 64 ==> (((!(lhs ^ rhs) & (lhs ^ result)) >> bit) & 1 == 1) == ((((lhs >> bit) & 1
        == 1) == ((rhs >> bit) & 1 == 1)) && (((lhs >> bit) & 1 == 1) != ((result >> bit) & 1
        == 1)))) by (bit_vector);
    assert(bit < 64 ==> ((((lhs ^ rhs) & (lhs ^ result)) >> bit) & 1 == 1) == ((((lhs >> bit) & 1
        == 1) != ((rhs >> bit) & 1 == 1)) && (((lhs >> bit) & 1 == 1) != ((result >> bit) & 1
        == 1)))) by (bit_vector);
}

/// A sum overflows exactly where its operands agree in sign and it does not.
proof fn lemma_sum_overflow(lhs: u64, rhs: u64, carry: u64, result: u64, width: u8)
    requires
        is_width(width),
        lhs < modulus(width),
        rhs < modulus(width),
        carry <= 1,
        result == (lhs + rhs + carry) % modulus(width),
    ensures
        result < modulus(width),
        bit_of(!(lhs ^ rhs) & (lhs ^ result), (width - 1) as u8) == !fits_signed(
            signed(lhs, width) + signed(rhs, width) + carry,
            width,
        ),
{
    lemma_sign_combinations(lhs, rhs, result, (width - 1) as u8);
    lemma_sign_bit(lhs, width);
    lemma_sign_bit(rhs, width);
    lemma_sign_bit(result, width);
}

proof fn lemma_difference_overflow(lhs: u64, rhs: u64, carry: u64, result: u64, width: u8)
    requires
        is_width(width),
        lhs < modulus(width),
        rhs < modulus(width),
        carry <= 1,
        result == (lhs - rhs - 1 + carry) % modulus(width),
    ensures
        result < modulus(width),
        bit_of((lhs ^ rhs) & (lhs ^ result), (width - 1) as u8) == !fits_signed(
            signed(lhs, width) - signed(rhs, width) - 1 + carry,
            width,
        ),
{
    lemma_sign_combinations(lhs, rhs, result, (width - 1) as u8);
    lemma_sign_bit(lhs, width);
    lemma_sign_bit(rhs, width);
    lemma_sign_bit(result, width);
}

fn literal_bit(literal: u32, bit: u8) -> (r: bool)
    requires
        bit < 32,
    ensures
        r == bit_of(literal as u64, bit),
{
    proof {
        assert(bit < 32 ==> ((literal >> bit) & 1 == 1) == (((literal as u64) >> bit) & 1 == 1))
            by (bit_vector);
    }
    (literal >> bit) & 1 == 1
}

pub fn flag_n<Value: Copy>(flags: &LazyFlags<Value>) -> (r: BitExpr<Value>)
    ensures
        forall|env: spec_fn(Value) -> u64| #[trigger]
            computed(*flags, env) ==> r.eval(env) == n_of(*flags, env),
    decreases flags,
{
    match flags {
        LazyFlags::Canonical(packed) => BitExpr::Bit { value: *packed, bit: 31 },
        LazyFlags::Packed(packed) => BitExpr::Bit { value: *packed, bit: 31 },
        LazyFlags::Add { result, width, .. } => sign_bit(*result, *width),
        LazyFlags::Subtract { result, width, .. } => sign_bit(*result, *width),
        LazyFlags::AddCarry { result, width, .. } => sign_bit(*result, *width),
        LazyFlags::SubtractCarry { result, width, .. } => sign_bit(*result, *width),
        LazyFlags::Logical { result, width } => sign_bit(*result, *width),
        LazyFlags::Conditional { predicate, when_true, when_false } => {
            let inner = flag_n(when_true);
            let literal = literal_bit(*when_false, 3);
            let r = BitExpr::Select {
                predicate: *predicate,
                when_true: Box::new(inner),
                when_false: literal,
            };
            proof {
                reveal_with_fuel(BitExpr::eval, 2);
                reveal_with_fuel(computed, 2);
                reveal_with_fuel(n_of, 2);
                assert forall|env: spec_fn(Value) -> u64| #[trigger] computed(
                    *flags,
                    env,
                ) implies r.eval(env) == n_of(*flags, env) by {
                    assert(computed(**when_true, env));
                    assert(inner.eval(env) == n_of(**when_true, env));
                }
            }
            r
        },
    }
}

fn sign_bit<Value: Copy>(value: Value, width: u8) -> (r: BitExpr<Value>)
    ensures
        forall|env: spec_fn(Value) -> u64|
            #![trigger r.eval(env)]
            is_width(width) && env(value) < modulus(width) ==> r.eval(env) == (signed(
                env(value),
                width,
            ) < 0),
{
    let r = BitExpr::Bit { value, bit: width.saturating_sub(1) };
    proof {
        assert forall|env: spec_fn(Value) -> u64|
            #![trigger r.eval(env)]
            is_width(width) && env(value) < modulus(width) implies r.eval(env) == (signed(
            env(value),
            width,
        ) < 0) by {
            lemma_sign_bit(env(value), width);
        }
    }
    r
}

pub fn flag_z<Value: Copy>(flags: &LazyFlags<Value>) -> (r: BitExpr<Value>)
    ensures
        forall|env: spec_fn(Value) -> u64| #[trigger]
            computed(*flags, env) ==> r.eval(env) == z_of(*flags, env),
    decreases flags,
{
    match flags {
        LazyFlags::Canonical(packed) => BitExpr::Bit { value: *packed, bit: 30 },
        LazyFlags::Packed(packed) => BitExpr::Bit { value: *packed, bit: 30 },
        LazyFlags::Add { result, .. } => BitExpr::IsZero(*result),
        LazyFlags::Subtract { result, .. } => BitExpr::IsZero(*result),
        LazyFlags::AddCarry { result, .. } => BitExpr::IsZero(*result),
        LazyFlags::SubtractCarry { result, .. } => BitExpr::IsZero(*result),
        LazyFlags::Logical { result, .. } => BitExpr::IsZero(*result),
        LazyFlags::Conditional { predicate, when_true, when_false } => {
            let inner = flag_z(when_true);
            let literal = literal_bit(*when_false, 2);
            let r = BitExpr::Select {
                predicate: *predicate,
                when_true: Box::new(inner),
                when_false: literal,
            };
            proof {
                reveal_with_fuel(BitExpr::eval, 2);
                reveal_with_fuel(computed, 2);
                reveal_with_fuel(z_of, 2);
                assert forall|env: spec_fn(Value) -> u64| #[trigger] computed(
                    *flags,
                    env,
                ) implies r.eval(env) == z_of(*flags, env) by {
                    assert(computed(**when_true, env));
                    assert(inner.eval(env) == z_of(**when_true, env));
                }
            }
            r
        },
    }
}

pub fn flag_c<Value: Copy>(flags: &LazyFlags<Value>) -> (r: BitExpr<Value>)
    ensures
        forall|env: spec_fn(Value) -> u64| #[trigger]
            computed(*flags, env) ==> r.eval(env) == c_of(*flags, env),
    decreases flags,
{
    match flags {
        LazyFlags::Canonical(packed) => BitExpr::Bit { value: *packed, bit: 29 },
        LazyFlags::Packed(packed) => BitExpr::Bit { value: *packed, bit: 29 },
        LazyFlags::Add { lhs, result, .. } => BitExpr::Below(*result, *lhs),
        LazyFlags::Subtract { lhs, rhs, .. } => BitExpr::AtLeast(*lhs, *rhs),
        LazyFlags::AddCarry { lhs, carry, result, .. } => {
            let r = BitExpr::Or(
                Box::new(BitExpr::Below(*result, *lhs)),
                Box::new(
                    BitExpr::And(
                        Box::new(BitExpr::Same(*result, *lhs)),
                        Box::new(BitExpr::Word(*carry)),
                    ),
                ),
            );
            proof {
                reveal_with_fuel(BitExpr::eval, 3);
            }
            r
        },
        LazyFlags::SubtractCarry { lhs, rhs, carry, .. } => {
            let r = BitExpr::Or(
                Box::new(BitExpr::Above(*lhs, *rhs)),
                Box::new(
                    BitExpr::And(
                        Box::new(BitExpr::Same(*lhs, *rhs)),
                        Box::new(BitExpr::Word(*carry)),
                    ),
                ),
            );
            proof {
                reveal_with_fuel(BitExpr::eval, 3);
            }
            r
        },
        LazyFlags::Logical { .. } => BitExpr::Literal(false),
        LazyFlags::Conditional { predicate, when_true, when_false } => {
            let inner = flag_c(when_true);
            let literal = literal_bit(*when_false, 1);
            let r = BitExpr::Select {
                predicate: *predicate,
                when_true: Box::new(inner),
                when_false: literal,
            };
            proof {
                reveal_with_fuel(BitExpr::eval, 2);
                reveal_with_fuel(computed, 2);
                reveal_with_fuel(c_of, 2);
                assert forall|env: spec_fn(Value) -> u64| #[trigger] computed(
                    *flags,
                    env,
                ) implies r.eval(env) == c_of(*flags, env) by {
                    assert(computed(**when_true, env));
                    assert(inner.eval(env) == c_of(**when_true, env));
                }
            }
            r
        },
    }
}

pub fn flag_v<Value: Copy>(flags: &LazyFlags<Value>) -> (r: BitExpr<Value>)
    ensures
        forall|env: spec_fn(Value) -> u64| #[trigger]
            computed(*flags, env) ==> r.eval(env) == v_of(*flags, env),
    decreases flags,
{
    match flags {
        LazyFlags::Canonical(packed) => BitExpr::Bit { value: *packed, bit: 28 },
        LazyFlags::Packed(packed) => BitExpr::Bit { value: *packed, bit: 28 },
        LazyFlags::Add { lhs, rhs, result, width } => {
            let r = BitExpr::SumChangesSign {
                lhs: *lhs,
                rhs: *rhs,
                result: *result,
                bit: width.saturating_sub(1),
            };
            proof {
                assert forall|env: spec_fn(Value) -> u64| #[trigger] computed(
                    *flags,
                    env,
                ) implies r.eval(env) == v_of(*flags, env) by {
                    lemma_sum_overflow(env(*lhs), env(*rhs), 0, env(*result), *width);
                }
            }
            r
        },
        LazyFlags::Subtract { lhs, rhs, result, width } => {
            let r = BitExpr::DifferenceChangesSign {
                lhs: *lhs,
                rhs: *rhs,
                result: *result,
                bit: width.saturating_sub(1),
            };
            proof {
                assert forall|env: spec_fn(Value) -> u64| #[trigger] computed(
                    *flags,
                    env,
                ) implies r.eval(env) == v_of(*flags, env) by {
                    lemma_difference_overflow(env(*lhs), env(*rhs), 1, env(*result), *width);
                }
            }
            r
        },
        LazyFlags::AddCarry { lhs, rhs, carry, result, width } => {
            let r = BitExpr::SumChangesSign {
                lhs: *lhs,
                rhs: *rhs,
                result: *result,
                bit: width.saturating_sub(1),
            };
            proof {
                assert forall|env: spec_fn(Value) -> u64| #[trigger] computed(
                    *flags,
                    env,
                ) implies r.eval(env) == v_of(*flags, env) by {
                    lemma_sum_overflow(env(*lhs), env(*rhs), env(*carry), env(*result), *width);
                }
            }
            r
        },
        LazyFlags::SubtractCarry { lhs, rhs, carry, result, width } => {
            let r = BitExpr::DifferenceChangesSign {
                lhs: *lhs,
                rhs: *rhs,
                result: *result,
                bit: width.saturating_sub(1),
            };
            proof {
                assert forall|env: spec_fn(Value) -> u64| #[trigger] computed(
                    *flags,
                    env,
                ) implies r.eval(env) == v_of(*flags, env) by {
                    lemma_difference_overflow(
                        env(*lhs),
                        env(*rhs),
                        env(*carry),
                        env(*result),
                        *width,
                    );
                }
            }
            r
        },
        LazyFlags::Logical { .. } => BitExpr::Literal(false),
        LazyFlags::Conditional { predicate, when_true, when_false } => {
            let inner = flag_v(when_true);
            let literal = literal_bit(*when_false, 0);
            let r = BitExpr::Select {
                predicate: *predicate,
                when_true: Box::new(inner),
                when_false: literal,
            };
            proof {
                reveal_with_fuel(BitExpr::eval, 2);
                reveal_with_fuel(computed, 2);
                reveal_with_fuel(v_of, 2);
                assert forall|env: spec_fn(Value) -> u64| #[trigger] computed(
                    *flags,
                    env,
                ) implies r.eval(env) == v_of(*flags, env) by {
                    assert(computed(**when_true, env));
                    assert(inner.eval(env) == v_of(**when_true, env));
                }
            }
            r
        },
    }
}

/// The conditions of the guest, by their encoding.
pub open spec fn condition_holds(condition: u8, n: bool, z: bool, c: bool, v: bool) -> bool {
    if condition == 0 {
        z
    } else if condition == 1 {
        !z
    } else if condition == 2 {
        c
    } else if condition == 3 {
        !c
    } else if condition == 4 {
        n
    } else if condition == 5 {
        !n
    } else if condition == 6 {
        v
    } else if condition == 7 {
        !v
    } else if condition == 8 {
        c && !z
    } else if condition == 9 {
        !c || z
    } else if condition == 10 {
        n == v
    } else if condition == 11 {
        n != v
    } else if condition == 12 {
        !z && n == v
    } else if condition == 13 {
        z || n != v
    } else {
        true
    }
}

/// The bit that tells whether a condition holds.
pub fn emit_condition<Value: Copy>(condition: u8, flags: &LazyFlags<Value>) -> (r: BitExpr<Value>)
    ensures
        forall|env: spec_fn(Value) -> u64| #[trigger]
            computed(*flags, env) ==> r.eval(env) == condition_holds(
                condition,
                n_of(*flags, env),
                z_of(*flags, env),
                c_of(*flags, env),
                v_of(*flags, env),
            ),
{
    proof {
        reveal_with_fuel(BitExpr::eval, 4);
    }
    match condition {
        0 => flag_z(flags),
        1 => BitExpr::Not(Box::new(flag_z(flags))),
        2 => flag_c(flags),
        3 => BitExpr::Not(Box::new(flag_c(flags))),
        4 => flag_n(flags),
        5 => BitExpr::Not(Box::new(flag_n(flags))),
        6 => flag_v(flags),
        7 => BitExpr::Not(Box::new(flag_v(flags))),
        8 => {
            let c = flag_c(flags);
            let z = flag_z(flags);
            BitExpr::And(Box::new(c), Box::new(BitExpr::Not(Box::new(z))))
        },
        9 => {
            let c = flag_c(flags);
            let z = flag_z(flags);
            BitExpr::Or(Box::new(BitExpr::Not(Box::new(c))), Box::new(z))
        },
        10 => BitExpr::Equal(Box::new(flag_n(flags)), Box::new(flag_v(flags))),
        11 => BitExpr::Differ(Box::new(flag_n(flags)), Box::new(flag_v(flags))),
        12 => {
            let z = flag_z(flags);
            let n = flag_n(flags);
            let v = flag_v(flags);
            BitExpr::And(
                Box::new(BitExpr::Not(Box::new(z))),
                Box::new(BitExpr::Equal(Box::new(n), Box::new(v))),
            )
        },
        13 => {
            let z = flag_z(flags);
            let n = flag_n(flags);
            let v = flag_v(flags);
            BitExpr::Or(Box::new(z), Box::new(BitExpr::Differ(Box::new(n), Box::new(v))))
        },
        _ => BitExpr::Literal(true),
    }
}

/// The flag word: a value that holds it already, or the bits it is made of.
#[derive(Debug, PartialEq, Eq)]
pub enum PackedFlags<Value> {
    Word(Value),
    Bits { n: BitExpr<Value>, z: BitExpr<Value>, c: BitExpr<Value>, v: BitExpr<Value> },
}

/// The flag word, with N in bit 31 down to V in bit 28.
pub fn packed_flags<Value: Copy>(flags: &LazyFlags<Value>) -> (r: PackedFlags<Value>)
    ensures
        match r {
            PackedFlags::Word(value) => *flags == LazyFlags::Canonical(value) || *flags
                == LazyFlags::Packed(value),
            PackedFlags::Bits { n, z, c, v } => forall|env: spec_fn(Value) -> u64| #[trigger]
                computed(*flags, env) ==> n.eval(env) == n_of(*flags, env) && z.eval(env) == z_of(
                    *flags,
                    env,
                ) && c.eval(env) == c_of(*flags, env) && v.eval(env) == v_of(*flags, env),
        },
{
    match flags {
        LazyFlags::Canonical(value) => PackedFlags::Word(*value),
        LazyFlags::Packed(value) => PackedFlags::Word(*value),
        _ => {
            let n = flag_n(flags);
            let z = flag_z(flags);
            let c = flag_c(flags);
            let v = flag_v(flags);
            PackedFlags::Bits { n, z, c, v }
        },
    }
}

} // verus!
