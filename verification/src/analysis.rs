//! Sets of guest state, instruction and block effects, and liveness.
//!
//! Values are whole X/SP and V registers. A partial write reads the preserved
//! destination before defining the new value. NZCV is tracked per bit. The PC
//! is supplied by the instruction or exit identity and is not a member.

use vstd::prelude::*;

pub mod access;
pub mod flow;

verus! {

/// Architectural flag bits, in NZCV nibble order.
pub const N: u8 = 8;

pub const Z: u8 = 4;

pub const C: u8 = 2;

pub const V: u8 = 1;

pub const NZCV: u8 = 15;

#[derive(Clone, Copy, Debug, Eq)]
pub struct IntegerRegisterSet {
    pub x: [bool; 31],
    pub sp: bool,
}

#[derive(Clone, Copy, Debug, Eq)]
pub struct StateSet {
    pub integer: IntegerRegisterSet,
    pub vector: [bool; 32],
    pub nzcv: u8,
    pub fpcr: bool,
    pub fpsr: bool,
    pub tpidr_el0: bool,
    pub tpidrro_el0: bool,
}

/// One piece of guest state that a [`StateSet`] may hold.
pub enum StateItem {
    X(u8),
    Sp,
    Vector(u8),
    /// A bit position of the flag mask.
    Flag(u8),
    Fpcr,
    Fpsr,
    TpidrEl0,
    TpidrroEl0,
}

/// Whether bit `bit` of `mask` is set.
pub open spec fn flag_bit(mask: u8, bit: u8) -> bool {
    (mask >> bit) & 1 == 1
}

impl IntegerRegisterSet {
    /// Whether general register `index` is a member.
    pub open spec fn has_x(&self, index: int) -> bool {
        0 <= index < 31 && self.x@[index]
    }
}

impl StateSet {
    pub open spec fn holds(&self, item: StateItem) -> bool {
        match item {
            StateItem::X(index) => self.integer.has_x(index as int),
            StateItem::Sp => self.integer.sp,
            StateItem::Vector(index) => index < 32 && self.vector@[index as int],
            StateItem::Flag(bit) => bit < 8 && flag_bit(self.nzcv, bit),
            StateItem::Fpcr => self.fpcr,
            StateItem::Fpsr => self.fpsr,
            StateItem::TpidrEl0 => self.tpidr_el0,
            StateItem::TpidrroEl0 => self.tpidrro_el0,
        }
    }

    /// The members of the set.
    pub open spec fn view(&self) -> Set<StateItem> {
        Set::new(|item: StateItem| self.holds(item))
    }

    /// Every register, every NZCV bit and every system register.
    pub open spec fn everything() -> Set<StateItem> {
        Set::new(
            |item: StateItem|
                match item {
                    StateItem::X(index) => index < 31,
                    StateItem::Vector(index) => index < 32,
                    StateItem::Flag(bit) => bit < 4,
                    _ => true,
                },
        )
    }

    pub fn all() -> (r: StateSet)
        ensures
            r@ == StateSet::everything(),
            r.nzcv == NZCV,
    {
        let r = StateSet {
            integer: IntegerRegisterSet { x: [true; 31], sp: true },
            vector: [true; 32],
            nzcv: NZCV,
            fpcr: true,
            fpsr: true,
            tpidr_el0: true,
            tpidrro_el0: true,
        };
        proof {
            assert forall|bit: u8| bit < 8 implies flag_bit(15, bit) == (bit < 4) by {
                assert(bit < 8 ==> (((15u8 >> bit) & 1 == 1) == (bit < 4))) by (bit_vector);
            }
            assert(r@ =~= StateSet::everything());
        }
        r
    }

    pub fn union(self, other: StateSet) -> (r: StateSet)
        ensures
            r@ == self@.union(other@),
            r.nzcv == self.nzcv | other.nzcv,
    {
        let mut r = self;
        let mut i: usize = 0;
        while i < 31
            invariant
                i <= 31,
                r.integer.sp == self.integer.sp,
                r.vector == self.vector,
                r.nzcv == self.nzcv,
                r.fpcr == self.fpcr,
                r.fpsr == self.fpsr,
                r.tpidr_el0 == self.tpidr_el0,
                r.tpidrro_el0 == self.tpidrro_el0,
                forall|j: int|
                    0 <= j < 31 ==> #[trigger] r.integer.x@[j] == (self.integer.x@[j] || (j < i
                        && other.integer.x@[j])),
            decreases 31 - i,
        {
            r.integer.x[i] = r.integer.x[i] || other.integer.x[i];
            i = i + 1;
        }
        let mut i: usize = 0;
        while i < 32
            invariant
                i <= 32,
                r.integer.sp == self.integer.sp,
                r.nzcv == self.nzcv,
                r.fpcr == self.fpcr,
                r.fpsr == self.fpsr,
                r.tpidr_el0 == self.tpidr_el0,
                r.tpidrro_el0 == self.tpidrro_el0,
                forall|j: int|
                    0 <= j < 31 ==> #[trigger] r.integer.x@[j] == (self.integer.x@[j]
                        || other.integer.x@[j]),
                forall|j: int|
                    0 <= j < 32 ==> #[trigger] r.vector@[j] == (self.vector@[j] || (j < i
                        && other.vector@[j])),
            decreases 32 - i,
        {
            r.vector[i] = r.vector[i] || other.vector[i];
            i = i + 1;
        }
        r.integer.sp = r.integer.sp || other.integer.sp;
        r.nzcv = r.nzcv | other.nzcv;
        r.fpcr = r.fpcr || other.fpcr;
        r.fpsr = r.fpsr || other.fpsr;
        r.tpidr_el0 = r.tpidr_el0 || other.tpidr_el0;
        r.tpidrro_el0 = r.tpidrro_el0 || other.tpidrro_el0;
        proof {
            let (a, b) = (self.nzcv, other.nzcv);
            assert forall|bit: u8| bit < 8 implies flag_bit(a | b, bit) == (flag_bit(a, bit)
                || flag_bit(b, bit)) by {
                assert((((a | b) >> bit) & 1 == 1) == ((a >> bit) & 1 == 1 || (b >> bit) & 1 == 1))
                    by (bit_vector);
            }
            assert(r@ =~= self@.union(other@));
        }
        r
    }

    pub fn without(self, other: StateSet) -> (r: StateSet)
        ensures
            r@ == self@.difference(other@),
            r.nzcv == self.nzcv & !other.nzcv,
    {
        let mut r = self;
        let mut i: usize = 0;
        while i < 31
            invariant
                i <= 31,
                r.integer.sp == self.integer.sp,
                r.vector == self.vector,
                r.nzcv == self.nzcv,
                r.fpcr == self.fpcr,
                r.fpsr == self.fpsr,
                r.tpidr_el0 == self.tpidr_el0,
                r.tpidrro_el0 == self.tpidrro_el0,
                forall|j: int|
                    0 <= j < 31 ==> #[trigger] r.integer.x@[j] == (self.integer.x@[j] && !(j < i
                        && other.integer.x@[j])),
            decreases 31 - i,
        {
            r.integer.x[i] = r.integer.x[i] && !other.integer.x[i];
            i = i + 1;
        }
        let mut i: usize = 0;
        while i < 32
            invariant
                i <= 32,
                r.integer.sp == self.integer.sp,
                r.nzcv == self.nzcv,
                r.fpcr == self.fpcr,
                r.fpsr == self.fpsr,
                r.tpidr_el0 == self.tpidr_el0,
                r.tpidrro_el0 == self.tpidrro_el0,
                forall|j: int|
                    0 <= j < 31 ==> #[trigger] r.integer.x@[j] == (self.integer.x@[j]
                        && !other.integer.x@[j]),
                forall|j: int|
                    0 <= j < 32 ==> #[trigger] r.vector@[j] == (self.vector@[j] && !(j < i
                        && other.vector@[j])),
            decreases 32 - i,
        {
            r.vector[i] = r.vector[i] && !other.vector[i];
            i = i + 1;
        }
        r.integer.sp = r.integer.sp && !other.integer.sp;
        r.nzcv = r.nzcv & !other.nzcv;
        r.fpcr = r.fpcr && !other.fpcr;
        r.fpsr = r.fpsr && !other.fpsr;
        r.tpidr_el0 = r.tpidr_el0 && !other.tpidr_el0;
        r.tpidrro_el0 = r.tpidrro_el0 && !other.tpidrro_el0;
        proof {
            let (a, b) = (self.nzcv, other.nzcv);
            assert forall|bit: u8| bit < 8 implies flag_bit(a & !b, bit) == (flag_bit(a, bit)
                && !flag_bit(b, bit)) by {
                assert(bit < 8 ==> (((a & !b) >> bit) & 1 == 1) == ((a >> bit) & 1 == 1 && !((b
                    >> bit) & 1 == 1))) by (bit_vector);
            }
            assert(r@ =~= self@.difference(other@));
        }
        r
    }

    /// The members of both sets. Bits of `self` outside NZCV are kept.
    pub fn intersection(self, other: StateSet) -> (r: StateSet)
        ensures
            r@ == self@.difference(StateSet::everything().difference(other@)),
    {
        self.without(StateSet::all().without(other))
    }

    pub fn is_empty(self) -> (r: bool)
        ensures
            r == (self@ == Set::<StateItem>::empty()),
    {
        let none = StateSet::default();
        proof {
            lemma_same_members(self, none);
        }
        self == none
    }
}

/// Two sets with the same members are the same value.
pub proof fn lemma_same_members(a: StateSet, b: StateSet)
    ensures
        (a@ == b@) == (a == b),
{
    if a@ == b@ {
        assert forall|item: StateItem| a.holds(item) == b.holds(item) by {
            assert(a@.contains(item) == b@.contains(item));
        }
        assert forall|i: int| 0 <= i < 31 implies a.integer.x@[i] == b.integer.x@[i] by {
            assert(a.holds(StateItem::X(i as u8)) == b.holds(StateItem::X(i as u8)));
        }
        assert forall|i: int| 0 <= i < 32 implies a.vector@[i] == b.vector@[i] by {
            assert(a.holds(StateItem::Vector(i as u8)) == b.holds(StateItem::Vector(i as u8)));
        }
        assert forall|bit: u8| bit < 8 implies flag_bit(a.nzcv, bit) == flag_bit(b.nzcv, bit) by {
            assert(a.holds(StateItem::Flag(bit)) == b.holds(StateItem::Flag(bit)));
        }
        lemma_same_bits(a.nzcv, b.nzcv);
        assert(a.holds(StateItem::Sp) == b.holds(StateItem::Sp));
        assert(a.holds(StateItem::Fpcr) == b.holds(StateItem::Fpcr));
        assert(a.holds(StateItem::Fpsr) == b.holds(StateItem::Fpsr));
        assert(a.holds(StateItem::TpidrEl0) == b.holds(StateItem::TpidrEl0));
        assert(a.holds(StateItem::TpidrroEl0) == b.holds(StateItem::TpidrroEl0));
        assert(a.integer.x =~= b.integer.x);
        assert(a.vector =~= b.vector);
    }
}

proof fn lemma_same_bits(a: u8, b: u8)
    requires
        forall|bit: u8| bit < 8 ==> flag_bit(a, bit) == flag_bit(b, bit),
    ensures
        a == b,
{
    assert(flag_bit(a, 0) == flag_bit(b, 0));
    assert(flag_bit(a, 1) == flag_bit(b, 1));
    assert(flag_bit(a, 2) == flag_bit(b, 2));
    assert(flag_bit(a, 3) == flag_bit(b, 3));
    assert(flag_bit(a, 4) == flag_bit(b, 4));
    assert(flag_bit(a, 5) == flag_bit(b, 5));
    assert(flag_bit(a, 6) == flag_bit(b, 6));
    assert(flag_bit(a, 7) == flag_bit(b, 7));
    assert(a == b) by (bit_vector)
        requires
            ((a >> 0) & 1 == 1) == ((b >> 0) & 1 == 1),
            ((a >> 1) & 1 == 1) == ((b >> 1) & 1 == 1),
            ((a >> 2) & 1 == 1) == ((b >> 2) & 1 == 1),
            ((a >> 3) & 1 == 1) == ((b >> 3) & 1 == 1),
            ((a >> 4) & 1 == 1) == ((b >> 4) & 1 == 1),
            ((a >> 5) & 1 == 1) == ((b >> 5) & 1 == 1),
            ((a >> 6) & 1 == 1) == ((b >> 6) & 1 == 1),
            ((a >> 7) & 1 == 1) == ((b >> 7) & 1 == 1),
    ;
}

impl PartialEq for IntegerRegisterSet {
    fn eq(&self, other: &IntegerRegisterSet) -> (r: bool) {
        let mut i: usize = 0;
        while i < 31
            invariant
                i <= 31,
                forall|j: int| 0 <= j < i ==> self.x@[j] == other.x@[j],
            decreases 31 - i,
        {
            if self.x[i] != other.x[i] {
                return false;
            }
            i = i + 1;
        }
        proof {
            assert(self.x =~= other.x);
        }
        self.sp == other.sp
    }
}

impl vstd::std_specs::cmp::PartialEqSpecImpl for IntegerRegisterSet {
    open spec fn obeys_eq_spec() -> bool {
        true
    }

    open spec fn eq_spec(&self, other: &IntegerRegisterSet) -> bool {
        *self == *other
    }
}

impl PartialEq for StateSet {
    fn eq(&self, other: &StateSet) -> (r: bool) {
        let mut i: usize = 0;
        while i < 32
            invariant
                i <= 32,
                forall|j: int| 0 <= j < i ==> self.vector@[j] == other.vector@[j],
            decreases 32 - i,
        {
            if self.vector[i] != other.vector[i] {
                return false;
            }
            i = i + 1;
        }
        proof {
            assert(self.vector =~= other.vector);
        }
        self.integer == other.integer && self.nzcv == other.nzcv && self.fpcr == other.fpcr
            && self.fpsr == other.fpsr && self.tpidr_el0 == other.tpidr_el0 && self.tpidrro_el0
            == other.tpidrro_el0
    }
}

impl vstd::std_specs::cmp::PartialEqSpecImpl for StateSet {
    open spec fn obeys_eq_spec() -> bool {
        true
    }

    open spec fn eq_spec(&self, other: &StateSet) -> bool {
        *self == *other
    }
}

impl Default for StateSet {
    fn default() -> (r: StateSet)
        ensures
            r@ == Set::<StateItem>::empty(),
            r.nzcv == 0,
    {
        let r = StateSet {
            integer: IntegerRegisterSet { x: [false; 31], sp: false },
            vector: [false; 32],
            nzcv: 0,
            fpcr: false,
            fpsr: false,
            tpidr_el0: false,
            tpidrro_el0: false,
        };
        proof {
            assert forall|bit: u8| bit < 8 implies !flag_bit(0, bit) by {
                assert(!((0u8 >> bit) & 1 == 1)) by (bit_vector);
            }
            assert(r@ =~= Set::<StateItem>::empty());
        }
        r
    }
}

/// State consumed and defined by an instruction, and observable on its side
/// exits. A fault observes the state before any destination write; an exit after
/// successful execution observes the state after it.
#[derive(Clone, Copy, Debug)]
pub struct InstructionEffects {
    pub reads: StateSet,
    pub writes: StateSet,
    pub observe_before: StateSet,
    pub observe_after: StateSet,
}

impl Default for InstructionEffects {
    fn default() -> (r: InstructionEffects)
        ensures
            r.reads@ == Set::<StateItem>::empty(),
            r.writes@ == Set::<StateItem>::empty(),
            r.observe_before@ == Set::<StateItem>::empty(),
            r.observe_after@ == Set::<StateItem>::empty(),
            r.reads.nzcv == 0,
            r.writes.nzcv == 0,
    {
        InstructionEffects {
            reads: StateSet::default(),
            writes: StateSet::default(),
            observe_before: StateSet::default(),
            observe_after: StateSet::default(),
        }
    }
}

impl InstructionEffects {
    /// What is live before the instruction, given what is live after it.
    pub open spec fn live_before_set(self, live_after: Set<StateItem>) -> Set<StateItem> {
        live_after.union(self.observe_after@).difference(self.writes@).union(self.reads@).union(
            self.observe_before@,
        )
    }

    pub fn live_before(self, live_after: StateSet) -> (r: StateSet)
        ensures
            r@ == self.live_before_set(live_after@),
    {
        live_after.union(self.observe_after).without(self.writes).union(self.reads).union(
            self.observe_before,
        )
    }
}

/// The flags that each pair of conditions consumes. AL and NV consume none.
pub open spec fn consumed_flags(condition: u8) -> u8 {
    let pair = (condition % 16) / 2;
    if pair == 0 {
        Z
    } else if pair == 1 {
        C
    } else if pair == 2 {
        N
    } else if pair == 3 {
        V
    } else if pair == 4 {
        6
    } else if pair == 5 {
        9
    } else if pair == 6 {
        13
    } else {
        0
    }
}

pub fn condition_flags(condition: u8) -> (r: u8)
    ensures
        r == consumed_flags(condition),
{
    let pair: u8 = (condition & 15) >> 1;
    proof {
        assert((condition & 15) >> 1 == (condition % 16) / 2) by (bit_vector);
        assert(2u8 | 4u8 == 6u8) by (bit_vector);
        assert(8u8 | 1u8 == 9u8) by (bit_vector);
        assert(8u8 | 4u8 | 1u8 == 13u8) by (bit_vector);
    }
    match pair {
        0 => Z,
        1 => C,
        2 => N,
        3 => V,
        4 => C | Z,
        5 => N | V,
        6 => N | Z | V,
        _ => 0,
    }
}

/// Summary in execution order, not the union of reads: a write can kill the
/// incoming value before a later use. Side observations cannot be killed by
/// later writes.
#[derive(Clone, Copy, Debug)]
pub struct BlockEffects {
    pub reads: StateSet,
    pub writes: StateSet,
    pub live_in: StateSet,
}

impl Default for BlockEffects {
    fn default() -> (r: BlockEffects)
        ensures
            r.reads@ == Set::<StateItem>::empty(),
            r.writes@ == Set::<StateItem>::empty(),
            r.live_in@ == Set::<StateItem>::empty(),
    {
        BlockEffects {
            reads: StateSet::default(),
            writes: StateSet::default(),
            live_in: StateSet::default(),
        }
    }
}

impl BlockEffects {
    /// What is live before the block, given what is live after it.
    pub open spec fn live_before_set(self, live_out: Set<StateItem>) -> Set<StateItem> {
        self.live_in@.union(live_out.difference(self.writes@))
    }

    /// Appends one instruction: what is live before the longer block is what is
    /// live before the shorter one when the instruction follows it.
    pub fn push(&mut self, effects: InstructionEffects)
        ensures
            final(self).reads@ == old(self).reads@.union(effects.reads@),
            final(self).writes@ == old(self).writes@.union(effects.writes@),
            final(self).live_in@ == old(self).live_in@.union(
                effects.reads@.union(effects.observe_before@).difference(old(self).writes@),
            ).union(
                effects.observe_after@.difference(old(self).writes@.union(effects.writes@)),
            ),
            forall|live: Set<StateItem>|
                #[trigger] final(self).live_before_set(live) == old(self).live_before_set(
                    effects.live_before_set(live),
                ),
    {
        self.live_in = self.live_in.union(
            effects.reads.union(effects.observe_before).without(self.writes),
        );
        self.writes = self.writes.union(effects.writes);
        self.live_in = self.live_in.union(effects.observe_after.without(self.writes));
        self.reads = self.reads.union(effects.reads);
        proof {
            assert forall|live: Set<StateItem>|
                #[trigger] self.live_before_set(live) == old(self).live_before_set(
                    effects.live_before_set(live),
                ) by {
                assert(self.live_before_set(live) =~= old(self).live_before_set(
                    effects.live_before_set(live),
                ));
            }
        }
    }

    pub fn live_before(self, live_out: StateSet) -> (r: StateSet)
        ensures
            r@ == self.live_before_set(live_out@),
    {
        self.live_in.union(live_out.without(self.writes))
    }
}

/// Successor indexes refer to the same slice of blocks. An external edge supplies
/// what it observes in `exit_live`.
pub struct FlowBlock<'a> {
    pub effects: BlockEffects,
    pub successors: &'a [usize],
    pub exit_live: StateSet,
}

#[derive(Clone, Copy, Debug)]
pub struct BlockLiveness {
    pub live_in: StateSet,
    pub live_out: StateSet,
}

} // verus!
