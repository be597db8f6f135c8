//! Physical contracts at the entries and exits of native code.

use vstd::prelude::*;
use super::flags::LazyFlags;
use super::location::locations_overlap;
use super::{ExitSiteKey, HostAbi, ValueBinding, ValueLocation};
use crate::analysis::{flag_bit, StateItem, StateSet, NZCV};

verus! {

#[derive(Debug, PartialEq, Eq)]
pub enum NzcvLocation {
    /// Canonical NZCV is still authoritative.
    Canonical,
    Packed(ValueLocation),
    /// Host condition flags; bridges and polls must preserve the live bits.
    Host { carry_inverted: bool },
    Deferred(LazyFlags<ValueLocation>),
}

impl Clone for NzcvLocation {
    fn clone(&self) -> (r: NzcvLocation)
        ensures
            r == *self,
    {
        match self {
            NzcvLocation::Canonical => NzcvLocation::Canonical,
            NzcvLocation::Packed(location) => NzcvLocation::Packed(*location),
            NzcvLocation::Host { carry_inverted } => NzcvLocation::Host {
                carry_inverted: *carry_inverted,
            },
            NzcvLocation::Deferred(flags) => NzcvLocation::Deferred(flags.clone()),
        }
    }
}

#[derive(Clone, Copy, Debug, PartialEq, Eq)]
pub struct CanonicalEntryContract {
    pub live_in: StateSet,
}

/// Physical fast ingress. Canonical ingress has no physical input requirements.
#[derive(Debug, PartialEq, Eq)]
pub struct EntryContract {
    pub live_in: StateSet,
    pub abi: HostAbi,
    pub bindings: Vec<ValueBinding>,
    pub nzcv: NzcvLocation,
}

impl Clone for EntryContract {
    fn clone(&self) -> (r: EntryContract)
        ensures
            r.bindings@ == self.bindings@,
            r == (EntryContract { bindings: r.bindings, ..*self }),
    {
        EntryContract {
            live_in: self.live_in,
            abi: self.abi,
            bindings: clone_bindings(&self.bindings),
            nzcv: self.nzcv.clone(),
        }
    }
}

fn clone_bindings(bindings: &Vec<ValueBinding>) -> (r: Vec<ValueBinding>)
    ensures
        r@ == bindings@,
{
    let mut r: Vec<ValueBinding> = Vec::new();
    let mut k: usize = 0;
    while k < bindings.len()
        invariant
            k <= bindings@.len(),
            r@ == bindings@.take(k as int),
        decreases bindings@.len() - k,
    {
        r.push(bindings[k]);
        proof {
            assert(bindings@.take(k + 1) =~= bindings@.take(k as int).push(bindings@[k as int]));
        }
        k = k + 1;
    }
    proof {
        assert(bindings@.take(bindings@.len() as int) =~= bindings@);
    }
    r
}

#[derive(Debug, PartialEq, Eq)]
pub struct ExitStateMap {
    pub site: ExitSiteKey,
    pub abi: HostAbi,
    /// Clean live values too: helper saves and fast bridges need their physical
    /// locations even when a canonical exit need not store them.
    pub live: StateSet,
    pub dirty_live: StateSet,
    pub bindings: Vec<ValueBinding>,
    pub nzcv: NzcvLocation,
    /// Pending host status is merged into the mapped or canonical FPSR.
    pub host_fpsr_pending: bool,
}

impl Clone for ExitStateMap {
    fn clone(&self) -> (r: ExitStateMap)
        ensures
            r.bindings@ == self.bindings@,
            r == (ExitStateMap { bindings: r.bindings, ..*self }),
    {
        ExitStateMap {
            site: self.site,
            abi: self.abi,
            live: self.live,
            dirty_live: self.dirty_live,
            bindings: clone_bindings(&self.bindings),
            nzcv: self.nzcv.clone(),
            host_fpsr_pending: self.host_fpsr_pending,
        }
    }
}

/// What a validation found: nothing, or the text of the first fault.
pub open spec fn fault_in(result: Result<(), &'static str>) -> Option<Seq<char>> {
    match result {
        Ok(_) => None,
        Err(text) => Some(text@),
    }
}

pub open spec fn or_else(first: Option<Seq<char>>, second: Option<Seq<char>>) -> Option<Seq<char>> {
    if first is Some {
        first
    } else {
        second
    }
}

/// The fault of binding `k` among the bindings before it.
pub open spec fn binding_fault(abi: HostAbi, bindings: Seq<ValueBinding>, k: int) -> Option<
    Seq<char>,
> {
    if !bindings[k].value.exists_in_guest() {
        Some("invalid guest register"@)
    } else if exists|j: int| 0 <= j < k && (#[trigger] bindings[j]).value == bindings[k].value {
        Some("duplicate guest binding"@)
    } else if !bindings[k].location.valid_for(abi, bindings[k].value.width()) {
        Some("invalid or reserved physical location"@)
    } else {
        None
    }
}

/// The first fault of a binding at or after `from`.
pub open spec fn first_binding_fault(
    abi: HostAbi,
    bindings: Seq<ValueBinding>,
    from: int,
) -> Option<Seq<char>>
    decreases bindings.len() - from,
{
    if from < 0 || from >= bindings.len() {
        None
    } else {
        or_else(
            binding_fault(abi, bindings, from),
            first_binding_fault(abi, bindings, from + 1),
        )
    }
}

/// The items that the first `count` bindings bind.
pub open spec fn bound_items(bindings: Seq<ValueBinding>, count: int) -> Set<StateItem> {
    Set::new(
        |item: StateItem|
            exists|j: int| 0 <= j < count && (#[trigger] bindings[j]).value.item() == item,
    )
}

/// Required state that is bound one by one: everything but the flags.
pub open spec fn without_flags(state: Set<StateItem>) -> Set<StateItem> {
    state.filter(|item: StateItem| !(item is Flag))
}

/// The bindings name exactly the required state; pending host status stands for
/// FPSR.
pub open spec fn exactly_covers(
    bindings: Seq<ValueBinding>,
    required: StateSet,
    host_fpsr: bool,
) -> bool {
    without_flags(required@) == if host_fpsr {
        bound_items(bindings, bindings.len() as int).insert(StateItem::Fpsr)
    } else {
        bound_items(bindings, bindings.len() as int)
    }
}

pub open spec fn bindings_fault(
    abi: HostAbi,
    required: StateSet,
    bindings: Seq<ValueBinding>,
    host_fpsr: bool,
) -> Option<Seq<char>> {
    or_else(
        first_binding_fault(abi, bindings, 0),
        if exactly_covers(bindings, required, host_fpsr) {
            None
        } else {
            Some("physical map does not exactly cover required state"@)
        },
    )
}

/// The fault of a deferred producer's recipe.
pub open spec fn recipe_fault(abi: HostAbi, recipe: LazyFlags<ValueLocation>) -> Option<Seq<char>>
    decreases recipe,
{
    match recipe {
        LazyFlags::Canonical(value) | LazyFlags::Packed(value) => operand_fault(abi, value, 4),
        LazyFlags::Add { lhs, rhs, result, width }
        | LazyFlags::Subtract { lhs, rhs, result, width } => or_else(
            width_fault(width),
            or_else(
                operand_fault(abi, lhs, width / 8),
                or_else(
                    operand_fault(abi, rhs, width / 8),
                    operand_fault(abi, result, width / 8),
                ),
            ),
        ),
        LazyFlags::AddCarry { lhs, rhs, carry, result, width }
        | LazyFlags::SubtractCarry { lhs, rhs, carry, result, width } => or_else(
            width_fault(width),
            or_else(
                operand_fault(abi, lhs, width / 8),
                or_else(
                    operand_fault(abi, rhs, width / 8),
                    or_else(
                        operand_fault(abi, result, width / 8),
                        operand_fault(abi, carry, 1),
                    ),
                ),
            ),
        ),
        LazyFlags::Logical { result, width } => or_else(
            width_fault(width),
            operand_fault(abi, result, width / 8),
        ),
        LazyFlags::Conditional { predicate, when_true, when_false } => or_else(
            operand_fault(abi, predicate, 1),
            if when_false > 15 {
                Some("invalid conditional NZCV literal"@)
            } else {
                recipe_fault(abi, *when_true)
            },
        ),
    }
}

pub open spec fn width_fault(width: u8) -> Option<Seq<char>> {
    if width == 32 || width == 64 {
        None
    } else {
        Some("invalid lazy NZCV width"@)
    }
}

pub open spec fn operand_fault(abi: HostAbi, value: ValueLocation, bytes: u8) -> Option<Seq<char>> {
    if value.valid_for(abi, bytes) {
        None
    } else {
        Some("invalid lazy NZCV operand"@)
    }
}

pub open spec fn nzcv_fault(abi: HostAbi, bits: u8, location: NzcvLocation) -> Option<Seq<char>> {
    if bits > 15 {
        Some("invalid NZCV mask"@)
    } else {
        match location {
            NzcvLocation::Packed(value) => if value.valid_for(abi, 4) {
                None
            } else {
                Some("invalid packed NZCV location"@)
            },
            NzcvLocation::Deferred(recipe) => recipe_fault(abi, recipe),
            _ => None,
        }
    }
}

fn check_operand(abi: HostAbi, value: ValueLocation, bytes: u8) -> (r: Result<(), &'static str>)
    ensures
        fault_in(r) == operand_fault(abi, value, bytes),
{
    if value.valid(abi, bytes) {
        Ok(())
    } else {
        Err("invalid lazy NZCV operand")
    }
}

fn check_operands(
    abi: HostAbi,
    lhs: ValueLocation,
    rhs: ValueLocation,
    result: ValueLocation,
    width: u8,
) -> (r: Result<(), &'static str>)
    ensures
        fault_in(r) == or_else(
            width_fault(width),
            or_else(
                operand_fault(abi, lhs, width / 8),
                or_else(
                    operand_fault(abi, rhs, width / 8),
                    operand_fault(abi, result, width / 8),
                ),
            ),
        ),
{
    if width != 32 && width != 64 {
        return Err("invalid lazy NZCV width");
    }
    check_operand(abi, lhs, width / 8)?;
    check_operand(abi, rhs, width / 8)?;
    check_operand(abi, result, width / 8)
}

fn validate_recipe(abi: HostAbi, recipe: &LazyFlags<ValueLocation>) -> (r: Result<
    (),
    &'static str,
>)
    ensures
        fault_in(r) == recipe_fault(abi, *recipe),
    decreases recipe,
{
    match recipe {
        LazyFlags::Canonical(value) | LazyFlags::Packed(value) => check_operand(abi, *value, 4),
        LazyFlags::Add { lhs, rhs, result, width }
        | LazyFlags::Subtract { lhs, rhs, result, width } => check_operands(
            abi,
            *lhs,
            *rhs,
            *result,
            *width,
        ),
        LazyFlags::AddCarry { lhs, rhs, carry, result, width }
        | LazyFlags::SubtractCarry { lhs, rhs, carry, result, width } => {
            check_operands(abi, *lhs, *rhs, *result, *width)?;
            check_operand(abi, *carry, 1)
        },
        LazyFlags::Logical { result, width } => {
            if *width != 32 && *width != 64 {
                return Err("invalid lazy NZCV width");
            }
            check_operand(abi, *result, *width / 8)
        },
        LazyFlags::Conditional { predicate, when_true, when_false } => {
            check_operand(abi, *predicate, 1)?;
            if *when_false > 15 {
                return Err("invalid conditional NZCV literal");
            }
            validate_recipe(abi, &**when_true)
        },
    }
}

fn validate_nzcv(abi: HostAbi, bits: u8, location: &NzcvLocation) -> (r: Result<(), &'static str>)
    ensures
        fault_in(r) == nzcv_fault(abi, bits, *location),
{
    if bits > NZCV {
        return Err("invalid NZCV mask");
    }
    match location {
        NzcvLocation::Packed(value) => {
            if value.valid(abi, 4) {
                Ok(())
            } else {
                Err("invalid packed NZCV location")
            }
        },
        NzcvLocation::Deferred(recipe) => validate_recipe(abi, recipe),
        _ => Ok(()),
    }
}

fn validate_bindings(
    abi: HostAbi,
    required: StateSet,
    bindings: &Vec<ValueBinding>,
    host_fpsr: bool,
) -> (r: Result<(), &'static str>)
    ensures
        fault_in(r) == bindings_fault(abi, required, bindings@, host_fpsr),
        r is Ok ==> forall|j: int|
            0 <= j < bindings@.len() ==> (#[trigger] bindings@[j]).value.exists_in_guest()
                && bindings@[j].location.valid_for(abi, bindings@[j].value.width()),
{
    let mut wanted = required;
    wanted.nzcv = 0;
    let mut found = StateSet::default();
    let mut k: usize = 0;
    proof {
        assert(found@ =~= bound_items(bindings@, 0));
    }
    while k < bindings.len()
        invariant
            k <= bindings@.len(),
            found.nzcv == 0,
            found@ == bound_items(bindings@, k as int),
            first_binding_fault(abi, bindings@, 0) == first_binding_fault(abi, bindings@, k as int),
            forall|j: int|
                0 <= j < k ==> (#[trigger] bindings@[j]).value.exists_in_guest()
                    && bindings@[j].location.valid_for(abi, bindings@[j].value.width()),
        decreases bindings@.len() - k,
    {
        let binding = bindings[k];
        let state = match binding.value.state() {
            Some(state) => state,
            None => return Err("invalid guest register"),
        };
        let shared = found.intersection(state);
        proof {
            let item = binding.value.item();
            assert(StateSet::everything().contains(item));
            assert forall|other: StateItem| shared@.contains(other) == (found@.contains(other)
                && other == item) by {
                if other matches StateItem::Flag(bit) {
                    assert(!found@.contains(other)) by {
                        assert(forall|j: int|
                            0 <= j < k ==> (#[trigger] bindings@[j]).value.item() != other);
                    }
                } else if found@.contains(other) {
                    let j = choose|j: int|
                        0 <= j < k && (#[trigger] bindings@[j]).value.item() == other;
                    assert(bindings@[j].value.exists_in_guest());
                    assert(StateSet::everything().contains(other));
                }
            }
            let duplicate = exists|j: int|
                0 <= j < k && (#[trigger] bindings@[j]).value == binding.value;
            if duplicate {
                let j = choose|j: int|
                    0 <= j < k && (#[trigger] bindings@[j]).value == binding.value;
                assert(bindings@[j].value.item() == item);
                assert(shared@.contains(item));
            } else {
                assert forall|other: StateItem| !shared@.contains(other) by {
                    if shared@.contains(other) {
                        let j = choose|j: int|
                            0 <= j < k && (#[trigger] bindings@[j]).value.item() == item;
                        assert(bindings@[j].value == binding.value);
                    }
                }
                assert(shared@ =~= Set::<StateItem>::empty());
            }
        }
        if !shared.is_empty() {
            return Err("duplicate guest binding");
        }
        if !binding.location.valid(abi, binding.value.bytes()) {
            return Err("invalid or reserved physical location");
        }
        let ghost before = found@;
        found = found.union(state);
        proof {
            assert(0u8 | 0u8 == 0u8) by (bit_vector);
            let after = bound_items(bindings@, k + 1);
            assert forall|item: StateItem| found@.contains(item) == after.contains(item) by {
                if before.contains(item) {
                    let j = choose|j: int|
                        0 <= j < k && (#[trigger] bindings@[j]).value.item() == item;
                    assert(bindings@[j].value.item() == item);
                }
                if item == binding.value.item() {
                    assert(bindings@[k as int].value.item() == item);
                }
            }
            assert(found@ =~= after);
        }
        k = k + 1;
    }
    let ghost bound = found;
    if host_fpsr {
        found.fpsr = true;
    }
    proof {
        assert forall|bit: u8| bit < 8 implies !flag_bit(0, bit) by {
            assert(!((0u8 >> bit) & 1 == 1)) by (bit_vector);
        }
        assert(wanted@ =~= without_flags(required@)) by {
            assert forall|item: StateItem| wanted@.contains(item) == without_flags(
                required@,
            ).contains(item) by {
                assert(wanted.holds(item) == (required.holds(item) && !(item is Flag)));
            }
        }
        let all = bound_items(bindings@, bindings@.len() as int);
        assert(found@ =~= if host_fpsr {
            all.insert(StateItem::Fpsr)
        } else {
            all
        }) by {
            assert forall|item: StateItem| found@.contains(item) == (bound@.contains(item) || (
            host_fpsr && item is Fpsr)) by {
                assert(found.holds(item) == (bound.holds(item) || (host_fpsr && item is Fpsr)));
            }
        }
        crate::analysis::lemma_same_members(found, wanted);
    }
    if !(found == wanted) {
        return Err("physical map does not exactly cover required state");
    }
    Ok(())
}

/// The fault of fast input `k` among the inputs before it.
pub open spec fn input_fault(bindings: Seq<ValueBinding>, k: int) -> Option<Seq<char>> {
    if bindings[k].location is Constant {
        Some("fast inputs need register or spill locations"@)
    } else if exists|j: int|
        0 <= j < k && bindings[k].location.overlaps((#[trigger] bindings[j]).location) {
        Some("distinct fast inputs overlap"@)
    } else {
        None
    }
}

/// The first fault of a fast input at or after `from`.
pub open spec fn first_input_fault(bindings: Seq<ValueBinding>, from: int) -> Option<Seq<char>>
    decreases bindings.len() - from,
{
    if from < 0 || from >= bindings.len() {
        None
    } else {
        or_else(input_fault(bindings, from), first_input_fault(bindings, from + 1))
    }
}

impl EntryContract {
    /// What makes live flags unusable as a fast input.
    pub open spec fn flag_input_fault(&self) -> Option<Seq<char>> {
        if self.live_in.nzcv == 0 {
            None
        } else {
            match self.nzcv {
                NzcvLocation::Packed(ValueLocation::Constant(_)) | NzcvLocation::Deferred(_) => Some(
                    "fast NZCV input must be packed or host flags, not a source producer recipe"@,
                ),
                NzcvLocation::Packed(location) => if exists|j: int|
                    0 <= j < self.bindings@.len() && location.overlaps(
                        (#[trigger] self.bindings@[j]).location,
                    ) {
                    Some("fast NZCV input overlaps another input"@)
                } else {
                    None
                },
                _ => None,
            }
        }
    }

    pub open spec fn fault(&self) -> Option<Seq<char>> {
        or_else(
            if self.live_in.nzcv != 0 && self.nzcv is Canonical {
                Some("fast ingress needs a physical NZCV contract"@)
            } else {
                None
            },
            or_else(
                bindings_fault(self.abi, self.live_in, self.bindings@, false),
                or_else(
                    first_input_fault(self.bindings@, 0),
                    or_else(
                        self.flag_input_fault(),
                        nzcv_fault(self.abi, self.live_in.nzcv, self.nzcv),
                    ),
                ),
            ),
        )
    }

    /// Fast ingress needs every live input in its own register or spill slot.
    pub fn validate(&self) -> (r: Result<(), &'static str>)
        ensures
            fault_in(r) == self.fault(),
    {
        if self.live_in.nzcv != 0 && matches!(self.nzcv, NzcvLocation::Canonical) {
            return Err("fast ingress needs a physical NZCV contract");
        }
        validate_bindings(self.abi, self.live_in, &self.bindings, false)?;
        let mut index: usize = 0;
        while index < self.bindings.len()
            invariant
                index <= self.bindings@.len(),
                first_input_fault(self.bindings@, 0) == first_input_fault(
                    self.bindings@,
                    index as int,
                ),
                !(self.live_in.nzcv != 0 && self.nzcv is Canonical),
                bindings_fault(self.abi, self.live_in, self.bindings@, false) is None,
            decreases self.bindings@.len() - index,
        {
            let location = self.bindings[index].location;
            if matches!(location, ValueLocation::Constant(_)) {
                return Err("fast inputs need register or spill locations");
            }
            if overlaps_any(location, &self.bindings, index) {
                return Err("distinct fast inputs overlap");
            }
            index = index + 1;
        }
        if self.live_in.nzcv != 0 {
            match &self.nzcv {
                NzcvLocation::Packed(ValueLocation::Constant(_)) | NzcvLocation::Deferred(_) => {
                    return Err(
                        "fast NZCV input must be packed or host flags, not a source producer recipe",
                    );
                },
                NzcvLocation::Packed(location) => {
                    if overlaps_any(*location, &self.bindings, self.bindings.len()) {
                        return Err("fast NZCV input overlaps another input");
                    }
                },
                _ => {},
            }
        }
        validate_nzcv(self.abi, self.live_in.nzcv, &self.nzcv)
    }
}

fn overlaps_any(location: ValueLocation, bindings: &Vec<ValueBinding>, count: usize) -> (r: bool)
    requires
        count <= bindings@.len(),
    ensures
        r == exists|j: int|
            0 <= j < count && location.overlaps((#[trigger] bindings@[j]).location),
{
    let mut k: usize = 0;
    while k < count
        invariant
            k <= count <= bindings@.len(),
            forall|j: int| 0 <= j < k ==> !location.overlaps((#[trigger] bindings@[j]).location),
        decreases count - k,
    {
        if locations_overlap(location, bindings[k].location) {
            return true;
        }
        k = k + 1;
    }
    false
}

impl ExitStateMap {
    /// Infrastructure clobbers host flags, not architectural NZCV: only the live
    /// flags that are held in host flags need saving around it.
    pub fn flags_to_preserve(&self, host_clobbers: u8) -> (r: u8)
        ensures
            r == if self.nzcv is Host {
                self.live.nzcv & host_clobbers
            } else {
                0
            },
    {
        if matches!(self.nzcv, NzcvLocation::Host { .. }) {
            self.live.nzcv & host_clobbers
        } else {
            0
        }
    }

    pub open spec fn fault(&self) -> Option<Seq<char>> {
        if !self.dirty_live@.subset_of(self.live@) {
            Some("dirty live state is not a subset of live state"@)
        } else if self.host_fpsr_pending && !self.dirty_live.fpsr {
            Some("pending host FPSR is not accounted as dirty"@)
        } else if self.dirty_live.nzcv != 0 && self.nzcv is Canonical {
            Some("dirty NZCV cannot remain canonical"@)
        } else {
            or_else(
                bindings_fault(self.abi, self.live, self.bindings@, self.host_fpsr_pending),
                nzcv_fault(self.abi, self.live.nzcv, self.nzcv),
            )
        }
    }

    pub fn validate(&self) -> (r: Result<(), &'static str>)
        ensures
            fault_in(r) == self.fault(),
    {
        let stray = self.dirty_live.without(self.live);
        proof {
            if stray@ == Set::<StateItem>::empty() {
                assert forall|item: StateItem| self.dirty_live@.contains(
                    item,
                ) implies self.live@.contains(item) by {
                    assert(!stray@.contains(item));
                }
            } else if self.dirty_live@.subset_of(self.live@) {
                assert(stray@ =~= Set::<StateItem>::empty());
            }
        }
        if !stray.is_empty() {
            return Err("dirty live state is not a subset of live state");
        }
        if self.host_fpsr_pending && !self.dirty_live.fpsr {
            return Err("pending host FPSR is not accounted as dirty");
        }
        if self.dirty_live.nzcv != 0 && matches!(self.nzcv, NzcvLocation::Canonical) {
            return Err("dirty NZCV cannot remain canonical");
        }
        validate_bindings(self.abi, self.live, &self.bindings, self.host_fpsr_pending)?;
        validate_nzcv(self.abi, self.live.nzcv, &self.nzcv)
    }
}

/// A valid fast entry never finds two of its inputs in one place: a value that
/// one input needs is not overwritten by another.
pub proof fn law_fast_inputs_are_disjoint(entry: EntryContract, i: int, j: int)
    requires
        entry.fault() is None,
        0 <= i < j < entry.bindings@.len(),
    ensures
        !entry.bindings@[j].location.overlaps(entry.bindings@[i].location),
        entry.bindings@[i].value != entry.bindings@[j].value,
{
    lemma_no_input_fault(entry.bindings@, 0, j);
    lemma_no_binding_fault(entry.abi, entry.bindings@, 0, j);
}

pub proof fn lemma_no_input_fault(bindings: Seq<ValueBinding>, from: int, k: int)
    requires
        first_input_fault(bindings, from) is None,
        0 <= from <= k < bindings.len(),
    ensures
        input_fault(bindings, k) is None,
    decreases k - from,
{
    if from < k {
        lemma_no_input_fault(bindings, from + 1, k);
    }
}

pub proof fn lemma_no_binding_fault(abi: HostAbi, bindings: Seq<ValueBinding>, from: int, k: int)
    requires
        first_binding_fault(abi, bindings, from) is None,
        0 <= from <= k < bindings.len(),
    ensures
        binding_fault(abi, bindings, k) is None,
    decreases k - from,
{
    if from < k {
        lemma_no_binding_fault(abi, bindings, from + 1, k);
    }
}

/// A valid exit map says where every live value is: in a binding, in the host
/// status register, or among the flags.
pub proof fn law_exit_map_covers_live_state(map: ExitStateMap, item: StateItem)
    requires
        map.fault() is None,
        map.live@.contains(item),
        !(item is Flag),
    ensures
        (map.host_fpsr_pending && item is Fpsr) || exists|j: int|
            0 <= j < map.bindings@.len() && (#[trigger] map.bindings@[j]).value.item() == item
                && map.bindings@[j].location.valid_for(map.abi, map.bindings@[j].value.width()),
{
    assert(without_flags(map.live@).contains(item));
    if !(map.host_fpsr_pending && item is Fpsr) {
        let all = bound_items(map.bindings@, map.bindings@.len() as int);
        assert(all.contains(item));
        let j = choose|j: int|
            0 <= j < map.bindings@.len() && (#[trigger] map.bindings@[j]).value.item() == item;
        lemma_no_binding_fault(map.abi, map.bindings@, 0, j);
    }
}

/// The recipe reads a value of so many bytes from the location.
pub open spec fn reads_place(
    recipe: LazyFlags<ValueLocation>,
    value: ValueLocation,
    bytes: u8,
) -> bool
    decreases recipe,
{
    match recipe {
        LazyFlags::Canonical(packed) | LazyFlags::Packed(packed) => value == packed && bytes == 4,
        LazyFlags::Add { lhs, rhs, result, width }
        | LazyFlags::Subtract { lhs, rhs, result, width } => 8 * bytes == width && (value == lhs
            || value == rhs || value == result),
        LazyFlags::AddCarry { lhs, rhs, carry, result, width }
        | LazyFlags::SubtractCarry { lhs, rhs, carry, result, width } => {
            ||| 8 * bytes == width && (value == lhs || value == rhs || value == result)
            ||| bytes == 1 && value == carry
        },
        LazyFlags::Logical { result, width } => 8 * bytes == width && value == result,
        LazyFlags::Conditional { predicate, when_true, when_false } => {
            ||| bytes == 1 && value == predicate
            ||| reads_place(*when_true, value, bytes)
        },
    }
}

/// The recipe computes with words or double words, and its literals have four bits.
pub open spec fn computable(recipe: LazyFlags<ValueLocation>) -> bool
    decreases recipe,
{
    match recipe {
        LazyFlags::Canonical(_) | LazyFlags::Packed(_) => true,
        LazyFlags::Add { width, .. }
        | LazyFlags::Subtract { width, .. }
        | LazyFlags::AddCarry { width, .. }
        | LazyFlags::SubtractCarry { width, .. }
        | LazyFlags::Logical { width, .. } => width == 32 || width == 64,
        LazyFlags::Conditional { when_true, when_false, .. } => when_false < 16 && computable(
            *when_true,
        ),
    }
}

/// A recipe is accepted exactly where it can be computed and every place that it reads can
/// hold what it reads there.
pub proof fn law_recipes_read_valid_places(abi: HostAbi, recipe: LazyFlags<ValueLocation>)
    ensures
        recipe_fault(abi, recipe) is None <==> computable(recipe) && forall|
            value: ValueLocation,
            bytes: u8,
        | #[trigger]
            reads_place(recipe, value, bytes) ==> value.valid_for(abi, bytes),
    decreases recipe,
{
    match recipe {
        LazyFlags::Canonical(packed) | LazyFlags::Packed(packed) => {
            assert(reads_place(recipe, packed, 4));
        },
        LazyFlags::Add { lhs, rhs, result, width }
        | LazyFlags::Subtract { lhs, rhs, result, width } => {
            if width == 32 || width == 64 {
                assert(reads_place(recipe, lhs, width / 8));
                assert(reads_place(recipe, rhs, width / 8));
                assert(reads_place(recipe, result, width / 8));
            }
        },
        LazyFlags::AddCarry { lhs, rhs, carry, result, width }
        | LazyFlags::SubtractCarry { lhs, rhs, carry, result, width } => {
            if width == 32 || width == 64 {
                assert(reads_place(recipe, lhs, width / 8));
                assert(reads_place(recipe, rhs, width / 8));
                assert(reads_place(recipe, result, width / 8));
                assert(reads_place(recipe, carry, 1));
            }
        },
        LazyFlags::Logical { result, width } => {
            if width == 32 || width == 64 {
                assert(reads_place(recipe, result, width / 8));
            }
        },
        LazyFlags::Conditional { predicate, when_true, when_false } => {
            law_recipes_read_valid_places(abi, *when_true);
            assert(reads_place(recipe, predicate, 1));
            assert forall|value: ValueLocation, bytes: u8| #[trigger]
                reads_place(*when_true, value, bytes) implies reads_place(recipe, value, bytes) by {}
            assert forall|value: ValueLocation, bytes: u8| #[trigger]
                reads_place(recipe, value, bytes) implies bytes == 1 && value == predicate
                || reads_place(*when_true, value, bytes) by {}
            assert(computable(recipe) == (when_false < 16 && computable(*when_true)));
        },
    }
}

/// Each binding gives a value of the guest a place that can hold it, no value twice, and the
/// values are those of the state, without the flags. Pending status of the host stands for
/// the status register.
pub open spec fn places(
    abi: HostAbi,
    state: StateSet,
    bindings: Seq<ValueBinding>,
    host_fpsr: bool,
) -> bool {
    &&& forall|k: int|
        0 <= k < bindings.len() ==> (#[trigger] bindings[k]).value.exists_in_guest()
            && bindings[k].location.valid_for(abi, bindings[k].value.width())
    &&& forall|j: int, k: int|
        0 <= j < k < bindings.len() ==> (#[trigger] bindings[j]).value != (
        #[trigger] bindings[k]).value
    &&& forall|item: StateItem|
        !(item is Flag) ==> (#[trigger] state@.contains(item) <==> host_fpsr && item is Fpsr
            || exists|j: int|
            0 <= j < bindings.len() && (#[trigger] bindings[j]).value.item() == item)
}

/// The flags have a place that can hold them, and no bit beyond the four is asked for.
pub open spec fn places_flags(abi: HostAbi, bits: u8, location: NzcvLocation) -> bool {
    &&& bits < 16
    &&& location matches NzcvLocation::Packed(value) ==> value.valid_for(abi, 4)
    &&& location matches NzcvLocation::Deferred(recipe) ==> recipe_fault(abi, recipe) is None
}

proof fn lemma_places(abi: HostAbi, state: StateSet, bindings: Seq<ValueBinding>, host_fpsr: bool)
    ensures
        bindings_fault(abi, state, bindings, host_fpsr) is None <==> places(
            abi,
            state,
            bindings,
            host_fpsr,
        ),
{
    lemma_no_binding_faults(abi, bindings, 0);
    if first_binding_fault(abi, bindings, 0) is None {
        assert forall|k: int| 0 <= k < bindings.len() implies (
        #[trigger] bindings[k]).value.exists_in_guest() && bindings[k].location.valid_for(
            abi,
            bindings[k].value.width(),
        ) by {
            assert(binding_fault(abi, bindings, k) is None);
        }
        assert forall|j: int, k: int| 0 <= j < k < bindings.len() implies (
        #[trigger] bindings[j]).value != (#[trigger] bindings[k]).value by {
            assert(binding_fault(abi, bindings, k) is None);
        }
    }
    let all = bound_items(bindings, bindings.len() as int);
    let covered = if host_fpsr {
        all.insert(StateItem::Fpsr)
    } else {
        all
    };
    if exactly_covers(bindings, state, host_fpsr) {
        assert forall|item: StateItem| !(item is Flag) implies (#[trigger] state@.contains(item)
            <==> host_fpsr && item is Fpsr || exists|j: int|
            0 <= j < bindings.len() && (#[trigger] bindings[j]).value.item() == item) by {
            assert(without_flags(state@).contains(item) == state@.contains(item));
            assert(covered.contains(item) == (host_fpsr && item is Fpsr || all.contains(item)));
        }
    }
    if forall|item: StateItem|
        !(item is Flag) ==> (#[trigger] state@.contains(item) <==> host_fpsr && item is Fpsr
            || exists|j: int|
            0 <= j < bindings.len() && (#[trigger] bindings[j]).value.item() == item) {
        assert forall|item: StateItem| without_flags(state@).contains(item) == covered.contains(
            item,
        ) by {
            assert(state@.contains(item) || !state@.contains(item));
        }
        assert(without_flags(state@) =~= covered);
    }
}

proof fn lemma_no_binding_faults(abi: HostAbi, bindings: Seq<ValueBinding>, from: int)
    requires
        0 <= from,
    ensures
        first_binding_fault(abi, bindings, from) is None <==> forall|k: int|
            from <= k < bindings.len() ==> #[trigger] binding_fault(abi, bindings, k) is None,
    decreases bindings.len() - from,
{
    if from < bindings.len() {
        lemma_no_binding_faults(abi, bindings, from + 1);
    }
}

proof fn lemma_no_input_faults(bindings: Seq<ValueBinding>, from: int)
    requires
        0 <= from,
    ensures
        first_input_fault(bindings, from) is None <==> forall|k: int|
            from <= k < bindings.len() ==> #[trigger] input_fault(bindings, k) is None,
    decreases bindings.len() - from,
{
    if from < bindings.len() {
        lemma_no_input_faults(bindings, from + 1);
    }
}

/// A fast entry is accepted exactly where every live value arrives in a register or spill slot
/// of its own that can hold it, and live flags arrive in the host's flags or in a place of
/// their own.
pub proof fn law_fast_entries_bring_every_input(entry: EntryContract)
    ensures
        entry.fault() is None <==> {
            &&& places(entry.abi, entry.live_in, entry.bindings@, false)
            &&& places_flags(entry.abi, entry.live_in.nzcv, entry.nzcv)
            &&& forall|k: int|
                0 <= k < entry.bindings@.len() ==> !((#[trigger] entry.bindings@[k]).location
                    is Constant)
            &&& forall|j: int, k: int|
                0 <= j < k < entry.bindings@.len() ==> !(
                #[trigger] entry.bindings@[k]).location.overlaps(
                    (#[trigger] entry.bindings@[j]).location,
                )
            &&& entry.live_in.nzcv != 0 ==> match entry.nzcv {
                NzcvLocation::Host { .. } => true,
                NzcvLocation::Packed(value) => !(value is Constant) && forall|k: int|
                    0 <= k < entry.bindings@.len() ==> !value.overlaps(
                        (#[trigger] entry.bindings@[k]).location,
                    ),
                _ => false,
            }
        },
{
    let bindings = entry.bindings@;
    lemma_places(entry.abi, entry.live_in, bindings, false);
    lemma_no_input_faults(bindings, 0);
    if forall|k: int| 0 <= k < bindings.len() ==> #[trigger] input_fault(bindings, k) is None {
        assert forall|k: int| 0 <= k < bindings.len() implies !((#[trigger] bindings[k]).location
            is Constant) by {
            assert(input_fault(bindings, k) is None);
        }
        assert forall|j: int, k: int| 0 <= j < k < bindings.len() implies !(
        #[trigger] bindings[k]).location.overlaps((#[trigger] bindings[j]).location) by {
            assert(input_fault(bindings, k) is None);
        }
    }
}

/// An exit is accepted exactly where every live value, and nothing else, has a place to be
/// found in, and what is dirty is live: pending status of the host is dirty, and dirty flags
/// are not left in the guest's state.
pub proof fn law_exits_tell_where_everything_is(map: ExitStateMap)
    ensures
        map.fault() is None <==> {
            &&& forall|item: StateItem| #[trigger]
                map.dirty_live@.contains(item) ==> map.live@.contains(item)
            &&& map.host_fpsr_pending ==> map.dirty_live.fpsr
            &&& map.dirty_live.nzcv != 0 ==> !(map.nzcv is Canonical)
            &&& places(map.abi, map.live, map.bindings@, map.host_fpsr_pending)
            &&& places_flags(map.abi, map.live.nzcv, map.nzcv)
        },
{
    lemma_places(map.abi, map.live, map.bindings@, map.host_fpsr_pending);
}

} // verus!
