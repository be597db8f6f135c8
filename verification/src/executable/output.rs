//! Owned output of the code generator, and its relocation.

use vstd::prelude::*;
use vstd::arithmetic::power::{lemma_pow0, pow};
use vstd::string::StringExecFns;
use super::{Error, Reloc};
use crate::abi::{HostAbi, SPILL_BYTES, TRANSFER_BYTES};
use crate::abi::ValueBinding;
use crate::lifetime::unit::{capped, capped_product, Installed};

verus! {

#[derive(Clone, Copy, Debug, PartialEq, Eq, Structural)]
pub enum Target {
    Local(u32),
    User { namespace: u32, index: u32 },
    LibCall(u32),
    Known(u32),
}

#[derive(Clone, Copy, Debug, PartialEq, Eq, Structural)]
pub struct Relocation {
    pub offset: u32,
    pub kind: Reloc,
    pub target: Target,
    pub addend: i64,
}

/// What a code generator's relocation names.
pub enum RawTarget {
    Func(u32),
    /// Index into the table of user symbols.
    User(usize),
    LibCall(u32),
    Known(u32),
    /// Anything else, as text.
    Other(String),
}

pub struct RawRelocation {
    pub offset: u32,
    pub kind: Reloc,
    pub target: RawTarget,
    pub addend: i64,
}

/// A point of the code at which the machine state is described.
#[derive(Clone, Copy, Debug, PartialEq, Eq, Structural)]
pub struct Boundary {
    pub offset: u32,
    pub entry: bool,
    /// Bytes that a later link may overwrite.
    pub patch_bytes: u32,
    /// How many values the description locates.
    pub values: u32,
}

/// An instruction of the code that may trap, with the trap's code.
#[derive(Clone, Copy, Debug, PartialEq, Eq, Structural)]
pub struct Trap {
    pub offset: u32,
    pub code: u8,
}

/// Finished code as the code generator describes it.
pub struct BackendCode {
    pub bytes: Vec<u8>,
    pub alignment: usize,
    /// Host stack maps and unwind records, of which there should be none.
    pub host_records: usize,
    /// The text of the first boundary map that cannot be realized.
    pub boundary_error: Option<String>,
    /// Extent of the native frame, where the code uses one.
    pub frame_size: Option<u32>,
    pub relocations: Vec<RawRelocation>,
    /// Namespace and index of each user symbol.
    pub symbols: Vec<(u32, u32)>,
    /// Block number and code offset of each entry label.
    pub entries: Vec<(u32, u32)>,
    pub states: Vec<Boundary>,
    pub faults: Vec<Boundary>,
    pub traps: Vec<Trap>,
}

pub struct Metadata {
    pub abi: HostAbi,
    pub frame_extent: u32,
    pub entries: Vec<(u32, u32)>,
    pub states: Vec<Boundary>,
    pub faults: Vec<Boundary>,
    pub traps: Vec<Trap>,
    pub relocations: Vec<Relocation>,
}

/// Bytes of the values that the first `count` descriptions locate.
pub open spec fn located_bytes(maps: Seq<Boundary>, count: int) -> int
    decreases count,
{
    if count <= 0 {
        0
    } else {
        located_bytes(maps, count - 1) + maps[count - 1].values * core::mem::size_of::<
            ValueBinding,
        >()
    }
}

/// The located values of descriptions, or more than any budget allows.
fn located(maps: &Vec<Boundary>) -> (r: usize)
    ensures
        0 <= located_bytes(maps@, maps@.len() as int),
        r == capped(located_bytes(maps@, maps@.len() as int)),
{
    let mut r: usize = 0;
    let mut k: usize = 0;
    while k < maps.len()
        invariant
            k <= maps@.len(),
            0 <= located_bytes(maps@, k as int),
            r == capped(located_bytes(maps@, k as int)),
        decreases maps@.len() - k,
    {
        r = r.saturating_add(
            capped_product(maps[k].values as usize, core::mem::size_of::<ValueBinding>()),
        );
        proof {
            let values = maps@[k as int].values as int;
            let size = core::mem::size_of::<ValueBinding>() as int;
            assert(0 <= values * size) by (nonlinear_arith)
                requires
                    0 <= values,
                    0 <= size,
            ;
        }
        k = k + 1;
    }
    r
}

impl Metadata {
    /// Bytes of what the metadata owns.
    pub open spec fn owned(&self) -> int {
        self.entries@.len() * core::mem::size_of::<(u32, u32)>() + self.states@.len()
            * core::mem::size_of::<Boundary>() + self.faults@.len() * core::mem::size_of::<
            Boundary,
        >() + self.traps@.len() * core::mem::size_of::<Trap>() + self.relocations@.len()
            * core::mem::size_of::<Relocation>() + located_bytes(
            self.states@,
            self.states@.len() as int,
        ) + located_bytes(self.faults@, self.faults@.len() as int)
    }

    /// Bytes of the metadata and of what it owns.
    pub open spec fn size(&self) -> int {
        core::mem::size_of::<Metadata>() + self.owned()
    }

    fn owned_bytes(&self) -> (r: usize)
        ensures
            0 <= self.owned(),
            r == capped(self.owned()),
    {
        proof {
            lemma_products(self.entries@.len() as int, core::mem::size_of::<(u32, u32)>() as int);
            lemma_products(self.states@.len() as int, core::mem::size_of::<Boundary>() as int);
            lemma_products(self.faults@.len() as int, core::mem::size_of::<Boundary>() as int);
            lemma_products(self.traps@.len() as int, core::mem::size_of::<Trap>() as int);
            lemma_products(
                self.relocations@.len() as int,
                core::mem::size_of::<Relocation>() as int,
            );
        }
        let states: usize = located(&self.states);
        let faults: usize = located(&self.faults);
        capped_product(self.entries.len(), core::mem::size_of::<(u32, u32)>()).saturating_add(
            capped_product(self.states.len(), core::mem::size_of::<Boundary>()),
        ).saturating_add(
            capped_product(self.faults.len(), core::mem::size_of::<Boundary>()),
        ).saturating_add(
            capped_product(self.traps.len(), core::mem::size_of::<Trap>()),
        ).saturating_add(
            capped_product(self.relocations.len(), core::mem::size_of::<Relocation>()),
        ).saturating_add(states).saturating_add(faults)
    }

    pub fn bytes(&self) -> (r: usize)
        ensures
            r == capped(self.size()),
    {
        core::mem::size_of::<Metadata>().saturating_add(self.owned_bytes())
    }
}

proof fn lemma_products(count: int, size: int)
    requires
        0 <= count,
        0 <= size,
    ensures
        0 <= count * size,
{
    assert(0 <= count * size) by (nonlinear_arith)
        requires
            0 <= count,
            0 <= size,
    ;
}

pub struct Output {
    pub bytes: Vec<u8>,
    pub alignment: usize,
    pub metadata: Metadata,
}

/// The target that a raw one stands for, or the text of the refusal.
pub open spec fn target_of(raw: RawTarget, symbols: Seq<(u32, u32)>) -> Result<Target, Seq<char>> {
    match raw {
        RawTarget::Func(offset) => Ok(Target::Local(offset)),
        RawTarget::User(reference) => if reference < symbols.len() {
            Ok(
                Target::User {
                    namespace: symbols[reference as int].0,
                    index: symbols[reference as int].1,
                },
            )
        } else {
            Err("unresolved backend user symbol index"@)
        },
        RawTarget::LibCall(call) => Ok(Target::LibCall(call)),
        RawTarget::Known(symbol) => Ok(Target::Known(symbol)),
        RawTarget::Other(text) => Err("unsupported backend relocation target: "@ + text@),
    }
}

/// The refusal of the first raw relocation at or after `from` without a target.
pub open spec fn first_target_fault(
    relocations: Seq<RawRelocation>,
    symbols: Seq<(u32, u32)>,
    from: int,
) -> Option<Seq<char>>
    decreases relocations.len() - from,
{
    if from < 0 || from >= relocations.len() {
        None
    } else {
        match target_of(relocations[from].target, symbols) {
            Err(text) => Some(text),
            Ok(_) => first_target_fault(relocations, symbols, from + 1),
        }
    }
}

pub open spec fn entry_outside(code: BackendCode) -> bool {
    exists|k: int| 0 <= k < code.entries@.len() && (#[trigger] code.entries@[k]).1 >= code.bytes@.len()
}

/// Why finished code is refused.
pub open spec fn backend_fault(code: BackendCode) -> Option<Seq<char>> {
    if code.host_records != 0 {
        Some("unexpected host stack/unwind metadata in Nixe output"@)
    } else if code.boundary_error is Some {
        Some(code.boundary_error->0@)
    } else if code.frame_size is None {
        Some("backend output does not use the Nixe frame ABI"@)
    } else if !(TRANSFER_BYTES <= code.frame_size->0 <= SPILL_BYTES) {
        Some("backend frame exceeds the spill arena"@)
    } else if first_target_fault(code.relocations@, code.symbols@, 0) is Some {
        first_target_fault(code.relocations@, code.symbols@, 0)
    } else if entry_outside(code) {
        Some("entry label outside emitted code"@)
    } else {
        None
    }
}

pub open spec fn relocation_of(raw: RawRelocation, symbols: Seq<(u32, u32)>) -> Relocation {
    Relocation {
        offset: raw.offset,
        kind: raw.kind,
        target: target_of(raw.target, symbols)->Ok_0,
        addend: raw.addend,
    }
}

fn resolve_target(raw: &RawTarget, symbols: &Vec<(u32, u32)>) -> (r: Result<Target, Error>)
    ensures
        match target_of(*raw, symbols@) {
            Ok(target) => r == Ok::<Target, Error>(target),
            Err(text) => r matches Err(Error::Output(detail)) && detail@ == text,
        },
{
    match raw {
        RawTarget::Func(offset) => Ok(Target::Local(*offset)),
        RawTarget::User(reference) => {
            if *reference < symbols.len() {
                let name = symbols[*reference];
                Ok(Target::User { namespace: name.0, index: name.1 })
            } else {
                Err(Error::Output(String::from_str("unresolved backend user symbol index")))
            }
        },
        RawTarget::LibCall(call) => Ok(Target::LibCall(*call)),
        RawTarget::Known(symbol) => Ok(Target::Known(*symbol)),
        RawTarget::Other(text) => {
            let detail = String::from_str("unsupported backend relocation target: ").concat(
                text.as_str(),
            );
            Err(Error::Output(detail))
        },
    }
}

impl Output {
    /// Bytes that are charged for the metadata once the code lies in executable
    /// memory. They are charged together with the code while it is staged.
    pub open spec fn installed_bytes(&self) -> int {
        capped(self.metadata.owned()) + core::mem::size_of::<Installed>()
    }

    pub fn metadata_charge(&self) -> (r: Result<usize, Error>)
        ensures
            if self.bytes@.len() + self.installed_bytes() <= usize::MAX {
                r == Ok::<usize, Error>(self.installed_bytes() as usize)
            } else {
                r matches Err(Error::Capacity(detail)) && detail@ == "byte count overflow"@
            },
    {
        let owned: usize = self.metadata.owned_bytes();
        match owned.checked_add(core::mem::size_of::<Installed>()) {
            Some(bytes) => match bytes.checked_add(self.bytes.len()) {
                Some(_) => Ok(bytes),
                None => Err(Error::Capacity("byte count overflow")),
            },
            None => Err(Error::Capacity("byte count overflow")),
        }
    }

    /// The symbols whose addresses the relocations need from outside. A target in
    /// the code itself needs none.
    pub fn wanted_symbols(&self) -> (r: Vec<Option<Target>>)
        ensures
            r@.len() == self.metadata.relocations@.len(),
            forall|k: int|
                0 <= k < r@.len() ==> #[trigger] r@[k] == match self.metadata.relocations@[k].target {
                    Target::Local(_) => None::<Target>,
                    target => Some(target),
                },
    {
        let mut r: Vec<Option<Target>> = Vec::new();
        let mut k: usize = 0;
        while k < self.metadata.relocations.len()
            invariant
                k <= self.metadata.relocations@.len(),
                r@.len() == k,
                forall|j: int|
                    0 <= j < k ==> #[trigger] r@[j] == match self.metadata.relocations@[j].target {
                        Target::Local(_) => None::<Target>,
                        target => Some(target),
                    },
            decreases self.metadata.relocations@.len() - k,
        {
            let target = self.metadata.relocations[k].target;
            r.push(
                match target {
                    Target::Local(_) => None,
                    target => Some(target),
                },
            );
            k = k + 1;
        }
        r
    }

    /// Takes finished code over. Symbol indices of the generator do not cross:
    /// every relocation names its target.
    pub fn from_backend(abi: HostAbi, code: BackendCode) -> (r: Result<Output, Error>)
        ensures
            match backend_fault(code) {
                Some(text) => r matches Err(Error::Output(detail)) && detail@ == text,
                None => r matches Ok(output) && {
                    &&& output.bytes@ == code.bytes@
                    &&& output.alignment == code.alignment
                    &&& output.metadata.abi == abi
                    &&& output.metadata.frame_extent == code.frame_size->0
                    &&& output.metadata.entries@ == code.entries@
                    &&& output.metadata.states@ == code.states@
                    &&& output.metadata.faults@ == code.faults@
                    &&& output.metadata.traps@ == code.traps@
                    &&& output.metadata.relocations@ == Seq::new(
                        code.relocations@.len(),
                        |k: int| relocation_of(code.relocations@[k], code.symbols@),
                    )
                },
            },
    {
        if code.host_records != 0 {
            return Err(
                Error::Output(
                    String::from_str("unexpected host stack/unwind metadata in Nixe output"),
                ),
            );
        }
        if let Some(text) = code.boundary_error {
            return Err(Error::Output(text));
        }
        let frame_extent: u32 = match code.frame_size {
            Some(size) => size,
            None => return Err(
                Error::Output(String::from_str("backend output does not use the Nixe frame ABI")),
            ),
        };
        if frame_extent < TRANSFER_BYTES || frame_extent > SPILL_BYTES {
            return Err(Error::Output(String::from_str("backend frame exceeds the spill arena")));
        }
        let mut relocations: Vec<Relocation> = Vec::new();
        let mut k: usize = 0;
        while k < code.relocations.len()
            invariant
                k <= code.relocations@.len(),
                relocations@ == Seq::new(
                    k as nat,
                    |j: int| relocation_of(code.relocations@[j], code.symbols@),
                ),
                first_target_fault(code.relocations@, code.symbols@, 0) == first_target_fault(
                    code.relocations@,
                    code.symbols@,
                    k as int,
                ),
                code.host_records == 0,
                code.boundary_error is None,
                code.frame_size == Some(frame_extent),
                TRANSFER_BYTES <= frame_extent <= SPILL_BYTES,
            decreases code.relocations@.len() - k,
        {
            let raw = &code.relocations[k];
            let target = resolve_target(&raw.target, &code.symbols)?;
            relocations.push(
                Relocation { offset: raw.offset, kind: raw.kind, target, addend: raw.addend },
            );
            proof {
                assert(relocations@ =~= Seq::new(
                    (k + 1) as nat,
                    |j: int| relocation_of(code.relocations@[j], code.symbols@),
                ));
            }
            k = k + 1;
        }
        let mut k: usize = 0;
        while k < code.entries.len()
            invariant
                k <= code.entries@.len(),
                code.host_records == 0,
                code.boundary_error is None,
                code.frame_size == Some(frame_extent),
                TRANSFER_BYTES <= frame_extent <= SPILL_BYTES,
                first_target_fault(code.relocations@, code.symbols@, 0) is None,
                forall|j: int|
                    0 <= j < k ==> (#[trigger] code.entries@[j]).1 < code.bytes@.len(),
            decreases code.entries@.len() - k,
        {
            if code.entries[k].1 as usize >= code.bytes.len() {
                return Err(Error::Output(String::from_str("entry label outside emitted code")));
            }
            k = k + 1;
        }
        Ok(
            Output {
                bytes: code.bytes,
                alignment: code.alignment,
                metadata: Metadata {
                    abi,
                    frame_extent,
                    entries: code.entries,
                    states: code.states,
                    faults: code.faults,
                    traps: code.traps,
                    relocations,
                },
            },
        )
    }
}

/// The `count` low bytes of a number, lowest first.
pub open spec fn little_endian(value: int, count: nat) -> Seq<u8>
    decreases count,
{
    if count == 0 {
        Seq::empty()
    } else {
        seq![(value % 256) as u8] + little_endian(value / 256, (count - 1) as nat)
    }
}

/// `bytes` with `data` written at `start`.
pub open spec fn splice(bytes: Seq<u8>, start: int, data: Seq<u8>) -> Seq<u8> {
    Seq::new(
        bytes.len(),
        |k: int|
            if start <= k < start + data.len() {
                data[k - start]
            } else {
                bytes[k]
            },
    )
}

pub open spec fn word_at(bytes: Seq<u8>, start: int) -> int {
    bytes[start] + bytes[start + 1] * 0x100 + bytes[start + 2] * 0x1_0000 + bytes[start + 3]
        * 0x100_0000
}

/// Where a target is, before its addend; `symbol` is what an outside name
/// resolves to.
pub open spec fn target_address(
    target: Target,
    base: usize,
    code_len: nat,
    symbol: Option<usize>,
) -> Result<int, Seq<char>> {
    match target {
        Target::Local(offset) => if offset >= code_len {
            Err("local target outside code"@)
        } else if base + offset > usize::MAX {
            Err("unresolved or overflowing target"@)
        } else {
            Ok(base + offset)
        },
        _ => match symbol {
            Some(address) => Ok(address as int),
            None => Err("unresolved or overflowing target"@),
        },
    }
}

/// Bytes that a relocation replaces, where the host has the kind.
pub open spec fn field_width(abi: HostAbi, kind: Reloc) -> Option<int> {
    match (abi, kind) {
        (_, Reloc::Abs8) => Some(8),
        (_, Reloc::Abs4) => Some(4),
        (HostAbi::X86_64, Reloc::X86PCRel4) => Some(4),
        (HostAbi::X86_64, Reloc::X86CallPCRel4) => Some(4),
        (HostAbi::Aarch64, Reloc::Arm64Call) => Some(4),
        (HostAbi::Aarch64, Reloc::Aarch64AdrPrelPgHi21) => Some(4),
        (HostAbi::Aarch64, Reloc::Aarch64AddAbsLo12Nc) => Some(4),
        _ => None,
    }
}

/// The number that a relocation of `word` writes, given its own address and that
/// of its target.
pub open spec fn relocated(kind: Reloc, word: int, target: int, at: int) -> Result<int, Seq<char>> {
    match kind {
        Reloc::Abs8 => Ok(target),
        Reloc::Abs4 => if target <= u32::MAX {
            Ok(target)
        } else {
            Err("absolute address exceeds 32 bits"@)
        },
        Reloc::X86PCRel4 | Reloc::X86CallPCRel4 => if i32::MIN <= target - at <= i32::MAX {
            Ok((target - at) % 0x1_0000_0000)
        } else {
            Err("PC-relative target requires an island"@)
        },
        _ => if at % 4 != 0 {
            Err("unaligned AArch64 instruction"@)
        } else {
            match kind {
                Reloc::Arm64Call => call_word(word, target, at),
                Reloc::Aarch64AdrPrelPgHi21 => page_word(word, target, at),
                _ => low_word(word, target),
            }
        },
    }
}

/// BL: a signed word offset in the low 26 bits.
pub open spec fn call_word(word: int, target: int, at: int) -> Result<int, Seq<char>> {
    if word / 0x400_0000 != 0x25 {
        Err("Arm64Call does not name BL"@)
    } else if target % 4 != 0 || !(-0x800_0000 <= target - at < 0x800_0000) {
        Err("unaligned call or target requires an island"@)
    } else {
        Ok(0x9400_0000 + ((target - at) / 4) % 0x400_0000)
    }
}

/// ADRP: a signed page offset, its two low bits apart from the others.
pub open spec fn page_word(word: int, target: int, at: int) -> Result<int, Seq<char>> {
    let pages = target / 4096 - at / 4096;
    let immediate = pages % 0x20_0000;
    if !(word / 0x8000_0000 == 1 && (word / 0x100_0000) % 0x20 == 0x10) {
        Err("page relocation does not name ADRP"@)
    } else if !(-0x10_0000 <= pages < 0x10_0000) {
        Err("ADRP target exceeds signed 21 pages"@)
    } else {
        Ok(0x9000_0000 + (immediate % 4) * 0x2000_0000 + (immediate / 4) * 0x20 + word % 0x20)
    }
}

/// ADD of an unshifted 12-bit immediate: the offset within the page.
pub open spec fn low_word(word: int, target: int) -> Result<int, Seq<char>> {
    if word / 0x40_0000 != 0x244 {
        Err("low relocation does not name unshifted ADD X"@)
    } else {
        Ok(0x9100_0000 + (target % 4096) * 0x400 + word % 0x400)
    }
}

/// The code after one relocation, or the detail of its refusal.
pub open spec fn after_relocation(
    abi: HostAbi,
    bytes: Seq<u8>,
    base: usize,
    relocation: Relocation,
    symbol: Option<usize>,
) -> Result<Seq<u8>, Seq<char>> {
    match target_address(relocation.target, base, bytes.len(), symbol) {
        Err(text) => Err(text),
        Ok(address) => {
            let target = address + relocation.addend;
            let at = base + relocation.offset;
            let start = relocation.offset as int;
            if !(0 <= target <= usize::MAX) {
                Err("target/addend address overflow"@)
            } else if at > usize::MAX {
                Err("relocation address overflow"@)
            } else {
                match field_width(abi, relocation.kind) {
                    None => Err("unsupported relocation for this host ABI"@),
                    Some(width) => if start + width > usize::MAX {
                        Err("relocation extent overflow"@)
                    } else if start + width > bytes.len() {
                        Err("relocation outside code"@)
                    } else {
                        match relocated(relocation.kind, word_at(bytes, start), target, at) {
                            Err(text) => Err(text),
                            Ok(value) => Ok(
                                splice(bytes, start, little_endian(value, width as nat)),
                            ),
                        }
                    },
                }
            }
        },
    }
}

/// The code after all relocations from `from` on, or the first refusal with its
/// position.
pub open spec fn after_relocations(
    abi: HostAbi,
    bytes: Seq<u8>,
    base: usize,
    relocations: Seq<Relocation>,
    symbols: Seq<Option<usize>>,
    from: int,
) -> Result<Seq<u8>, (int, Seq<char>)>
    decreases relocations.len() - from,
{
    if from < 0 || from >= relocations.len() {
        Ok(bytes)
    } else {
        match after_relocation(abi, bytes, base, relocations[from], symbols[from]) {
            Err(text) => Err((from, text)),
            Ok(next) => after_relocations(abi, next, base, relocations, symbols, from + 1),
        }
    }
}

fn write_at(bytes: &mut Vec<u8>, start: usize, value: u64, count: usize)
    requires
        count <= 8,
        start + count <= old(bytes)@.len(),
    ensures
        final(bytes)@ == splice(
            old(bytes)@,
            start as int,
            little_endian(value as int, count as nat),
        ),
{
    let ghost before = bytes@;
    let total: usize = bytes.len();
    let mut rest: u64 = value;
    let mut k: usize = 0;
    proof {
        lemma_little_endian_len(value as int, count as nat);
        assert(little_endian(value as int, count as nat).subrange(0, count as int)
            =~= little_endian(value as int, count as nat));
    }
    while k < count
        invariant
            k <= count,
            start + count <= total,
            total == before.len(),
            bytes@.len() == before.len(),
            little_endian(value as int, count as nat).len() == count,
            little_endian(value as int, count as nat).subrange(k as int, count as int)
                == little_endian(rest as int, (count - k) as nat),
            forall|j: int|
                0 <= j < before.len() ==> #[trigger] bytes@[j] == (if start <= j < start + k {
                    little_endian(value as int, count as nat)[j - start]
                } else {
                    before[j]
                }),
        decreases count - k,
    {
        let ghost whole = little_endian(value as int, count as nat);
        let ghost tail = little_endian(rest as int, (count - k) as nat);
        proof {
            lemma_little_endian_len(rest as int / 256, (count - k - 1) as nat);
            assert(tail[0] == (rest % 256) as u8);
            assert(whole[k as int] == whole.subrange(k as int, count as int)[0]);
            assert(whole.subrange(k + 1, count as int) =~= whole.subrange(
                k as int,
                count as int,
            ).subrange(1, count - k));
            assert(tail.subrange(1, count - k) =~= little_endian(
                rest as int / 256,
                (count - k - 1) as nat,
            ));
        }
        bytes.set(start + k, (rest % 256) as u8);
        rest = rest / 256;
        k = k + 1;
    }
    proof {
        assert(bytes@ =~= splice(
            before,
            start as int,
            little_endian(value as int, count as nat),
        ));
    }
}

proof fn lemma_little_endian_len(value: int, count: nat)
    ensures
        little_endian(value, count).len() == count,
    decreases count,
{
    if count > 0 {
        lemma_little_endian_len(value / 256, (count - 1) as nat);
    }
}

fn read_word(bytes: &Vec<u8>, start: usize) -> (r: u32)
    requires
        start + 4 <= bytes@.len(),
    ensures
        r == word_at(bytes@, start as int),
{
    let total: usize = bytes.len();
    assert(start + 4 <= total);
    bytes[start] as u32 + bytes[start + 1] as u32 * 0x100 + bytes[start + 2] as u32 * 0x1_0000
        + bytes[start + 3] as u32 * 0x100_0000
}

spec fn word_result(r: Result<u64, &'static str>, expected: Result<int, Seq<char>>) -> bool {
    match expected {
        Ok(value) => r == Ok::<u64, &'static str>(value as u64) && 0 <= value <= u64::MAX,
        Err(text) => r matches Err(detail) && detail@ == text,
    }
}

fn relocated_call(word: u32, target: usize, at: usize) -> (r: Result<u64, &'static str>)
    requires
        at % 4 == 0,
    ensures
        word_result(r, call_word(word as int, target as int, at as int)),
{
    let delta: i128 = target as i128 - at as i128;
    if word / 0x400_0000 != 0x25 {
        return Err("Arm64Call does not name BL");
    }
    if target % 4 != 0 || delta < -0x800_0000 || delta >= 0x800_0000 {
        return Err("unaligned call or target requires an island");
    }
    let raised: u64 = (delta + 0x1000_0000) as u64;
    Ok(0x9400_0000 + (raised / 4) % 0x400_0000)
}

fn relocated_page(word: u32, target: usize, at: usize) -> (r: Result<u64, &'static str>)
    ensures
        word_result(r, page_word(word as int, target as int, at as int)),
{
    if !(word / 0x8000_0000 == 1 && (word / 0x100_0000) % 0x20 == 0x10) {
        return Err("page relocation does not name ADRP");
    }
    let pages: i128 = (target / 4096) as i128 - (at / 4096) as i128;
    if pages < -0x10_0000 || pages >= 0x10_0000 {
        return Err("ADRP target exceeds signed 21 pages");
    }
    let immediate: u64 = (pages + 0x20_0000) as u64 % 0x20_0000;
    Ok(
        0x9000_0000 + (immediate % 4) * 0x2000_0000 + (immediate / 4) * 0x20 + word as u64
            % 0x20,
    )
}

fn relocated_word(kind: Reloc, word: u32, target: usize, at: usize) -> (r: Result<u64, &'static str>)
    ensures
        word_result(r, relocated(kind, word as int, target as int, at as int)),
{
    let delta: i128 = target as i128 - at as i128;
    match kind {
        Reloc::Abs8 => Ok(target as u64),
        Reloc::Abs4 => {
            if target as u64 > u32::MAX as u64 {
                return Err("absolute address exceeds 32 bits");
            }
            Ok(target as u64)
        },
        Reloc::X86PCRel4 | Reloc::X86CallPCRel4 => {
            if delta < -0x8000_0000 || delta > 0x7fff_ffff {
                return Err("PC-relative target requires an island");
            }
            if delta >= 0 {
                Ok(delta as u64)
            } else {
                Ok((delta + 0x1_0000_0000) as u64)
            }
        },
        _ => {
            if at % 4 != 0 {
                return Err("unaligned AArch64 instruction");
            }
            match kind {
                Reloc::Arm64Call => relocated_call(word, target, at),
                Reloc::Aarch64AdrPrelPgHi21 => relocated_page(word, target, at),
                _ => {
                    if word / 0x40_0000 != 0x244 {
                        return Err("low relocation does not name unshifted ADD X");
                    }
                    Ok(0x9100_0000 + (target % 4096) as u64 * 0x400 + word as u64 % 0x400)
                },
            }
        },
    }
}

fn relocate_one(
    abi: HostAbi,
    bytes: &mut Vec<u8>,
    base: usize,
    relocation: Relocation,
    symbol: Option<usize>,
) -> (r: Result<(), &'static str>)
    ensures
        match after_relocation(abi, old(bytes)@, base, relocation, symbol) {
            Ok(next) => r is Ok && final(bytes)@ == next,
            Err(text) => r matches Err(detail) && detail@ == text,
        },
        final(bytes)@.len() == old(bytes)@.len(),
{
    let total: usize = bytes.len();
    let address: usize = match relocation.target {
        Target::Local(offset) => {
            if offset as usize >= total {
                return Err("local target outside code");
            }
            if offset as usize > usize::MAX - base {
                return Err("unresolved or overflowing target");
            }
            base + offset as usize
        },
        _ => match symbol {
            Some(address) => address,
            None => return Err("unresolved or overflowing target"),
        },
    };
    let wide: i128 = address as i128 + relocation.addend as i128;
    if wide < 0 || wide > usize::MAX as i128 {
        return Err("target/addend address overflow");
    }
    let target: usize = wide as usize;
    let start: usize = relocation.offset as usize;
    if start > usize::MAX - base {
        return Err("relocation address overflow");
    }
    let at: usize = base + start;
    let width: usize = match (abi, relocation.kind) {
        (_, Reloc::Abs8) => 8,
        (_, Reloc::Abs4) => 4,
        (HostAbi::X86_64, Reloc::X86PCRel4) => 4,
        (HostAbi::X86_64, Reloc::X86CallPCRel4) => 4,
        (HostAbi::Aarch64, Reloc::Arm64Call) => 4,
        (HostAbi::Aarch64, Reloc::Aarch64AdrPrelPgHi21) => 4,
        (HostAbi::Aarch64, Reloc::Aarch64AddAbsLo12Nc) => 4,
        _ => return Err("unsupported relocation for this host ABI"),
    };
    if start > usize::MAX - width {
        return Err("relocation extent overflow");
    }
    if start + width > total {
        return Err("relocation outside code");
    }
    let word: u32 = read_word(bytes, start);
    let value: u64 = relocated_word(relocation.kind, word, target, at)?;
    write_at(bytes, start, value, width);
    Ok(())
}

impl Output {
    /// Fills every relocation in the staged bytes for execution at `base`.
    /// `symbols` holds, for each relocation, what its outside name resolves to.
    /// After a refusal the bytes are not to be used.
    pub fn relocate(&mut self, base: usize, symbols: &Vec<Option<usize>>) -> (r: Result<(), Error>)
        requires
            symbols@.len() == old(self).metadata.relocations@.len(),
        ensures
            match after_relocations(
                old(self).metadata.abi,
                old(self).bytes@,
                base,
                old(self).metadata.relocations@,
                symbols@,
                0,
            ) {
                Ok(bytes) => r is Ok && final(self).bytes@ == bytes,
                Err((position, text)) => {
                    let refused = old(self).metadata.relocations@[position];
                    r matches Err(Error::Relocation { offset, kind, detail }) && offset
                        == refused.offset && kind == refused.kind && detail@ == text
                },
            },
            final(self).bytes@.len() == old(self).bytes@.len(),
            final(self).metadata == old(self).metadata,
            final(self).alignment == old(self).alignment,
    {
        let mut k: usize = 0;
        while k < self.metadata.relocations.len()
            invariant
                k <= self.metadata.relocations@.len(),
                symbols@.len() == self.metadata.relocations@.len(),
                self.metadata == old(self).metadata,
                self.alignment == old(self).alignment,
                self.bytes@.len() == old(self).bytes@.len(),
                after_relocations(
                    old(self).metadata.abi,
                    old(self).bytes@,
                    base,
                    old(self).metadata.relocations@,
                    symbols@,
                    0,
                ) == after_relocations(
                    self.metadata.abi,
                    self.bytes@,
                    base,
                    self.metadata.relocations@,
                    symbols@,
                    k as int,
                ),
            decreases self.metadata.relocations@.len() - k,
        {
            let relocation = self.metadata.relocations[k];
            let abi = self.metadata.abi;
            if let Err(detail) = relocate_one(abi, &mut self.bytes, base, relocation, symbols[k]) {
                return Err(
                    Error::Relocation {
                        offset: relocation.offset,
                        kind: relocation.kind,
                        detail,
                    },
                );
            }
            k = k + 1;
        }
        Ok(())
    }
}

/// The signed number in the low `bits` bits.
pub open spec fn signed_field(field: int, half: int) -> int {
    if field < half {
        field
    } else {
        field - 2 * half
    }
}

/// A relocated BL jumps to its target: its address and four times its signed
/// 26-bit field.
pub proof fn law_call_reaches_target(word: int, target: int, at: int)
    requires
        at % 4 == 0,
        call_word(word, target, at) is Ok,
    ensures
        ({
            let patched = call_word(word, target, at)->Ok_0;
            &&& patched / 0x400_0000 == 0x25
            &&& at + 4 * signed_field(patched % 0x400_0000, 0x200_0000) == target
        }),
{
}

/// A relocated ADRP and the ADD behind it together compute the target: the page
/// of the instruction, the signed page offset and the offset within the page.
pub proof fn law_page_pair_computes_target(page: int, low: int, target: int, at: int)
    requires
        0 <= target,
        0 <= at,
        page_word(page, target, at) is Ok,
        low_word(low, target) is Ok,
    ensures
        ({
            let adrp = page_word(page, target, at)->Ok_0;
            let immediate = (adrp / 0x20) % 0x8_0000 * 4 + (adrp / 0x2000_0000) % 4;
            let added = (low_word(low, target)->Ok_0 / 0x400) % 4096;
            (at / 4096) * 4096 + signed_field(immediate, 0x10_0000) * 4096 + added == target
        }),
        // Register fields are kept.
        page_word(page, target, at)->Ok_0 % 0x20 == page % 0x20,
        low_word(low, target)->Ok_0 % 0x400 == low % 0x400,
{
    let pages = target / 4096 - at / 4096;
    let immediate = pages % 0x20_0000;
    let adrp = page_word(page, target, at)->Ok_0;
    assert(0 <= immediate < 0x20_0000);
    assert((adrp / 0x20) % 0x8_0000 == immediate / 4);
    assert((adrp / 0x2000_0000) % 4 == immediate % 4);
}

/// The number in some bytes, the lowest first.
pub open spec fn field_at(bytes: Seq<u8>, start: int, count: nat) -> int
    decreases count,
{
    if count == 0 {
        0
    } else {
        bytes[start] + 0x100 * field_at(bytes, start + 1, (count - 1) as nat)
    }
}

proof fn lemma_field_kept(bytes: Seq<u8>, other: Seq<u8>, start: int, at: int, count: nat)
    requires
        forall|k: int| 0 <= k < count ==> #[trigger] bytes[start + k] == other[at + k],
    ensures
        field_at(bytes, start, count) == field_at(other, at, count),
    decreases count,
{
    if count > 0 {
        assert(bytes[start + 0] == other[at + 0]);
        assert forall|k: int| 0 <= k < count - 1 implies #[trigger] bytes[start + 1 + k]
            == other[at + 1 + k] by {
            assert(bytes[start + (k + 1)] == other[at + (k + 1)]);
        }
        lemma_field_kept(bytes, other, start + 1, at + 1, (count - 1) as nat);
    }
}

proof fn lemma_field_written(value: int, count: nat)
    requires
        count <= 8,
        0 <= value,
        count == 4 ==> value < 0x1_0000_0000,
        count == 8 ==> value < 0x1_0000_0000_0000_0000,
        count < 4 ==> value < pow(256, count),
        4 < count < 8 ==> value < pow(256, count),
    ensures
        little_endian(value, count).len() == count,
        field_at(little_endian(value, count), 0, count) == value,
    decreases count,
{
    lemma_pow0(256);
    reveal_with_fuel(pow, 9);
    if count > 0 {
        let rest = (count - 1) as nat;
        assert(pow(256, count) == 256 * pow(256, rest));
        lemma_field_written(value / 256, rest);
        let written = little_endian(value, count);
        let tail = little_endian(value / 256, rest);
        assert forall|k: int| 0 <= k < rest implies #[trigger] written[1 + k] == tail[0 + k] by {}
        lemma_field_kept(written, tail, 1, 0, rest);
        assert(written[0] == (value % 256) as u8);
    }
}

/// A relocation changes the bytes of its field and no others. The field then leads to the
/// target with the addend: it holds the address, or for a field relative to its own place
/// the signed distance.
pub proof fn law_relocations_write_their_field(
    abi: HostAbi,
    bytes: Seq<u8>,
    base: usize,
    relocation: Relocation,
    symbol: Option<usize>,
)
    requires
        after_relocation(abi, bytes, base, relocation, symbol) is Ok,
    ensures
        ({
            let next = after_relocation(abi, bytes, base, relocation, symbol)->Ok_0;
            let width = field_width(abi, relocation.kind)->0;
            let start = relocation.offset as int;
            let target = target_address(relocation.target, base, bytes.len(), symbol)->Ok_0
                + relocation.addend;
            &&& next.len() == bytes.len()
            &&& start + width <= bytes.len()
            &&& forall|k: int|
                0 <= k < bytes.len() && !(start <= k < start + width) ==> #[trigger] next[k]
                    == bytes[k]
            &&& relocation.kind is Abs8 ==> field_at(next, start, 8) == target
            &&& relocation.kind is Abs4 ==> field_at(next, start, 4) == target
            &&& relocation.kind is X86PCRel4 || relocation.kind is X86CallPCRel4 ==> base + start
                + signed_field(field_at(next, start, 4), 0x8000_0000) == target
        }),
{
    let width = field_width(abi, relocation.kind)->0;
    let start = relocation.offset as int;
    let target = target_address(relocation.target, base, bytes.len(), symbol)->Ok_0
        + relocation.addend;
    let value = relocated(relocation.kind, word_at(bytes, start), target, base + start)->Ok_0;
    let data = little_endian(value, width as nat);
    let next = splice(bytes, start, data);
    lemma_data_len(value, width as nat);
    if relocation.kind is Abs8 || relocation.kind is Abs4 || relocation.kind is X86PCRel4
        || relocation.kind is X86CallPCRel4 {
        lemma_field_written(value, width as nat);
        assert forall|k: int| 0 <= k < width implies #[trigger] next[start + k] == data[0 + k] by {}
        lemma_field_kept(next, data, start, 0, width as nat);
    }
}

proof fn lemma_data_len(value: int, count: nat)
    ensures
        little_endian(value, count).len() == count,
    decreases count,
{
    if count > 0 {
        lemma_data_len(value / 256, (count - 1) as nat);
    }
}

/// A target in the code itself is found from the base of the code alone, and moves with
/// it; an outside target does not.
pub proof fn law_local_targets_move_with_the_code(
    offset: u32,
    base: usize,
    other: usize,
    code_len: nat,
    symbol: Option<usize>,
)
    requires
        offset < code_len,
        base + code_len <= usize::MAX,
        other + code_len <= usize::MAX,
    ensures
        target_address(Target::Local(offset), base, code_len, symbol) is Ok,
        target_address(Target::Local(offset), base, code_len, symbol)->Ok_0 - base
            == target_address(Target::Local(offset), other, code_len, symbol)->Ok_0 - other,
        base <= target_address(Target::Local(offset), base, code_len, symbol)->Ok_0 < base
            + code_len,
{
}

/// The byte belongs to the field of one of the relocations.
pub open spec fn in_field(abi: HostAbi, relocations: Seq<Relocation>, byte: int) -> bool {
    exists|j: int|
        0 <= j < relocations.len() && (#[trigger] relocations[j]).offset <= byte
            < relocations[j].offset + field_width(abi, relocations[j].kind)->0
}

/// Relocation changes the fields of the relocations and nothing else of the code.
pub proof fn law_relocation_changes_fields_alone(
    abi: HostAbi,
    bytes: Seq<u8>,
    base: usize,
    relocations: Seq<Relocation>,
    symbols: Seq<Option<usize>>,
    byte: int,
)
    requires
        after_relocations(abi, bytes, base, relocations, symbols, 0) is Ok,
        0 <= byte < bytes.len(),
        !in_field(abi, relocations, byte),
    ensures
        after_relocations(abi, bytes, base, relocations, symbols, 0)->Ok_0.len() == bytes.len(),
        after_relocations(abi, bytes, base, relocations, symbols, 0)->Ok_0[byte] == bytes[byte],
{
    lemma_fields_alone(abi, bytes, base, relocations, symbols, 0, byte);
}

proof fn lemma_fields_alone(
    abi: HostAbi,
    bytes: Seq<u8>,
    base: usize,
    relocations: Seq<Relocation>,
    symbols: Seq<Option<usize>>,
    from: int,
    byte: int,
)
    requires
        0 <= from,
        after_relocations(abi, bytes, base, relocations, symbols, from) is Ok,
        0 <= byte < bytes.len(),
        !in_field(abi, relocations, byte),
    ensures
        after_relocations(abi, bytes, base, relocations, symbols, from)->Ok_0.len() == bytes.len(),
        after_relocations(abi, bytes, base, relocations, symbols, from)->Ok_0[byte] == bytes[byte],
    decreases relocations.len() - from,
{
    if from < relocations.len() {
        let next = after_relocation(abi, bytes, base, relocations[from], symbols[from])->Ok_0;
        law_relocations_write_their_field(abi, bytes, base, relocations[from], symbols[from]);
        assert(next[byte] == bytes[byte]);
        lemma_fields_alone(abi, next, base, relocations, symbols, from + 1, byte);
    }
}

/// Finished code is accepted exactly where it uses nothing of the host's stack, its
/// boundaries could be described, its frame fits the spill area behind the transfers, each
/// relocation has a target that can be named, and each entry lies in the code.
pub proof fn law_accepted_code_is_complete(code: BackendCode)
    ensures
        backend_fault(code) is None <==> {
            &&& code.host_records == 0
            &&& code.boundary_error is None
            &&& code.frame_size is Some
            &&& TRANSFER_BYTES <= code.frame_size->0 <= SPILL_BYTES
            &&& forall|k: int|
                0 <= k < code.relocations@.len() ==> match (
                #[trigger] code.relocations@[k]).target {
                    RawTarget::User(reference) => reference < code.symbols@.len(),
                    RawTarget::Other(_) => false,
                    _ => true,
                }
            &&& forall|k: int|
                0 <= k < code.entries@.len() ==> (#[trigger] code.entries@[k]).1
                    < code.bytes@.len()
        },
{
    lemma_targets_named(code.relocations@, code.symbols@, 0);
}

proof fn lemma_targets_named(
    relocations: Seq<RawRelocation>,
    symbols: Seq<(u32, u32)>,
    from: int,
)
    requires
        0 <= from,
    ensures
        first_target_fault(relocations, symbols, from) is None <==> forall|k: int|
            from <= k < relocations.len() ==> match (#[trigger] relocations[k]).target {
                RawTarget::User(reference) => reference < symbols.len(),
                RawTarget::Other(_) => false,
                _ => true,
            },
    decreases relocations.len() - from,
{
    if from < relocations.len() {
        lemma_targets_named(relocations, symbols, from + 1);
    }
}

/// A relocation keeps its place, kind and addend, and a symbol is named as the backend's list
/// names it.
pub proof fn law_relocations_keep_their_place(raw: RawRelocation, symbols: Seq<(u32, u32)>)
    requires
        target_of(raw.target, symbols) is Ok,
    ensures
        relocation_of(raw, symbols).offset == raw.offset,
        relocation_of(raw, symbols).kind == raw.kind,
        relocation_of(raw, symbols).addend == raw.addend,
        raw.target is User ==> relocation_of(raw, symbols).target == (Target::User {
            namespace: symbols[raw.target->User_0 as int].0,
            index: symbols[raw.target->User_0 as int].1,
        }),
        raw.target is Func <==> relocation_of(raw, symbols).target is Local,
        raw.target is Func ==> relocation_of(raw, symbols).target->Local_0 == raw.target->Func_0,
        raw.target is LibCall ==> relocation_of(raw, symbols).target->LibCall_0
            == raw.target->LibCall_0,
        raw.target is Known ==> relocation_of(raw, symbols).target->Known_0 == raw.target->Known_0,
{
}

} // verus!
