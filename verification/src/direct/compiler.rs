//! What a compiler keeps from one region to the next.

use vstd::prelude::*;
use vstd::string::StringExecFns;
use super::error::{DirectJitError, DirectJitErrorKind};
use super::run::MemoryBackend;
use super::text::{hex, hex_of};

verus! {

/// The effort that a tier spends on a region.
#[derive(Clone, Copy, Debug, PartialEq, Eq)]
pub struct CompilerPolicy {
    pub opt_level: &'static str,
    pub regalloc_algorithm: &'static str,
}

/// The tier that compiles at once.
pub fn lcq_compiler_policy() -> (r: CompilerPolicy)
    ensures
        r.opt_level@ == "none"@,
        r.regalloc_algorithm@ == "single_pass"@,
{
    CompilerPolicy { opt_level: "none", regalloc_algorithm: "single_pass" }
}

/// The tier that compiles what runs often.
pub fn hcq_compiler_policy() -> (r: CompilerPolicy)
    ensures
        r.opt_level@ == "speed"@,
        r.regalloc_algorithm@ == "backtracking"@,
{
    CompilerPolicy { opt_level: "speed", regalloc_algorithm: "backtracking" }
}

/// A setting of the code generator.
#[derive(Clone, Copy, Debug, PartialEq, Eq)]
pub struct Setting {
    pub name: &'static str,
    pub value: &'static str,
}

pub open spec fn is_setting(setting: Setting, name: Seq<char>, value: Seq<char>) -> bool {
    setting.name@ == name && setting.value@ == value
}

/// The settings of a tier, in the order in which they are made.
pub fn module_settings(policy: CompilerPolicy, verifier: bool) -> (r: Vec<Setting>)
    ensures
        r@.len() == 6,
        is_setting(r@[0], "preserve_frame_pointers"@, "true"@),
        is_setting(r@[1], "use_colocated_libcalls"@, "false"@),
        is_setting(r@[2], "is_pic"@, "false"@),
        is_setting(r@[3], "opt_level"@, policy.opt_level@),
        is_setting(r@[4], "regalloc_algorithm"@, policy.regalloc_algorithm@),
        is_setting(
            r@[5],
            "enable_verifier"@,
            if verifier {
                "true"@
            } else {
                "false"@
            },
        ),
{
    let mut settings: Vec<Setting> = Vec::new();
    settings.push(Setting { name: "preserve_frame_pointers", value: "true" });
    settings.push(Setting { name: "use_colocated_libcalls", value: "false" });
    settings.push(Setting { name: "is_pic", value: "false" });
    settings.push(Setting { name: "opt_level", value: policy.opt_level });
    settings.push(Setting { name: "regalloc_algorithm", value: policy.regalloc_algorithm });
    settings.push(
        Setting {
            name: "enable_verifier",
            value: if verifier {
                "true"
            } else {
                "false"
            },
        },
    );
    settings
}

/// The state of a compiler. Functions are numbered from one.
#[derive(Clone, Copy, Debug, PartialEq, Eq, Structural)]
pub struct DirectCompiler {
    pub next_function: u32,
    pub memory_backend: MemoryBackend,
}

impl DirectCompiler {
    pub fn new() -> (r: DirectCompiler)
        ensures
            r.next_function == 1,
            r.memory_backend == MemoryBackend::Checked,
    {
        DirectCompiler { next_function: 1, memory_backend: MemoryBackend::Checked }
    }

    /// Chooses how guest memory is reached, which code that was compiled fixes.
    pub fn bind_memory_backend(&mut self, backend: MemoryBackend) -> (r: Result<
        (),
        DirectJitError,
    >)
        ensures
            match r {
                Ok(()) => {
                    &&& old(self).next_function == 1 || old(self).memory_backend == backend
                    &&& *final(self) == (DirectCompiler { memory_backend: backend, ..*old(self) })
                },
                Err(error) => {
                    &&& old(self).next_function != 1
                    &&& old(self).memory_backend != backend
                    &&& *final(self) == *old(self)
                    &&& error.is(
                        DirectJitErrorKind::Internal,
                        "JIT memory backend changed after native code publication"@,
                    )
                },
            },
    {
        if self.next_function != 1 && self.memory_backend != backend {
            return Err(
                DirectJitError::internal(
                    "JIT memory backend changed after native code publication",
                ),
            );
        }
        self.memory_backend = backend;
        Ok(())
    }

    /// The name of the next function, which compiles the region at an address.
    pub fn function_name(&self, address_space: u64, start: u64) -> (r: String)
        ensures
            r@ == "direct_"@ + hex_of(self.next_function as nat, 8) + "_"@ + hex_of(
                address_space as nat,
                16,
            ) + "_"@ + hex_of(start as nat, 16),
    {
        String::from_str("direct_").concat(hex(self.next_function as u64, 8).as_str()).concat(
            "_",
        ).concat(hex(address_space, 16).as_str()).concat("_").concat(hex(start, 16).as_str())
    }

    /// Uses the next number up.
    pub fn number_function(&mut self) -> (r: Result<u32, DirectJitError>)
        ensures
            match r {
                Ok(number) => {
                    &&& number == old(self).next_function
                    &&& old(self).next_function < u32::MAX
                    &&& *final(self) == (DirectCompiler {
                        next_function: (old(self).next_function + 1) as u32,
                        ..*old(self)
                    })
                },
                Err(error) => {
                    &&& old(self).next_function == u32::MAX
                    &&& *final(self) == *old(self)
                    &&& error.is(
                        DirectJitErrorKind::Capacity,
                        "direct JIT function identity space exhausted"@,
                    )
                },
            },
    {
        let number: u32 = self.next_function;
        match number.checked_add(1) {
            Some(next) => {
                self.next_function = next;
                Ok(number)
            },
            None => Err(
                DirectJitError::capacity("direct JIT function identity space exhausted"),
            ),
        }
    }
}

/// Once a function has been compiled, the way to guest memory stays.
pub proof fn law_backend_is_fixed_by_code(before: DirectCompiler, after: DirectCompiler, backend: MemoryBackend)
    requires
        before.next_function > 1,
        before.next_function == 1 || before.memory_backend == backend,
        after == (DirectCompiler { memory_backend: backend, ..before }),
    ensures
        after == before,
{
}

/// An offset into the frame that native code works on.
pub fn context_offset(offset: usize) -> (r: Result<i32, DirectJitError>)
    ensures
        match r {
            Ok(value) => value == offset,
            Err(error) => offset > i32::MAX && error.is(
                DirectJitErrorKind::Internal,
                "direct JIT native-context offset exceeds i32"@,
            ),
        },
{
    if offset <= i32::MAX as usize {
        Ok(offset as i32)
    } else {
        Err(DirectJitError::internal("direct JIT native-context offset exceeds i32"))
    }
}

} // verus!
