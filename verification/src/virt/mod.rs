//! Hardware virtualization.

use vstd::prelude::*;

pub mod vmx;

verus! {

/// How a VMX instruction ended.
#[derive(Debug, Clone, Copy, PartialEq, Eq, Structural)]
pub enum VMXResult {
    /// The instruction did its work.
    Succeed,
    /// The instruction failed and left this error number in the current
    /// VMCS.
    FailValid(u32),
    /// The instruction failed and there is no current VMCS to hold an
    /// error number.
    FailInvalid,
}

/// Errors of the virtualization layer.
#[derive(Debug, Clone, Copy, PartialEq, Eq, Structural)]
pub enum VirtError {
    /// Bad address requested.
    BadAddress(u64),
    /// Error while executing a VMX instruction.
    VMInstruction(VMXResult),
}

} // verus!
