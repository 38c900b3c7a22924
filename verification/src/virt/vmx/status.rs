//! Results of VMX instructions.
//!
//! A VMX instruction reports through the flags: neither CF nor ZF set on
//! success, ZF on a failure with an error number, CF on a failure without
//! one. The caller hands the flags over as one number.

use crate::virt::{VMXResult, VirtError};
use vstd::prelude::*;

verus! {

/// Status of an instruction that succeeded.
pub const VMX_SUCCEED: u8 = 0;

/// Status of an instruction that failed and left an error number.
pub const VMX_FAIL_VALID: u8 = 1;

/// Status of an instruction that failed without a current VMCS.
pub const VMX_FAIL_INVALID: u8 = 2;

/// What the status `ret` of a VMX instruction means. `error` is the error
/// number read from the current VMCS; it counts only where the status says
/// that there is one.
pub fn vmx_result(ret: u8, error: u32) -> (res: Result<(), VirtError>)
    requires
        ret <= VMX_FAIL_INVALID,
    ensures
        res == match ret {
            0 => Ok::<(), VirtError>(()),
            1 => Err(VirtError::VMInstruction(VMXResult::FailValid(error))),
            _ => Err(VirtError::VMInstruction(VMXResult::FailInvalid)),
        },
{
    if ret == VMX_SUCCEED {
        Ok(())
    } else if ret == VMX_FAIL_VALID {
        Err(VirtError::VMInstruction(VMXResult::FailValid(error)))
    } else {
        Err(VirtError::VMInstruction(VMXResult::FailInvalid))
    }
}

/// Whether the status `ret` says that the current VMCS holds an error
/// number, which the caller then reads.
pub fn has_error_number(ret: u8) -> (yes: bool)
    ensures
        yes == (ret == VMX_FAIL_VALID),
{
    ret == VMX_FAIL_VALID
}

} // verus!
