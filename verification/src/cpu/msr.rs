//! Numbers of the model-specific registers that describe VMX.

use vstd::prelude::*;

verus! {

/// Basic VMX capabilities, among them the revision identifier.
pub const IA32_VMX_BASIC: u32 = 0x480;

/// Bits of CR0 that must be 1 in VMX operation.
pub const IA32_VMX_CR0_FIXED0: u32 = 0x486;

/// Bits of CR0 that may be 1 in VMX operation.
pub const IA32_VMX_CR0_FIXED1: u32 = 0x487;

/// Bits of CR4 that must be 1 in VMX operation.
pub const IA32_VMX_CR4_FIXED0: u32 = 0x488;

/// Bits of CR4 that may be 1 in VMX operation.
pub const IA32_VMX_CR4_FIXED1: u32 = 0x489;

} // verus!
