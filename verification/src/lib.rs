//! Verified core of a small x86_64 hypervisor kernel.
//!
//! The heart of the crate is the kernel heap in [`mm`]: a segregated
//! free-list allocator in front of a first-fit backing heap. Beside it
//! stand the plain data of the processor and of the VMX regions that the
//! kernel sets up at boot. Every function carries a contract that Verus
//! proves; the few places where the crate relies on code it does not verify
//! are marked as such in their documentation.

pub mod cpu;
pub mod io;
pub mod mm;
pub mod virt;
