//! Intel VMX: the regions that the processor reads and the results of its
//! instructions.

pub mod status;
pub mod vmcs;
pub mod vmxon;
