//! Processor state: segment registers and model-specific registers.

pub mod insn;
pub mod msr;
