//! Operands of instructions that read processor state.

use vstd::prelude::*;

verus! {

/// A segment register, with the selector last seen in it.
#[derive(Debug, Clone, Copy, PartialEq, Eq, Structural)]
pub enum Segment {
    CS(u64),
    DS(u64),
    ES(u64),
    SS(u64),
    FS(u64),
    GS(u64),
}

} // verus!
