//! The VMXON region and the control registers of VMX operation.

use super::vmcs::{revision_id, revision_of, SHADOW_BIT};
use vstd::prelude::*;

verus! {

/// The value that a control register must at least have in VMX operation:
/// `current` with every bit set that both `fixed0` and `fixed1` have.
pub fn with_fixed_bits(current: u64, fixed0: u64, fixed1: u64) -> (value: u64)
    ensures
        value == current | (fixed0 & fixed1),
{
    current | (fixed0 & fixed1)
}

/// Number of bytes of a VMXON region after its first word.
pub const PAD_LEN: usize = 4092;

/// The region that the processor is given when it enters VMX operation:
/// one page, of which software sets the first word.
#[derive(Debug)]
pub struct VmxOn {
    revision: u32,
    _pad: [u8; 4092],
}

impl VmxOn {
    /// The first word, the revision identifier, in contracts.
    pub closed spec fn spec_revision(&self) -> u32 {
        self.revision
    }

    /// The bytes after the first word, in contracts.
    pub closed spec fn padding(&self) -> Seq<u8> {
        self._pad@
    }

    /// A region of zeros.
    pub fn new() -> (region: Self)
        ensures
            region.revision() == 0,
            region.padding() == Seq::new(PAD_LEN as nat, |i: int| 0u8),
    {
        let region = Self { revision: 0, _pad: [0u8; 4092] };
        assert(region.padding() =~= Seq::new(PAD_LEN as nat, |i: int| 0u8));
        region
    }

    /// The first word, the revision identifier.
    #[verifier::when_used_as_spec(spec_revision)]
    pub fn revision(&self) -> (word: u32)
        ensures
            word == self.revision(),
    {
        self.revision
    }

    /// Stores the revision identifier found in `basic`, the value of the
    /// register of basic VMX capabilities.
    fn init_revision(&mut self, basic: u64)
        ensures
            final(self).revision() == revision_of(basic),
            final(self).revision() < SHADOW_BIT,
            final(self).padding() == old(self).padding(),
    {
        self.revision = revision_id(basic);
    }

    /// Makes the region ready for the processor to enter VMX operation: it
    /// gets the revision identifier found in `basic`, the value of the
    /// register of basic VMX capabilities. The caller sets the control
    /// registers and reads that register before, and enters VMX operation
    /// after.
    pub fn setup(&mut self, basic: u64)
        ensures
            final(self).revision() == revision_of(basic),
            final(self).revision() < SHADOW_BIT,
            final(self).padding() == old(self).padding(),
    {
        self.init_revision(basic);
    }
}

impl Default for VmxOn {
    fn default() -> (region: Self)
        ensures
            region.revision() == 0,
            region.padding() == Seq::new(PAD_LEN as nat, |i: int| 0u8),
    {
        VmxOn::new()
    }
}

} // verus!
