//! The virtual-machine control structure.

use vstd::prelude::*;

verus! {

/// Bit of the first word of a VMCS that marks a shadow VMCS.
pub const SHADOW_BIT: u32 = 0x8000_0000;

/// Number of bytes of a VMCS after its first two words.
pub const DATA_LEN: usize = 4088;

/// The 31 bits of the basic VMX capabilities that hold the revision
/// identifier.
pub const REVISION_MASK: u64 = 0x7fff_ffff;

/// The revision identifier in the value `basic` of the register of basic
/// VMX capabilities: its low 31 bits.
pub open spec fn revision_of(basic: u64) -> u32 {
    (basic & REVISION_MASK) as u32
}

/// Computes [`revision_of`].
pub fn revision_id(basic: u64) -> (revision: u32)
    ensures
        revision == revision_of(basic),
        revision < SHADOW_BIT,
{
    let low: u32 = #[verifier::truncate]
    (basic as u32);
    let revision = low & !(1u32 << 31);
    assert(revision == (basic & 0x7fff_ffff) as u32 && revision < 0x8000_0000u32) by (bit_vector)
        requires
            low == basic as u32,
            revision == low & !(1u32 << 31),
    ;
    revision
}

/// A virtual-machine control structure: one page that the processor reads
/// and writes, of which software sets the first two words.
#[derive(Debug)]
pub struct VMCS {
    revision: u32,
    abort: u32,
    data: VMCSData,
}

impl VMCS {
    /// The first word: revision identifier and shadow bit, in contracts.
    pub closed spec fn spec_revision(&self) -> u32 {
        self.revision
    }

    /// The second word, the abort indicator, in contracts.
    pub closed spec fn spec_abort(&self) -> u32 {
        self.abort
    }

    /// The bytes after the first two words, whose format only the
    /// processor knows.
    pub closed spec fn data(&self) -> Seq<u8> {
        self.data.bytes()
    }

    /// Whether the shadow bit is set, in contracts.
    pub open spec fn spec_is_shadow(&self) -> bool {
        self.revision() >= SHADOW_BIT
    }

    /// A structure of zeros.
    pub fn new() -> (vmcs: Self)
        ensures
            vmcs.revision() == 0,
            vmcs.abort() == 0,
            !vmcs.is_shadow(),
            vmcs.data() == Seq::new(DATA_LEN as nat, |i: int| 0u8),
    {
        Self { revision: 0, abort: 0, data: VMCSData::default() }
    }

    /// The structure with the given first two words.
    pub fn from_words(revision: u32, abort: u32) -> (vmcs: Self)
        ensures
            vmcs.revision() == revision,
            vmcs.abort() == abort,
            vmcs.data() == Seq::new(DATA_LEN as nat, |i: int| 0u8),
    {
        Self { revision, abort, data: VMCSData::default() }
    }

    /// The first word: revision identifier and shadow bit.
    #[verifier::when_used_as_spec(spec_revision)]
    pub fn revision(&self) -> (word: u32)
        ensures
            word == self.revision(),
    {
        self.revision
    }

    /// The second word, the abort indicator.
    #[verifier::when_used_as_spec(spec_abort)]
    pub fn abort(&self) -> (word: u32)
        ensures
            word == self.abort(),
    {
        self.abort
    }

    /// Stores the revision identifier found in `basic`, the value of the
    /// register of basic VMX capabilities, with the shadow bit clear.
    fn init_revision(&mut self, basic: u64)
        ensures
            final(self).revision() == revision_of(basic),
            final(self).abort() == old(self).abort(),
            final(self).data() == old(self).data(),
            !final(self).is_shadow(),
    {
        self.revision = revision_id(basic);
    }

    /// Makes the structure ready to be loaded: it gets the revision
    /// identifier of the processor, found in `basic`, the value of the
    /// register of basic VMX capabilities. The caller reads that register
    /// before and loads the structure after.
    pub fn setup(&mut self, basic: u64)
        ensures
            final(self).revision() == revision_of(basic),
            final(self).abort() == old(self).abort(),
            final(self).data() == old(self).data(),
            !final(self).is_shadow(),
    {
        self.init_revision(basic);
    }

    /// Whether the shadow bit is set.
    #[verifier::when_used_as_spec(spec_is_shadow)]
    pub fn is_shadow(&self) -> (shadow: bool)
        ensures
            shadow == self.is_shadow(),
    {
        let revision = self.revision;
        assert((revision & (1u32 << 31) != 0) == (revision >= 0x8000_0000u32)) by (bit_vector);
        self.revision & (1 << 31) != 0
    }

    /// Masks the first word with the shadow bit: the revision identifier
    /// is cleared, and the shadow bit stays as it is.
    pub fn set_shadow(&mut self)
        ensures
            final(self).revision() == if old(self).is_shadow() {
                SHADOW_BIT
            } else {
                0
            },
            final(self).is_shadow() == old(self).is_shadow(),
            final(self).abort() == old(self).abort(),
            final(self).data() == old(self).data(),
    {
        let revision = self.revision;
        assert(revision & (1u32 << 31) == if revision >= 0x8000_0000u32 {
            0x8000_0000u32
        } else {
            0u32
        }) by (bit_vector);
        self.revision &= 1 << 31
    }
}

impl Default for VMCS {
    fn default() -> (vmcs: Self)
        ensures
            vmcs.revision() == 0,
            vmcs.abort() == 0,
            !vmcs.is_shadow(),
            vmcs.data() == Seq::new(DATA_LEN as nat, |i: int| 0u8),
    {
        VMCS::new()
    }
}

/// The part of a VMCS whose format only the processor knows.
#[derive(Debug)]
struct VMCSData {
    data: [u8; 4088],
}

impl VMCSData {
    /// The bytes of the data, in contracts.
    pub closed spec fn bytes(&self) -> Seq<u8> {
        self.data@
    }

    /// Data of zeros.
    fn new() -> (zeroed: Self)
        ensures
            zeroed.bytes() == Seq::new(DATA_LEN as nat, |i: int| 0u8),
    {
        let zeroed = Self { data: [0u8; 4088] };
        assert(zeroed.bytes() =~= Seq::new(DATA_LEN as nat, |i: int| 0u8));
        zeroed
    }
}

impl Default for VMCSData {
    fn default() -> (zeroed: Self)
        ensures
            zeroed.bytes() == Seq::new(DATA_LEN as nat, |i: int| 0u8),
    {
        VMCSData::new()
    }
}

} // verus!
