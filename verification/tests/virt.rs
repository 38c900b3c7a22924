use kernel::cpu::insn::Segment;
use kernel::cpu::msr::{
    IA32_VMX_BASIC, IA32_VMX_CR0_FIXED0, IA32_VMX_CR0_FIXED1, IA32_VMX_CR4_FIXED0,
    IA32_VMX_CR4_FIXED1,
};
use kernel::io::IOPort;
use kernel::virt::vmx::status::{
    has_error_number, vmx_result, VMX_FAIL_INVALID, VMX_FAIL_VALID, VMX_SUCCEED,
};
use kernel::virt::vmx::vmcs::{revision_id, REVISION_MASK, SHADOW_BIT, VMCS};
use kernel::virt::vmx::vmxon::{with_fixed_bits, VmxOn};
use kernel::virt::{VMXResult, VirtError};

#[test]
fn msr_numbers() {
    assert_eq!(IA32_VMX_BASIC, 0x480);
    assert_eq!(IA32_VMX_CR0_FIXED0, 0x486);
    assert_eq!(IA32_VMX_CR0_FIXED1, 0x487);
    assert_eq!(IA32_VMX_CR4_FIXED0, 0x488);
    assert_eq!(IA32_VMX_CR4_FIXED1, 0x489);
}

#[test]
fn segment_holds_its_selector() {
    assert_eq!(Segment::CS(8), Segment::CS(8));
    assert_ne!(Segment::CS(8), Segment::DS(8));
    assert_ne!(Segment::FS(0), Segment::FS(1));
    assert!(matches!(Segment::GS(3), Segment::GS(3)));
}

#[test]
fn io_port_keeps_its_number() {
    assert_eq!(IOPort::new(0x03f8).port(), 0x03f8);
    assert_eq!(IOPort::new(0).port(), 0);
    assert_eq!(IOPort::new(u16::MAX).port(), u16::MAX);
}

#[test]
fn vmx_status_values() {
    assert_eq!(VMX_SUCCEED, 0);
    assert_eq!(VMX_FAIL_VALID, 1);
    assert_eq!(VMX_FAIL_INVALID, 2);
}

#[test]
fn vmx_result_of_success() {
    assert_eq!(vmx_result(0, 0), Ok(()));
    assert_eq!(vmx_result(0, 7), Ok(()));
}

#[test]
fn vmx_result_of_a_failure_with_error_number() {
    assert_eq!(vmx_result(1, 7), Err(VirtError::VMInstruction(VMXResult::FailValid(7))));
    assert_eq!(
        vmx_result(1, u32::MAX),
        Err(VirtError::VMInstruction(VMXResult::FailValid(u32::MAX)))
    );
}

#[test]
fn vmx_result_of_a_failure_without_error_number() {
    assert_eq!(vmx_result(2, 7), Err(VirtError::VMInstruction(VMXResult::FailInvalid)));
}

#[test]
fn only_a_valid_failure_has_an_error_number() {
    assert!(!has_error_number(0));
    assert!(has_error_number(1));
    assert!(!has_error_number(2));
    assert!(!has_error_number(255));
}

#[test]
fn bad_address_keeps_the_address() {
    assert_eq!(VirtError::BadAddress(0x1000), VirtError::BadAddress(0x1000));
    assert_ne!(VirtError::BadAddress(0x1000), VirtError::BadAddress(0x2000));
    assert_ne!(VirtError::BadAddress(0), VirtError::VMInstruction(VMXResult::Succeed));
}

#[test]
fn revision_is_the_low_31_bits() {
    assert_eq!(REVISION_MASK, 0x7fff_ffff);
    assert_eq!(revision_id(0), 0);
    assert_eq!(revision_id(0x12), 0x12);
    assert_eq!(revision_id(0x7fff_ffff), 0x7fff_ffff);
    assert_eq!(revision_id(0x8000_0000), 0);
    assert_eq!(revision_id(0xffff_ffff), 0x7fff_ffff);
    assert_eq!(revision_id(0x00da_0400_8000_0004), 4);
    assert_eq!(revision_id(u64::MAX), 0x7fff_ffff);
}

#[test]
fn new_vmcs_is_zero() {
    let vmcs = VMCS::new();
    assert_eq!(vmcs.revision(), 0);
    assert_eq!(vmcs.abort(), 0);
    assert!(!vmcs.is_shadow());
    let vmcs = VMCS::default();
    assert_eq!(vmcs.revision(), 0);
    assert_eq!(vmcs.abort(), 0);
}

#[test]
fn vmcs_setup_stores_the_revision() {
    let mut vmcs = VMCS::new();
    vmcs.setup(0x00da_0400_0000_0012);
    assert_eq!(vmcs.revision(), 0x12);
    assert_eq!(vmcs.abort(), 0);
    assert!(!vmcs.is_shadow());
    vmcs.setup(0xffff_ffff_ffff_ffff);
    assert_eq!(vmcs.revision(), 0x7fff_ffff);
    assert!(!vmcs.is_shadow());
}

#[test]
fn vmcs_set_shadow_masks_the_first_word() {
    assert_eq!(SHADOW_BIT, 1 << 31);
    let mut vmcs = VMCS::new();
    vmcs.setup(0x12);
    vmcs.set_shadow();
    assert_eq!(vmcs.revision(), 0);
    assert!(!vmcs.is_shadow());
    assert_eq!(vmcs.abort(), 0);
}

#[test]
fn vmcs_set_shadow_keeps_the_shadow_bit() {
    let mut vmcs = VMCS::from_words(0x8000_0012, 3);
    assert_eq!(vmcs.revision(), 0x8000_0012);
    assert!(vmcs.is_shadow());
    vmcs.set_shadow();
    assert_eq!(vmcs.revision(), 0x8000_0000);
    assert!(vmcs.is_shadow());
    assert_eq!(vmcs.abort(), 3);
    vmcs.setup(0x12);
    assert_eq!(vmcs.revision(), 0x12);
    assert!(!vmcs.is_shadow());
    assert_eq!(vmcs.abort(), 3);
}

#[test]
fn vmcs_shadow_bit_is_the_top_bit() {
    assert!(!VMCS::from_words(0x7fff_ffff, 0).is_shadow());
    assert!(VMCS::from_words(0x8000_0000, 0).is_shadow());
    assert!(VMCS::from_words(u32::MAX, 0).is_shadow());
}

#[test]
fn new_vmxon_is_zero() {
    assert_eq!(VmxOn::new().revision(), 0);
    assert_eq!(VmxOn::default().revision(), 0);
}

#[test]
fn vmxon_setup_stores_the_revision() {
    let mut region = VmxOn::new();
    region.setup(0x00da_0400_8000_0004);
    assert_eq!(region.revision(), 4);
    region.setup(0x1_0000_0001);
    assert_eq!(region.revision(), 1);
}

#[test]
fn fixed_bits_are_those_set_in_both_registers() {
    assert_eq!(with_fixed_bits(0, 0, 0), 0);
    assert_eq!(with_fixed_bits(0x1, 0x8000_0021, 0xffff_ffff), 0x8000_0021);
    assert_eq!(with_fixed_bits(0x10, 0b1100, 0b1010), 0x18);
    assert_eq!(with_fixed_bits(0x2000, 0x2000, 0x0), 0x2000);
    assert_eq!(with_fixed_bits(0, u64::MAX, 0x2000), 0x2000);
}
