//! The fixed correspondence from relocation kinds to object-file symbol
//! kinds and ELF relocation types.

use vstd::prelude::*;
use crate::relocation::RelocationKind;

verus! {

#[verifier::external_type_specification]
#[verifier::external_body]
pub struct ExSymbolKind(object::SymbolKind);

/// Relies on `object::SymbolKind::Text`: the variant for code symbols.
#[verifier::external_body]
fn symbol_kind_text() -> object::SymbolKind {
    object::SymbolKind::Text
}

/// Relies on `object::SymbolKind::Data`: the variant for data symbols.
#[verifier::external_body]
fn symbol_kind_data() -> object::SymbolKind {
    object::SymbolKind::Data
}

/// Relies on `object::elf::R_ARM_PC24` wrapping the ELF value 1.
#[verifier::external_body]
fn elf_r_arm_pc24() -> (r: u32)
    ensures
        r == 1,
{
    object::elf::R_ARM_PC24.0
}

/// Relies on `object::elf::R_ARM_THM_PC22` wrapping the ELF value 10.
#[verifier::external_body]
fn elf_r_arm_thm_pc22() -> (r: u32)
    ensures
        r == 10,
{
    object::elf::R_ARM_THM_PC22.0
}

/// Relies on `object::elf::R_ARM_XPC25` wrapping the ELF value 15.
#[verifier::external_body]
fn elf_r_arm_xpc25() -> (r: u32)
    ensures
        r == 15,
{
    object::elf::R_ARM_XPC25.0
}

/// Relies on `object::elf::R_ARM_THM_XPC22` wrapping the ELF value 16.
#[verifier::external_body]
fn elf_r_arm_thm_xpc22() -> (r: u32)
    ensures
        r == 16,
{
    object::elf::R_ARM_THM_XPC22.0
}

/// Relies on `object::elf::R_ARM_ABS32` wrapping the ELF value 2.
#[verifier::external_body]
fn elf_r_arm_abs32() -> (r: u32)
    ensures
        r == 2,
{
    object::elf::R_ARM_ABS32.0
}

/// The ELF relocation type of each kind: `R_ARM_PC24`, `R_ARM_THM_PC22`,
/// `R_ARM_XPC25`, `R_ARM_THM_XPC22` and `R_ARM_ABS32`, in variant order.
pub open spec fn elf_type_of(k: RelocationKind) -> u32 {
    match k {
        RelocationKind::ArmCall => 1,
        RelocationKind::ThumbCall => 10,
        RelocationKind::ArmCallThumb => 15,
        RelocationKind::ThumbCallArm => 16,
        RelocationKind::Load => 2,
    }
}

impl RelocationKind {
    /// The object-file symbol kind a relocation of this kind points at:
    /// code for every call, data for a load.
    pub fn into_obj_symbol_kind(&self) -> object::SymbolKind {
        match self {
            RelocationKind::Load => symbol_kind_data(),
            _ => symbol_kind_text(),
        }
    }

    /// The ELF relocation type of this kind.
    pub fn into_elf_relocation_type(&self) -> (r: u32)
        ensures
            r == elf_type_of(*self),
    {
        match self {
            RelocationKind::ArmCall => elf_r_arm_pc24(),
            RelocationKind::ThumbCall => elf_r_arm_thm_pc22(),
            RelocationKind::ArmCallThumb => elf_r_arm_xpc25(),
            RelocationKind::ThumbCallArm => elf_r_arm_thm_xpc22(),
            RelocationKind::Load => elf_r_arm_abs32(),
        }
    }
}

} // verus!
