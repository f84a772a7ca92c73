//! Modules of a program image: the main code, overlays swapped into shared
//! address ranges, and the two tightly-coupled-memory autoloads.

use vstd::prelude::*;
use crate::relocation::Relocations;

verus! {

/// The role of an autoload module.
#[derive(Clone, Copy, Debug, PartialEq, Eq, Structural)]
pub enum AutoloadKind {
    Itcm,
    Dtcm,
    Unknown,
}

/// Which module of the program a value belongs to.
#[derive(Clone, Copy, Debug, PartialEq, Eq, Structural)]
pub enum ModuleKind {
    Arm9,
    Overlay(u16),
    Autoload(AutoloadKind),
}

/// What a section holds.
#[derive(Clone, Copy, Debug, PartialEq, Eq, Structural)]
pub enum SectionKind {
    Code,
    Data,
    Bss,
}

/// One section of a module.
#[derive(Clone, Copy, Debug, PartialEq, Eq, Structural)]
pub struct Section {
    pub kind: SectionKind,
}

impl Section {
    /// What this section holds.
    pub fn kind(&self) -> (k: SectionKind)
        ensures
            k == self.kind,
    {
        self.kind
    }
}

/// One module: its role, its sections, its relocation table, and the prefix
/// used to name data symbols discovered inside it.
pub struct Module {
    pub kind: ModuleKind,
    pub sections: Vec<Section>,
    pub relocations: Relocations,
    pub default_data_prefix: String,
}

impl Module {
    /// A module with the given role, sections and naming prefix, and an
    /// empty relocation table.
    pub fn new(kind: ModuleKind, sections: Vec<Section>, default_data_prefix: String) -> (m:
        Module)
        ensures
            m.kind == kind,
            m.sections@ == sections@,
            m.default_data_prefix@ == default_data_prefix@,
            m.relocations@.len() == 0,
            m.relocations.wf(),
    {
        Module { kind, sections, relocations: Relocations::new(), default_data_prefix }
    }

    /// Which module this is.
    pub fn kind(&self) -> (k: ModuleKind)
        ensures
            k == self.kind,
    {
        self.kind
    }

    /// The sections of this module.
    pub fn sections(&self) -> (s: &Vec<Section>)
        ensures
            s == &self.sections,
    {
        &self.sections
    }

    /// The relocation table of this module, for reading.
    pub fn relocations(&self) -> (r: &Relocations)
        ensures
            r == &self.relocations,
    {
        &self.relocations
    }

    /// The relocation table of this module, for writing.
    pub fn relocations_mut(&mut self) -> (r: &mut Relocations)
        ensures
            *r == old(self).relocations,
            final(self).relocations == *final(r),
            final(self).kind == old(self).kind,
            final(self).sections == old(self).sections,
            final(self).default_data_prefix == old(self).default_data_prefix,
    {
        &mut self.relocations
    }
}

} // verus!
