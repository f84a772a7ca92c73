//! Static analysis of ARM/Thumb machine code for multi-module embedded
//! programs: function discovery and parsing, a typed relocation table with a
//! text format, and cross-reference resolution between modules.

pub mod text;
pub mod module;
pub mod relocation;
pub mod reloc_text;
pub mod ins;
pub mod function_start;
pub mod oracle;
pub mod symbol;
pub mod functions;
pub mod program;
pub mod elf;
