//! A decoded instruction as the analysis reads it: the fields of the
//! decoder's output that the heuristics depend on, as plain values.

use vstd::prelude::*;
use crate::text::chars_eq;

verus! {

/// Register number of the stack pointer.
pub const REG_SP: u8 = 13;

/// Register number of the program counter.
pub const REG_PC: u8 = 15;

/// Which encoding an instruction came from.
#[derive(Clone, Copy, Debug, PartialEq, Eq, Structural)]
pub enum InsSort {
    Arm,
    Thumb,
    Data,
}

/// The mnemonics the analysis distinguishes; everything else is `Other`.
#[derive(Clone, Copy, Debug, PartialEq, Eq, Structural)]
pub enum Mnemonic {
    Mov,
    Movs,
    Lsl,
    Lsls,
    Lsr,
    Lsrs,
    Ldr,
    Ldrh,
    Ldrb,
    Strh,
    Strb,
    B,
    Bx,
    Ldm,
    Pop,
    Other,
}

/// One operand, as far as the heuristics read it.
#[derive(Clone, Copy, Debug, PartialEq, Eq, Structural)]
pub enum Arg {
    /// No operand in this position.
    Absent,
    /// A register, possibly dereferenced as a load or store base.
    Reg { reg: u8, deref: bool },
    /// An unsigned immediate.
    UImm(u32),
    /// An immediate offset, possibly post-indexed.
    OffsetImm { value: i32, post_indexed: bool },
    /// An operand of a shape the heuristics do not read.
    Other,
}

/// One decoded instruction, as plain values.
#[derive(Clone, Copy, Debug, PartialEq, Eq, Structural)]
pub struct InsModel {
    /// Which encoding the instruction came from.
    pub sort: InsSort,
    /// The opcode is the decoder's illegal sentinel.
    pub op_illegal: bool,
    /// The opcode is one half of a Thumb BL/BLX pair.
    pub bl_half: bool,
    /// The instruction executes only under a condition.
    pub conditional: bool,
    /// The mnemonic of the opcode.
    pub mnemonic: Mnemonic,
    /// The mnemonic of the disassembled text, which may carry a condition.
    pub parsed_mnemonic: Mnemonic,
    /// The disassembly is illegal.
    pub parsed_illegal: bool,
    /// The instruction loads multiple registers.
    pub loads_multiple: bool,
    /// The plain register list holds the program counter.
    pub ldm_has_pc: bool,
    /// The PC-extended register list holds the program counter.
    pub pop_has_pc: bool,
    /// The branch destination offset, if the instruction has one.
    pub branch_dest: Option<i32>,
    /// The raw instruction word.
    pub code: u32,
    /// The first four operands.
    pub arg0: Arg,
    pub arg1: Arg,
    pub arg2: Arg,
    pub arg3: Arg,
}

/// The mnemonic a character string names.
pub open spec fn mnemonic_of_chars(s: Seq<char>) -> Mnemonic {
    if s == seq!['m', 'o', 'v'] {
        Mnemonic::Mov
    } else if s == seq!['m', 'o', 'v', 's'] {
        Mnemonic::Movs
    } else if s == seq!['l', 's', 'l'] {
        Mnemonic::Lsl
    } else if s == seq!['l', 's', 'l', 's'] {
        Mnemonic::Lsls
    } else if s == seq!['l', 's', 'r'] {
        Mnemonic::Lsr
    } else if s == seq!['l', 's', 'r', 's'] {
        Mnemonic::Lsrs
    } else if s == seq!['l', 'd', 'r'] {
        Mnemonic::Ldr
    } else if s == seq!['l', 'd', 'r', 'h'] {
        Mnemonic::Ldrh
    } else if s == seq!['l', 'd', 'r', 'b'] {
        Mnemonic::Ldrb
    } else if s == seq!['s', 't', 'r', 'h'] {
        Mnemonic::Strh
    } else if s == seq!['s', 't', 'r', 'b'] {
        Mnemonic::Strb
    } else if s == seq!['b'] {
        Mnemonic::B
    } else if s == seq!['b', 'x'] {
        Mnemonic::Bx
    } else if s == seq!['l', 'd', 'm'] {
        Mnemonic::Ldm
    } else if s == seq!['p', 'o', 'p'] {
        Mnemonic::Pop
    } else {
        Mnemonic::Other
    }
}

/// The mnemonic a character vector names.
pub fn mnemonic_from_chars(v: &Vec<char>) -> (m: Mnemonic)
    ensures
        m == mnemonic_of_chars(v@),
{
    let c_mov: Vec<char> = vec!['m', 'o', 'v'];
    let c_movs: Vec<char> = vec!['m', 'o', 'v', 's'];
    let c_lsl: Vec<char> = vec!['l', 's', 'l'];
    let c_lsls: Vec<char> = vec!['l', 's', 'l', 's'];
    let c_lsr: Vec<char> = vec!['l', 's', 'r'];
    let c_lsrs: Vec<char> = vec!['l', 's', 'r', 's'];
    let c_ldr: Vec<char> = vec!['l', 'd', 'r'];
    let c_ldrh: Vec<char> = vec!['l', 'd', 'r', 'h'];
    let c_ldrb: Vec<char> = vec!['l', 'd', 'r', 'b'];
    let c_strh: Vec<char> = vec!['s', 't', 'r', 'h'];
    let c_strb: Vec<char> = vec!['s', 't', 'r', 'b'];
    let c_b: Vec<char> = vec!['b'];
    let c_bx: Vec<char> = vec!['b', 'x'];
    let c_ldm: Vec<char> = vec!['l', 'd', 'm'];
    let c_pop: Vec<char> = vec!['p', 'o', 'p'];
    proof {
        assert(c_mov@ =~= seq!['m', 'o', 'v']);
        assert(c_movs@ =~= seq!['m', 'o', 'v', 's']);
        assert(c_lsl@ =~= seq!['l', 's', 'l']);
        assert(c_lsls@ =~= seq!['l', 's', 'l', 's']);
        assert(c_lsr@ =~= seq!['l', 's', 'r']);
        assert(c_lsrs@ =~= seq!['l', 's', 'r', 's']);
        assert(c_ldr@ =~= seq!['l', 'd', 'r']);
        assert(c_ldrh@ =~= seq!['l', 'd', 'r', 'h']);
        assert(c_ldrb@ =~= seq!['l', 'd', 'r', 'b']);
        assert(c_strh@ =~= seq!['s', 't', 'r', 'h']);
        assert(c_strb@ =~= seq!['s', 't', 'r', 'b']);
        assert(c_b@ =~= seq!['b']);
        assert(c_bx@ =~= seq!['b', 'x']);
        assert(c_ldm@ =~= seq!['l', 'd', 'm']);
        assert(c_pop@ =~= seq!['p', 'o', 'p']);
    }
    if chars_eq(v, &c_mov) {
        Mnemonic::Mov
    } else if chars_eq(v, &c_movs) {
        Mnemonic::Movs
    } else if chars_eq(v, &c_lsl) {
        Mnemonic::Lsl
    } else if chars_eq(v, &c_lsls) {
        Mnemonic::Lsls
    } else if chars_eq(v, &c_lsr) {
        Mnemonic::Lsr
    } else if chars_eq(v, &c_lsrs) {
        Mnemonic::Lsrs
    } else if chars_eq(v, &c_ldr) {
        Mnemonic::Ldr
    } else if chars_eq(v, &c_ldrh) {
        Mnemonic::Ldrh
    } else if chars_eq(v, &c_ldrb) {
        Mnemonic::Ldrb
    } else if chars_eq(v, &c_strh) {
        Mnemonic::Strh
    } else if chars_eq(v, &c_strb) {
        Mnemonic::Strb
    } else if chars_eq(v, &c_b) {
        Mnemonic::B
    } else if chars_eq(v, &c_bx) {
        Mnemonic::Bx
    } else if chars_eq(v, &c_ldm) {
        Mnemonic::Ldm
    } else if chars_eq(v, &c_pop) {
        Mnemonic::Pop
    } else {
        Mnemonic::Other
    }
}

} // verus!
