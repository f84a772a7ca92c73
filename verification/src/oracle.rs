//! The instruction decoder, behind trusted declarations. Each wrapper makes
//! one call into the decoder and converts its result to plain values; the
//! analysis itself is verified over those values.

use vstd::prelude::*;
use crate::ins::{Arg, InsModel, InsSort, mnemonic_from_chars};

verus! {

#[verifier::external_type_specification]
#[verifier::external_body]
pub struct ExIns(unarm::Ins);

#[verifier::external_type_specification]
#[verifier::external_body]
pub struct ExParsedIns(unarm::ParsedIns);

/// Relies on `unarm::Parser::new` and its `Iterator::next`: a fresh parser
/// over `code[offset..]` yields one decoded instruction, consuming two or
/// four bytes (four for a combined Thumb BL pair), or nothing when fewer
/// than four bytes remain and no instruction fits.
#[verifier::external_body]
fn decode_raw(code: &[u8], offset: usize, address: u32, thumb: bool) -> (r: Option<
    (unarm::Ins, unarm::ParsedIns, usize),
>)
    requires
        offset <= code@.len(),
        address as int + 4 <= u32::MAX as int,
    ensures
        match r {
            Some(t) => 2 <= t.2 <= 4 && offset + t.2 <= code@.len(),
            None => code@.len() - offset < 4,
        },
{
    let mode = if thumb {
        unarm::ParseMode::Thumb
    } else {
        unarm::ParseMode::Arm
    };
    let flags = unarm::ParseFlags { version: unarm::ArmVersion::V5Te, ual: false };
    let mut parser = unarm::Parser::new(mode, address, unarm::Endian::Little, flags, &code[
        offset..
    ]);
    let (_, ins, parsed) = parser.next()?;
    Some((ins, parsed, (parser.address - address) as usize))
}

/// Relies on `unarm::Ins` being one of its three variants.
#[verifier::external_body]
fn ins_sort(i: &unarm::Ins) -> InsSort {
    match i {
        unarm::Ins::Arm(_) => InsSort::Arm,
        unarm::Ins::Thumb(_) => InsSort::Thumb,
        unarm::Ins::Data => InsSort::Data,
    }
}

/// Relies on `unarm::Ins::is_illegal`.
#[verifier::external_body]
fn ins_is_illegal(i: &unarm::Ins) -> bool {
    i.is_illegal()
}

/// Relies on `unarm::Ins::is_conditional`.
#[verifier::external_body]
fn ins_is_conditional(i: &unarm::Ins) -> bool {
    i.is_conditional()
}

/// Relies on `unarm::Ins::loads_multiple`.
#[verifier::external_body]
fn ins_loads_multiple(i: &unarm::Ins) -> bool {
    i.loads_multiple()
}

/// Relies on `unarm::Ins::code`.
#[verifier::external_body]
fn ins_code(i: &unarm::Ins) -> u32 {
    i.code()
}

/// Relies on `unarm::Ins::mnemonic`: the opcode's mnemonic characters.
#[verifier::external_body]
fn ins_mnemonic_chars(i: &unarm::Ins) -> Vec<char> {
    i.mnemonic().chars().collect()
}

/// Relies on `unarm::Ins::register_list` and `RegList::contains`: whether
/// the plain register list holds the program counter.
#[verifier::external_body]
fn ins_register_list_has_pc(i: &unarm::Ins) -> bool {
    i.register_list().contains(unarm::args::Register::Pc)
}

/// Relies on `unarm::Ins::register_list_pc` and `RegList::contains`:
/// whether the PC-extended register list holds the program counter.
#[verifier::external_body]
fn ins_register_list_pc_has_pc(i: &unarm::Ins) -> bool {
    i.register_list_pc().contains(unarm::args::Register::Pc)
}

/// Relies on `unarm::thumb::Ins::op`: whether the opcode is one half of a
/// Thumb BL/BLX pair.
#[verifier::external_body]
fn ins_is_thumb_bl_half(i: &unarm::Ins) -> bool {
    match i {
        unarm::Ins::Thumb(t) => matches!(
            t.op,
            unarm::thumb::Opcode::Bl | unarm::thumb::Opcode::BlH,
        ),
        _ => false,
    }
}

/// Relies on `unarm::ParsedIns::is_illegal`.
#[verifier::external_body]
fn parsed_is_illegal(p: &unarm::ParsedIns) -> bool {
    p.is_illegal()
}

/// Relies on `unarm::ParsedIns::mnemonic`: the disassembly's mnemonic
/// characters.
#[verifier::external_body]
fn parsed_mnemonic_chars(p: &unarm::ParsedIns) -> Vec<char> {
    p.mnemonic.chars().collect()
}

/// Relies on `unarm::ParsedIns::branch_destination`.
#[verifier::external_body]
fn parsed_branch_destination(p: &unarm::ParsedIns) -> Option<i32> {
    p.branch_destination()
}

/// Relies on `unarm::ParsedIns::args` and the `unarm::args::Argument`
/// variants: one operand, moved to plain values; `Register` values carry
/// their numbers.
#[verifier::external_body]
fn parsed_arg(p: &unarm::ParsedIns, i: usize) -> Arg
    requires
        i < 4,
{
    match p.args[i] {
        unarm::args::Argument::None => Arg::Absent,
        unarm::args::Argument::Reg(r) => Arg::Reg { reg: r.reg as u8, deref: r.deref },
        unarm::args::Argument::UImm(v) => Arg::UImm(v),
        unarm::args::Argument::OffsetImm(o) => Arg::OffsetImm {
            value: o.value,
            post_indexed: o.post_indexed,
        },
        _ => Arg::Other,
    }
}

/// What the decoder yields for the bytes at `code[offset..]` standing at
/// `address` in the given mode: the instruction as plain values and the
/// byte count it occupies, or nothing when no instruction fits.
pub uninterp spec fn decode_of(code: Seq<u8>, offset: int, address: u32, thumb: bool) -> Option<
    (InsModel, int),
>;

/// Decode the instruction at `code[offset..]`, which sits at `address`,
/// into plain values, together with the byte count it occupies.
///
/// Relies on the decoder depending on its arguments alone: `Parser::next`
/// reads nothing but the bytes at hand, the address and the mode, and the
/// generated decoding tables are pure, so the same arguments always yield
/// the same instruction. The body only moves that result into plain
/// values through the per-call wrappers above and the verified mnemonic
/// table.
#[verifier::external_body]
pub fn read_instruction(code: &[u8], offset: usize, address: u32, thumb: bool) -> (r: Option<
    (InsModel, usize),
>)
    requires
        offset <= code@.len(),
        address as int + 4 <= u32::MAX as int,
    ensures
        match r {
            Some(t) => decode_of(code@, offset as int, address, thumb) == Some(
                (t.0, t.1 as int),
            ) && 2 <= t.1 <= 4 && offset + t.1 <= code@.len(),
            None => decode_of(code@, offset as int, address, thumb) is None && code@.len()
                - offset < 4,
        },
{
    let (ins, parsed, size) = decode_raw(code, offset, address, thumb)?;
    let m = InsModel {
        sort: ins_sort(&ins), op_illegal: ins_is_illegal(&ins),
        bl_half: ins_is_thumb_bl_half(&ins), conditional: ins_is_conditional(&ins),
        mnemonic: mnemonic_from_chars(&ins_mnemonic_chars(&ins)),
        parsed_mnemonic: mnemonic_from_chars(&parsed_mnemonic_chars(&parsed)),
        parsed_illegal: parsed_is_illegal(&parsed), loads_multiple: ins_loads_multiple(&ins),
        ldm_has_pc: ins_register_list_has_pc(&ins), pop_has_pc: ins_register_list_pc_has_pc(&ins),
        branch_dest: parsed_branch_destination(&parsed), code: ins_code(&ins),
        arg0: parsed_arg(&parsed, 0), arg1: parsed_arg(&parsed, 1),
        arg2: parsed_arg(&parsed, 2), arg3: parsed_arg(&parsed, 3),
    };
    Some((m, size))
}

} // verus!
