//! Whether an instruction could plausibly begin a function, for function
//! discovery: illegal decodes, conditional starts, and Thumb patterns that
//! betray a data table mis-decoded as code are rejected.

use vstd::prelude::*;
use crate::ins::{Arg, InsModel, InsSort, Mnemonic, REG_PC, REG_SP};

verus! {

/// An ARM instruction can begin a function unless it is illegal or
/// executes only under a condition.
pub open spec fn valid_start_arm(m: InsModel) -> bool {
    !(m.op_illegal || m.parsed_illegal || m.conditional)
}

/// A useless register move: `mov Rd, Rs` or `movs Rd, Rs` with `Rs == Rd`.
pub open spec fn useless_mov(m: InsModel) -> bool {
    &&& (m.parsed_mnemonic == Mnemonic::Mov || m.parsed_mnemonic == Mnemonic::Movs)
    &&& m.arg0 is Reg
    &&& m.arg1 is Reg
    &&& m.arg0->reg == m.arg1->reg
    &&& m.arg2 is Absent
    &&& m.arg3 is Absent
}

/// A useless shift: `lsl Rd, Rs, #0` or `lsls Rd, Rs, #0` with `Rs == Rd`.
pub open spec fn useless_shift(m: InsModel) -> bool {
    &&& (m.parsed_mnemonic == Mnemonic::Lsl || m.parsed_mnemonic == Mnemonic::Lsls)
    &&& m.arg0 is Reg
    &&& m.arg1 is Reg
    &&& m.arg0->reg == m.arg1->reg
    &&& m.arg2 == Arg::UImm(0)
    &&& m.arg3 is Absent
}

/// A shift of `R0` by a multiple of four: a table of small byte values
/// mis-decoded as Thumb code.
pub open spec fn byte_table_shift(m: InsModel) -> bool {
    &&& (m.parsed_mnemonic == Mnemonic::Lsl || m.parsed_mnemonic == Mnemonic::Lsls
        || m.parsed_mnemonic == Mnemonic::Lsr || m.parsed_mnemonic == Mnemonic::Lsrs)
    &&& m.arg0 is Reg
    &&& m.arg1 is Reg
    &&& m.arg1->reg == 0
    &&& m.arg2 is UImm
    &&& m.arg2->0 % 4 == 0
    &&& m.arg3 is Absent
}

/// A load whose base register is not an argument register, SP or PC: no
/// plausible first instruction of a function.
pub open spec fn implausible_load_base(m: InsModel) -> bool {
    &&& (m.parsed_mnemonic == Mnemonic::Ldr || m.parsed_mnemonic == Mnemonic::Ldrh
        || m.parsed_mnemonic == Mnemonic::Ldrb)
    &&& m.arg0 is Reg
    &&& m.arg1 is Reg
    &&& m.arg1->deref
    &&& !(m.arg1->reg <= 3 || m.arg1->reg == REG_SP || m.arg1->reg == REG_PC)
}

/// A store of a register through itself: `strh Rt, [Rt, ...]` or
/// `strb Rt, [Rt, ...]`.
pub open spec fn self_store(m: InsModel) -> bool {
    &&& (m.parsed_mnemonic == Mnemonic::Strh || m.parsed_mnemonic == Mnemonic::Strb)
    &&& m.arg0 is Reg
    &&& m.arg1 is Reg
    &&& m.arg1->deref
    &&& m.arg0->reg == m.arg1->reg
}

/// A Thumb instruction can begin a function unless it is illegal, a lone
/// BL half, or one of the data-table patterns.
pub open spec fn valid_start_thumb(m: InsModel) -> bool {
    if m.op_illegal || m.bl_half || m.parsed_illegal {
        false
    } else if useless_mov(m) || useless_shift(m) || byte_table_shift(m) || implausible_load_base(
        m,
    ) || self_store(m) {
        false
    } else {
        true
    }
}

/// Whether an instruction can begin a function.
pub open spec fn valid_start(m: InsModel) -> bool {
    match m.sort {
        InsSort::Arm => valid_start_arm(m),
        InsSort::Thumb => valid_start_thumb(m),
        InsSort::Data => false,
    }
}

/// Whether an ARM instruction could plausibly begin a function.
pub fn is_valid_function_start_arm(_address: u32, ins: &InsModel) -> (r: bool)
    ensures
        r == valid_start_arm(*ins),
{
    !(ins.op_illegal || ins.parsed_illegal || ins.conditional)
}

/// Whether a Thumb instruction could plausibly begin a function.
pub fn is_valid_function_start_thumb(_address: u32, ins: &InsModel) -> (r: bool)
    ensures
        r == valid_start_thumb(*ins),
{
    if ins.op_illegal || ins.bl_half || ins.parsed_illegal {
        return false;
    }
    let mn = ins.parsed_mnemonic;
    match (ins.arg0, ins.arg1, ins.arg2, ins.arg3) {
        (Arg::Reg { reg: dst, .. }, Arg::Reg { reg: src, deref }, a2, a3) => {
            if (mn == Mnemonic::Mov || mn == Mnemonic::Movs) && src == dst && matches!(
                a2,
                Arg::Absent,
            ) && matches!(a3, Arg::Absent) {
                return false;
            }
            if (mn == Mnemonic::Lsl || mn == Mnemonic::Lsls) && src == dst && matches!(
                a2,
                Arg::UImm(0),
            ) && matches!(a3, Arg::Absent) {
                return false;
            }
            if mn == Mnemonic::Lsl || mn == Mnemonic::Lsls || mn == Mnemonic::Lsr || mn
                == Mnemonic::Lsrs {
                if src == 0 && matches!(a3, Arg::Absent) {
                    if let Arg::UImm(shift) = a2 {
                        if shift % 4 == 0 {
                            return false;
                        }
                    }
                }
            }
            if (mn == Mnemonic::Ldr || mn == Mnemonic::Ldrh || mn == Mnemonic::Ldrb) && deref && !(
                src <= 3 || src == REG_SP || src == REG_PC) {
                return false;
            }
            if (mn == Mnemonic::Strh || mn == Mnemonic::Strb) && deref && dst == src {
                return false;
            }
            true
        },
        _ => true,
    }
}

/// Whether an instruction could plausibly begin a function. Data pseudo-
/// instructions never can.
pub fn is_valid_function_start(address: u32, ins: &InsModel) -> (r: bool)
    ensures
        r == valid_start(*ins),
{
    match ins.sort {
        InsSort::Arm => is_valid_function_start_arm(address, ins),
        InsSort::Thumb => is_valid_function_start_thumb(address, ins),
        InsSort::Data => false,
    }
}

} // verus!
