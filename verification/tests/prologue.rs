use dsarm::function_start::{
    is_valid_function_start, is_valid_function_start_arm, is_valid_function_start_thumb,
};
use dsarm::ins::{Arg, InsModel, InsSort, Mnemonic};
use dsarm::oracle::read_instruction;

fn thumb_ins() -> InsModel {
    InsModel {
        sort: InsSort::Thumb,
        op_illegal: false,
        bl_half: false,
        conditional: false,
        mnemonic: Mnemonic::Other,
        parsed_mnemonic: Mnemonic::Other,
        parsed_illegal: false,
        loads_multiple: false,
        ldm_has_pc: false,
        pop_has_pc: false,
        branch_dest: None,
        code: 0,
        arg0: Arg::Absent,
        arg1: Arg::Absent,
        arg2: Arg::Absent,
        arg3: Arg::Absent,
    }
}

#[test]
fn useless_mov_rejected() {
    let mut m = thumb_ins();
    m.mnemonic = Mnemonic::Mov;
    m.parsed_mnemonic = Mnemonic::Mov;
    m.arg0 = Arg::Reg { reg: 3, deref: false };
    m.arg1 = Arg::Reg { reg: 3, deref: false };
    assert!(!is_valid_function_start_thumb(0, &m));
    m.arg1 = Arg::Reg { reg: 4, deref: false };
    assert!(is_valid_function_start_thumb(0, &m));
}

#[test]
fn useless_shift_rejected() {
    let mut m = thumb_ins();
    m.parsed_mnemonic = Mnemonic::Lsl;
    m.arg0 = Arg::Reg { reg: 1, deref: false };
    m.arg1 = Arg::Reg { reg: 1, deref: false };
    m.arg2 = Arg::UImm(0);
    assert!(!is_valid_function_start_thumb(0, &m));
}

#[test]
fn byte_table_shift_rejected() {
    let mut m = thumb_ins();
    m.parsed_mnemonic = Mnemonic::Lsl;
    m.arg0 = Arg::Reg { reg: 2, deref: false };
    m.arg1 = Arg::Reg { reg: 0, deref: false };
    m.arg2 = Arg::UImm(8);
    assert!(!is_valid_function_start_thumb(0, &m));
    m.arg2 = Arg::UImm(5);
    assert!(is_valid_function_start_thumb(0, &m));
}

#[test]
fn load_base_must_be_argument_sp_or_pc() {
    let mut m = thumb_ins();
    m.parsed_mnemonic = Mnemonic::Ldr;
    m.arg0 = Arg::Reg { reg: 0, deref: false };
    m.arg1 = Arg::Reg { reg: 5, deref: true };
    assert!(!is_valid_function_start_thumb(0, &m));
    m.arg1 = Arg::Reg { reg: 13, deref: true };
    m.arg2 = Arg::OffsetImm { value: 4, post_indexed: false };
    assert!(is_valid_function_start_thumb(0, &m));
}

#[test]
fn store_to_own_base_rejected() {
    let mut m = thumb_ins();
    m.parsed_mnemonic = Mnemonic::Strh;
    m.arg0 = Arg::Reg { reg: 2, deref: false };
    m.arg1 = Arg::Reg { reg: 2, deref: true };
    assert!(!is_valid_function_start_thumb(0, &m));
    m.arg1 = Arg::Reg { reg: 1, deref: true };
    assert!(is_valid_function_start_thumb(0, &m));
}

#[test]
fn lone_bl_half_rejected() {
    let mut m = thumb_ins();
    m.bl_half = true;
    assert!(!is_valid_function_start_thumb(0, &m));
}

#[test]
fn conditional_arm_start_rejected() {
    let mut m = thumb_ins();
    m.sort = InsSort::Arm;
    m.conditional = true;
    assert!(!is_valid_function_start_arm(0, &m));
    m.conditional = false;
    assert!(is_valid_function_start_arm(0, &m));
}

#[test]
fn data_never_starts_a_function() {
    let mut m = thumb_ins();
    m.sort = InsSort::Data;
    assert!(!is_valid_function_start(0, &m));
}

#[test]
fn decoded_useless_mov_rejected() {
    // Thumb `mov r3, r3` (high-register mov, 0x461b) is a data-table
    // artifact; `mov r3, r4` (0x4623) is a plausible start.
    let (m, size) = read_instruction(&[0x1b, 0x46], 0, 0x02000000, true).unwrap();
    assert_eq!(size, 2);
    assert_eq!(m.parsed_mnemonic, Mnemonic::Mov);
    assert!(!is_valid_function_start(0x02000000, &m));
    let (m2, _) = read_instruction(&[0x23, 0x46], 0, 0x02000000, true).unwrap();
    assert!(is_valid_function_start(0x02000000, &m2));
}
