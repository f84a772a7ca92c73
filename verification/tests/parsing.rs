use dsarm::functions::Function;
use dsarm::symbol::{SymbolMap, SymbolRole};

const BASE: u32 = 0x02000000;

#[test]
fn thumb_guess_needs_arm_condition_nibble() {
    // `bx lr` as ARM ends in 0xe1: ARM. Anything else: Thumb.
    assert!(!Function::is_thumb_function(&[0x1e, 0xff, 0x2f, 0xe1]));
    assert!(Function::is_thumb_function(&[0x70, 0x47, 0x00, 0x00]));
    assert!(Function::is_thumb_function(&[0x70, 0x47]));
}

#[test]
fn return_inside_conditional_block_does_not_end_function() {
    // b .+6 ; bx lr ; mov r8, r8 ; pop {pc}
    // The forward branch jumps past the `bx lr`, so the function must end
    // at the `pop`, not at the `bx`.
    let code: [u8; 8] = [0x01, 0xe0, 0x70, 0x47, 0xc0, 0x46, 0x00, 0xbd];
    let f = Function::parse_function(String::from("f"), BASE, true, &code).unwrap();
    assert_eq!(f.code_end_address(), BASE + 8);
    assert_eq!(f.end_address(), BASE + 8);
    assert_eq!(f.size(), 8);
    assert!(f.labels().iter().any(|l| l.0 == BASE + 6));
}

#[test]
fn pool_constants_extend_past_final_return() {
    // ldr r1, [pc, #12] ; bx lr ; then padding up to the pool word.
    // The code ends after `bx lr`; the pool word at BASE+16 extends the
    // function to BASE+20.
    let mut code: Vec<u8> = vec![0x03, 0x49, 0x70, 0x47];
    while code.len() < 20 {
        code.push(0x00);
    }
    let f = Function::parse_function(String::from("f"), BASE, true, &code).unwrap();
    assert_eq!(f.code_end_address(), BASE + 4);
    assert_eq!(f.end_address(), BASE + 20);
    assert_eq!(f.size(), 20);
    assert!(f.labels().iter().any(|l| l.0 == BASE + 16));
}

#[test]
fn function_invariants_hold() {
    let code: [u8; 8] = [0x01, 0xe0, 0x70, 0x47, 0xc0, 0x46, 0x00, 0xbd];
    let f = Function::parse_function(String::from("f"), BASE, true, &code).unwrap();
    assert!(f.start_address() <= f.code_end_address());
    assert!(f.code_end_address() <= f.end_address());
    assert_eq!(f.end_address() % 4, 0);
    assert_eq!(f.size() as usize, f.code().len());
    for l in f.labels().iter() {
        assert!(f.start_address() <= l.0 && l.0 < f.end_address());
    }
}

#[test]
fn parse_fails_without_a_return() {
    // Two nops and nothing else: the stream ends before any return.
    let code: [u8; 4] = [0xc0, 0x46, 0xc0, 0x46];
    assert!(Function::parse_function(String::from("f"), BASE, true, &code).is_none());
}

#[test]
fn discovery_walks_functions_and_registers_names() {
    // Two Thumb functions: [bx lr; mov r8,r8] twice (each padded to a
    // word boundary by the next function's start).
    let code: [u8; 8] = [0x70, 0x47, 0xc0, 0x46, 0x70, 0x47, 0xc0, 0x46];
    let mut map = SymbolMap::new();
    let fns = Function::find_functions(&code, BASE, "func_", &mut map, None, None, None);
    assert_eq!(fns.len(), 2);
    assert_eq!(fns[0].start_address(), BASE);
    assert_eq!(fns[0].end_address(), BASE + 4);
    assert_eq!(fns[1].start_address(), BASE + 4);
    assert_eq!(fns[0].name(), "func_02000000");
    assert_eq!(fns[1].name(), "func_02000004");
    let sym = map.by_address(BASE + 4).unwrap();
    assert_eq!(sym.name, "func_02000004");
    assert!(matches!(sym.kind, SymbolRole::Function));
}

#[test]
fn discovery_respects_count_and_existing_names() {
    let code: [u8; 8] = [0x70, 0x47, 0xc0, 0x46, 0x70, 0x47, 0xc0, 0x46];
    let mut map = SymbolMap::new();
    map.add_function_symbol(String::from("entry"), BASE);
    let fns = Function::find_functions(&code, BASE, "func_", &mut map, None, None, Some(1));
    assert_eq!(fns.len(), 1);
    assert_eq!(fns[0].name(), "entry");
}

#[test]
fn discovery_of_arm_function() {
    // ARM `bx lr` = 0xe12fff1e, little endian.
    let code: [u8; 4] = [0x1e, 0xff, 0x2f, 0xe1];
    let mut map = SymbolMap::new();
    let fns = Function::find_functions(&code, BASE, "func_", &mut map, None, None, None);
    assert_eq!(fns.len(), 1);
    assert!(!fns[0].is_thumb());
    assert_eq!(fns[0].end_address(), BASE + 4);
}
