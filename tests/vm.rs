use tasjr::q3::{
    GAME_INIT, G_TRACE, OP_ADD, OP_ADDF, OP_ARG, OP_BAND, OP_BCOM, OP_BLOCK_COPY, OP_BOR, OP_BXOR,
    OP_CALL, OP_CONST, OP_DIVI, OP_DIVU, OP_ENTER, OP_EQ, OP_GEF, OP_GEI, OP_GTU, OP_LEAVE, OP_LOAD4,
    OP_LOCAL, OP_LSH, OP_LTI, OP_LTU, OP_MODI, OP_MODU, OP_MULI, OP_MULU, OP_NE, OP_NEGI, OP_PUSH,
    OP_RSHI, OP_RSHU, OP_SEX16, OP_SEX8, OP_STORE4, OP_SUB,
};
use tasjr::vm::{ExitReason, Instruction, LoadError, Vm, RETURN_SENTINEL};

/// A bytecode file: header, code at offset 32, then data and literals.
fn qvm(count: u32, code: &[u8], data: &[u8], bss: u32) -> Vec<u8> {
    let code_offset = 32u32;
    let data_offset = code_offset + code.len() as u32;
    let header = [
        0x1272_1444,
        count,
        code_offset,
        code.len() as u32,
        data_offset,
        data.len() as u32,
        0,
        bss,
    ];
    let mut f = Vec::new();
    for w in header {
        f.extend_from_slice(&w.to_le_bytes());
    }
    f.extend_from_slice(code);
    f.extend_from_slice(data);
    f
}

fn op(o: u8) -> Vec<u8> {
    vec![o]
}

fn op4(o: u8, arg: u32) -> Vec<u8> {
    let mut v = vec![o];
    v.extend_from_slice(&arg.to_le_bytes());
    v
}

fn program(parts: &[Vec<u8>]) -> (u32, Vec<u8>) {
    (parts.len() as u32, parts.concat())
}

fn loaded(parts: &[Vec<u8>], data: &[u8], bss: u32) -> Vm {
    let (n, code) = program(parts);
    let mut vm = Vm::default();
    vm.load(&qvm(n, &code, data, bss)).unwrap();
    vm
}

#[test]
fn load_decodes_immediates_by_opcode() {
    let code = [
        op4(OP_ENTER, 16),
        op(OP_PUSH),
        vec![OP_ARG, 0x08],
        op4(OP_CONST, 0xDEAD_BEEF),
        op4(OP_EQ, 7),
        op4(OP_GEF, 9),
        op4(OP_BLOCK_COPY, 12),
        op(OP_ADD),
        op4(OP_LEAVE, 16),
    ];
    let vm = loaded(&code, &[1, 2, 3, 4], 8);
    assert_eq!(vm.code.len(), 9);
    let expect = [
        (OP_ENTER, 16),
        (OP_PUSH, 0),
        (OP_ARG, 8),
        (OP_CONST, 0xDEAD_BEEF),
        (OP_EQ, 7),
        (OP_GEF, 9),
        (OP_BLOCK_COPY, 12),
        (OP_ADD, 0),
        (OP_LEAVE, 16),
    ];
    for (ins, (o, a)) in vm.code.iter().zip(expect) {
        assert_eq!(*ins, Instruction { opcode: o, arg: a });
    }
    assert_eq!(vm.program_stack, 12);
    assert_eq!(vm.memory.size(), 64);
    assert_eq!(vm.memory.slice(0, 6), &[1, 2, 3, 4, 0, 0]);
    assert_eq!(vm.pc, 0);
    assert!(vm.op_stack.is_empty());
}

#[test]
fn load_rejects_bad_files() {
    let mut vm = Vm::default();
    assert_eq!(vm.load(&[0; 10]), Err(LoadError::Truncated));
    assert_eq!(vm.load(&qvm(2, &op(OP_PUSH), &[], 0)), Err(LoadError::Truncated));
    assert_eq!(vm.load(&qvm(1, &[OP_CONST, 1, 2], &[], 0)), Err(LoadError::Truncated));
    assert_eq!(vm.load(&qvm(1, &[200], &[], 0)), Err(LoadError::BadOpcode(200)));
    assert_eq!(vm.load(&qvm(1, &op(OP_PUSH), &[], 0xFFFF_FFF0)), Err(LoadError::TooLarge));
    let mut f = qvm(1, &op(OP_PUSH), &[1, 2, 3], 0);
    f.truncate(f.len() - 1);
    assert_eq!(vm.load(&f), Err(LoadError::Truncated));
}

#[test]
fn calling_convention_round_trip() {
    // vmMain(command, arg0, arg1, ...) returning arg1.
    let code = [op4(OP_ENTER, 8), op4(OP_LOCAL, 24), op(OP_LOAD4), op4(OP_LEAVE, 8)];
    let mut vm = loaded(&code, &[], 256);
    let before = vm.program_stack;
    vm.prepare_call(&[GAME_INIT, 0, 42, 0, 0, 0, 0, 0, 0, 0]);
    assert_eq!(vm.read_arg(2), 42);
    assert_eq!(vm.memory.read(vm.program_stack), RETURN_SENTINEL);
    assert_eq!(vm.run(1000), Some(ExitReason::Return));
    assert_eq!(vm.op_stack.last(), Some(&42));
    assert_eq!(vm.program_stack, before);
}

#[test]
fn syscall_exits_with_its_id() {
    let code = [op4(OP_CONST, 7), op4(OP_CONST, (-(G_TRACE as i32) - 1) as u32), op(OP_CALL)];
    let mut vm = loaded(&code, &[], 64);
    assert_eq!(vm.run(10), Some(ExitReason::Syscall(G_TRACE)));
    assert_eq!(vm.op_stack, vec![7]);
    vm.set_result(5);
    assert_eq!(vm.op_stack, vec![7, 5]);
}

#[test]
fn unaligned_load4_reads_little_endian() {
    let data: Vec<u8> = (0..16).map(|i| i * 16 + 1).collect();
    let code = [op4(OP_CONST, 5), op(OP_LOAD4)];
    let mut vm = loaded(&code, &data, 0);
    assert_eq!(vm.step(), None);
    assert_eq!(vm.step(), None);
    let expect = u32::from_le_bytes([data[5], data[6], data[7], data[8]]);
    assert_eq!(vm.op_stack, vec![expect]);
}

fn binary(o: u8, a: u32, b: u32) -> u32 {
    let code = [op4(OP_CONST, a), op4(OP_CONST, b), op(o)];
    let mut vm = loaded(&code, &[], 0);
    assert_eq!(vm.run(3), None);
    assert_eq!(vm.op_stack.len(), 1);
    vm.op_stack[0]
}

fn unary(o: u8, a: u32) -> u32 {
    let code = [op4(OP_CONST, a), op(o)];
    let mut vm = loaded(&code, &[], 0);
    assert_eq!(vm.run(2), None);
    vm.op_stack[0]
}

const SAMPLES: [u32; 10] = [
    0,
    1,
    2,
    7,
    31,
    33,
    0x7FFF_FFFF,
    0x8000_0000,
    0xFFFF_FFFF,
    0xDEAD_BEEF,
];

#[test]
fn integer_opcodes_match_wrapping_reference() {
    for &a in &SAMPLES {
        for &b in &SAMPLES {
            let (ia, ib) = (a as i32, b as i32);
            assert_eq!(binary(OP_ADD, a, b), a.wrapping_add(b));
            assert_eq!(binary(OP_SUB, a, b), a.wrapping_sub(b));
            assert_eq!(binary(OP_MULI, a, b), ia.wrapping_mul(ib) as u32);
            assert_eq!(binary(OP_MULU, a, b), a.wrapping_mul(b));
            assert_eq!(binary(OP_BAND, a, b), a & b);
            assert_eq!(binary(OP_BOR, a, b), a | b);
            assert_eq!(binary(OP_BXOR, a, b), a ^ b);
            assert_eq!(binary(OP_LSH, a, b), a.wrapping_shl(b));
            assert_eq!(binary(OP_RSHI, a, b), ia.wrapping_shr(b) as u32);
            assert_eq!(binary(OP_RSHU, a, b), a.wrapping_shr(b));
            if b != 0 {
                assert_eq!(binary(OP_DIVI, a, b), ia.wrapping_div(ib) as u32);
                assert_eq!(binary(OP_DIVU, a, b), a.wrapping_div(b));
                assert_eq!(binary(OP_MODI, a, b), ia.wrapping_rem(ib) as u32);
                assert_eq!(binary(OP_MODU, a, b), a.wrapping_rem(b));
            }
        }
        assert_eq!(unary(OP_NEGI, a), (a as i32).wrapping_neg() as u32);
        assert_eq!(unary(OP_BCOM, a), !a);
        assert_eq!(unary(OP_SEX8, a), a as i8 as i32 as u32);
        assert_eq!(unary(OP_SEX16, a), a as i16 as i32 as u32);
    }
}

#[test]
fn division_by_zero_faults() {
    let code = [op4(OP_CONST, 1), op4(OP_CONST, 0), op(OP_DIVI)];
    let mut vm = loaded(&code, &[], 0);
    assert_eq!(vm.run(3), Some(ExitReason::Fault));
}

#[test]
fn integer_branches() {
    let cases = [
        (OP_LTI, 0xFFFF_FFFF, 1, true),
        (OP_LTU, 0xFFFF_FFFF, 1, false),
        (OP_GEI, 5, 5, true),
        (OP_NE, 5, 5, false),
        (OP_GTU, 0x8000_0000, 1, true),
    ];
    for (o, a, b, taken) in cases {
        let mut code = vec![op4(OP_CONST, a), op4(OP_CONST, b)];
        code.push(op4(o, 99));
        let mut vm = loaded(&code, &[], 0);
        assert_eq!(vm.run(3), None);
        assert_eq!(vm.pc, if taken { 99 } else { 3 });
    }
}

#[test]
fn float_opcodes_go_to_the_host() {
    let code = [op4(OP_CONST, 1), op4(OP_CONST, 2), op(OP_ADDF)];
    let mut vm = loaded(&code, &[], 0);
    assert_eq!(
        vm.run(10),
        Some(ExitReason::Float { opcode: OP_ADDF, arg: 0, a: 1, b: 2 })
    );
    assert!(vm.op_stack.is_empty());
}

#[test]
fn store_and_block_copy_mark_dirty_memory() {
    let code = [
        op4(OP_CONST, 8),
        op4(OP_CONST, 0x0102_0304),
        op(OP_STORE4),
        op4(OP_CONST, 100),
        op4(OP_CONST, 8),
        op4(OP_BLOCK_COPY, 4),
    ];
    let mut vm = loaded(&code, &[], 128);
    vm.memory.clear_dirty();
    assert_eq!(vm.run(6), None);
    assert_eq!(vm.memory.read(8), 0x0102_0304);
    assert_eq!(vm.memory.read(100), 0x0102_0304);
}
