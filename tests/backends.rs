use bytevm::interpreter::{Interpreter, SimpleInterpreter};
use bytevm::native::{NativeOp, Terminator};
use bytevm::jit::{compile, translate, TranslationError};
use bytevm::opcode::{decode, encode, DecodeError, OpCode};
use bytevm::program::{FormatError, Program};
use bytevm::vm::{RunningMode, VM};

const HALT: u8 = 0;
const CLRA: u8 = 1;
const INC3A: u8 = 2;
const DECA: u8 = 3;
const SETL: u8 = 4;
const BACK7: u8 = 5;
const SPILL: u8 = 6;

fn file(acc: i32, lc: i32, code: &[u8]) -> Vec<u8> {
    let mut bytes = Vec::new();
    bytes.extend_from_slice(&acc.to_le_bytes());
    bytes.extend_from_slice(&lc.to_le_bytes());
    bytes.extend_from_slice(code);
    bytes
}

fn simple(acc: i32, lc: i32, code: &[u8]) -> (i32, i32) {
    let mut vm = VM::new(RunningMode::Simple, Program::new(code.to_vec(), acc, lc));
    vm.run_simple();
    assert!(vm.is_halt());
    (vm.registers().acc_value(), vm.registers().lc_value())
}

fn native(acc: i32, lc: i32, code: &[u8]) -> (i32, i32) {
    let plan = compile(&Program::new(code.to_vec(), acc, lc)).expect("translation");
    plan.execute(acc, lc, 1_000_000).expect("the plan returns")
}

#[test]
fn decode_rejects_spill_and_above() {
    for b in 6..=255u8 {
        assert_eq!(decode(b), Err(DecodeError { byte: b }));
    }
}

#[test]
fn encode_inverts_decode() {
    for b in 0..6u8 {
        assert_eq!(encode(decode(b).unwrap()), b);
    }
    assert_eq!(decode(2), Ok(OpCode::INC3A));
    assert_eq!(encode(OpCode::SPILL), 6);
    assert_eq!(OpCode::BACK7.mnemonic(), "BACK7");
}

#[test]
fn load_reads_header_little_endian() {
    let p = Program::load(&file(-1_000_000, 0x0102_0304, &[CLRA, HALT])).unwrap();
    assert_eq!(p.initial_acc, -1_000_000);
    assert_eq!(p.initial_lc, 0x0102_0304);
    assert_eq!(p.data, vec![CLRA, HALT]);
    let q = Program::load(&[0x04, 0x03, 0x02, 0x01, 0xff, 0xff, 0xff, 0xff]).unwrap();
    assert_eq!(q.initial_acc, 0x0102_0304);
    assert_eq!(q.initial_lc, -1);
    assert!(q.data.is_empty());
}

#[test]
fn load_too_short_is_format_error() {
    assert_eq!(Program::load(&[]).unwrap_err(), FormatError::TooShort);
    assert_eq!(Program::load(&[0, 0, 0, 0, 0, 0, 0]).unwrap_err(), FormatError::TooShort);
}

#[test]
fn load_rejects_spill_byte() {
    let err = Program::load(&file(0, 0, &[CLRA, SPILL, HALT])).unwrap_err();
    assert_eq!(err, FormatError::InvalidOpcode { position: 1, byte: 6 });
    let err = Program::load(&file(0, 0, &[0x40])).unwrap_err();
    assert_eq!(err, FormatError::InvalidOpcode { position: 0, byte: 0x40 });
}

#[test]
fn halt_only_program_agrees() {
    let code = [HALT];
    assert_eq!(simple(0, 0, &code), (0, 0));
    assert_eq!(native(0, 0, &code), (0, 0));
}

#[test]
fn halt_only_passes_registers_through() {
    let code = [HALT];
    assert_eq!(simple(-17, 42, &code), (-17, 42));
    assert_eq!(native(-17, 42, &code), (-17, 42));
    let mut vm = VM::new(RunningMode::Simple, Program::new(code.to_vec(), -17, 42));
    vm.run_simple();
    assert_eq!(vm.registers().ip_value(), 0);
}

#[test]
fn loop_program_agrees() {
    let code = [CLRA, INC3A, INC3A, INC3A, INC3A, INC3A, INC3A, BACK7, HALT];
    let s = simple(0, 3, &code);
    let n = native(0, 3, &code);
    assert_eq!(s, n);
    assert_eq!(s.1, 0);
}

#[test]
fn loop_program_value() {
    // The body after CLRA runs three times: 3 * 18.
    let code = [CLRA, INC3A, INC3A, INC3A, INC3A, INC3A, INC3A, BACK7, HALT];
    assert_eq!(simple(0, 3, &code), (54, 0));
}

#[test]
fn two_loops_and_setl_agree() {
    let code = [
        INC3A, INC3A, SETL, CLRA, INC3A, INC3A, INC3A, DECA, INC3A, BACK7, INC3A, DECA, INC3A, INC3A, DECA,
        INC3A, BACK7, HALT,
    ];
    for (acc, lc) in [(0, 0), (1, 2), (-5, 9), (i32::MAX, 1), (i32::MIN, -3)] {
        assert_eq!(simple(acc, lc, &code), native(acc, lc, &code));
    }
}

#[test]
fn overflow_wraps_in_both_backends() {
    let code = [INC3A, HALT];
    assert_eq!(simple(2147483647, 0, &code).0, -2147483646);
    assert_eq!(native(2147483647, 0, &code).0, -2147483646);
    let code = [DECA, HALT];
    assert_eq!(simple(i32::MIN, 0, &code).0, i32::MAX);
    assert_eq!(native(i32::MIN, 0, &code).0, i32::MAX);
}

#[test]
fn basic_blocks_of_loop() {
    let code = vec![CLRA, INC3A, INC3A, INC3A, INC3A, INC3A, INC3A, BACK7, HALT];
    let blocks = Program::new(code.clone(), 0, 0).build_basic_blocks();
    assert_eq!(
        blocks,
        vec![vec![CLRA, SPILL], vec![INC3A, INC3A, INC3A, INC3A, INC3A, INC3A, BACK7], vec![HALT]]
    );
    let flat: Vec<u8> = blocks.concat().into_iter().filter(|b| *b != SPILL).collect();
    assert_eq!(flat, code);
}

#[test]
fn basic_blocks_trailing_block_always_emitted() {
    let blocks = Program::new(vec![], 0, 0).build_basic_blocks();
    assert_eq!(blocks, vec![Vec::<u8>::new()]);
    let blocks = Program::new(vec![HALT], 0, 0).build_basic_blocks();
    assert_eq!(blocks, vec![vec![HALT]]);
}

#[test]
fn basic_blocks_loop_at_start() {
    let code = vec![INC3A, INC3A, INC3A, INC3A, INC3A, INC3A, BACK7, HALT];
    let blocks = Program::new(code, 0, 0).build_basic_blocks();
    assert_eq!(blocks, vec![vec![SPILL], vec![INC3A, INC3A, INC3A, INC3A, INC3A, INC3A, BACK7], vec![HALT]]);
    assert_eq!(simple(0, 2, &[INC3A, INC3A, INC3A, INC3A, INC3A, INC3A, BACK7, HALT]), (36, 0));
    assert_eq!(native(0, 2, &[INC3A, INC3A, INC3A, INC3A, INC3A, INC3A, BACK7, HALT]), (36, 0));
}

#[test]
fn back7_too_early_is_a_translation_error() {
    let p = Program::new(vec![BACK7, HALT], 0, 0);
    assert!(!p.is_well_formed());
    assert_eq!(compile(&p).unwrap_err(), TranslationError::UnmatchedBack7 { block: 0 });
}

#[test]
fn well_formedness() {
    assert!(Program::new(vec![HALT], 0, 0).is_well_formed());
    assert!(!Program::new(vec![], 0, 0).is_well_formed());
    assert!(!Program::new(vec![CLRA], 0, 0).is_well_formed());
    assert!(!Program::new(vec![HALT, HALT], 0, 0).is_well_formed());
    assert!(!Program::new(vec![SPILL, HALT], 0, 0).is_well_formed());
    assert!(Program::new(vec![CLRA, INC3A, INC3A, INC3A, INC3A, INC3A, INC3A, BACK7, HALT], 0, 0).is_well_formed());
}

#[test]
fn vm_new_and_interpreter_trait() {
    let mut vm = VM::new(RunningMode::OptJitted, Program::new(vec![INC3A, SETL, HALT], 4, 9));
    assert_eq!(vm.mode(), RunningMode::OptJitted);
    assert!(!vm.is_halt());
    assert_eq!(vm.registers().acc_value(), 4);
    assert_eq!(vm.registers().lc_value(), 9);
    SimpleInterpreter.run(&mut vm);
    assert_eq!(vm.registers().acc_value(), 7);
    assert_eq!(vm.registers().lc_value(), 7);
    assert_eq!(vm.registers().ip_value(), 2);
}

#[test]
fn write_back_halts_the_machine() {
    let mut vm = VM::new(RunningMode::NoOptJitted, Program::new(vec![HALT], 1, 2));
    let plan = vm.native_plan().unwrap();
    let (acc, lc) = plan.execute(1, 2, 10).unwrap();
    vm.write_back(acc, lc);
    vm.set_running_time(5);
    assert!(vm.is_halt());
    assert_eq!(vm.registers().acc_value(), 1);
    assert_eq!(vm.running_time_ns, 5);
}

#[test]
fn misplaced_boundary_is_a_translation_error() {
    let code = vec![INC3A, INC3A, INC3A, INC3A, INC3A, INC3A, INC3A, BACK7, HALT];
    let blocks = vec![vec![SPILL], vec![INC3A, INC3A, INC3A, INC3A, INC3A, INC3A, INC3A, BACK7], vec![HALT]];
    assert_eq!(translate(&code, &blocks).unwrap_err(), TranslationError::MisplacedBoundary { block: 1 });
}

#[test]
fn block_mismatch_is_a_translation_error() {
    let code = vec![CLRA, HALT];
    let blocks = vec![vec![INC3A, HALT]];
    assert_eq!(translate(&code, &blocks).unwrap_err(), TranslationError::BlockMismatch { block: 0 });
}

#[test]
fn missing_terminator_is_a_translation_error() {
    let code = vec![CLRA, HALT];
    assert_eq!(translate(&code, &vec![vec![CLRA]]).unwrap_err(), TranslationError::BadTerminator { block: 0 });
    assert_eq!(translate(&code, &vec![]).unwrap_err(), TranslationError::BadTerminator { block: 0 });
    assert_eq!(
        translate(&code, &vec![vec![CLRA, SPILL]]).unwrap_err(),
        TranslationError::BadTerminator { block: 0 }
    );
}

#[test]
fn plan_shape_for_loop() {
    let code = vec![CLRA, INC3A, INC3A, INC3A, INC3A, INC3A, INC3A, BACK7, HALT];
    let plan = compile(&Program::new(code, 0, 0)).unwrap();
    assert_eq!(plan.blocks.len(), 3);
    assert_eq!(plan.blocks[0].origin, 0);
    assert_eq!(plan.blocks[0].terminator, Terminator::Jump { target: 1 });
    assert_eq!(plan.blocks[1].origin, 1);
    assert_eq!(plan.blocks[1].ops.len(), 7);
    assert_eq!(plan.blocks[1].ops[6], NativeOp::DecLc);
    assert_eq!(plan.blocks[1].terminator, Terminator::BranchIfPositive { taken: 1, not_taken: 2 });
    assert_eq!(plan.blocks[2].origin, 8);
    assert_eq!(plan.blocks[2].terminator, Terminator::Return);
}

#[test]
fn plan_without_return_gives_none() {
    let code = [CLRA, INC3A, INC3A, INC3A, INC3A, INC3A, INC3A, BACK7, HALT];
    let plan = compile(&Program::new(code.to_vec(), 0, 1000)).unwrap();
    assert_eq!(plan.execute(0, 1000, 5), None);
    assert!(plan.execute(0, 1000, 10_000).is_some());
}
