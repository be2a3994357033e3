use sysy_compiler::codegen::alloca::{check_live_ranges, RegAllocError, RegAllocator};
use sysy_compiler::codegen::context::{Place, RegID};
use sysy_compiler::codegen::live_range::{range_over, ranges_of_function, BlockInfo, FuncInfo, InstInfo, LiveRange, Range};
use sysy_compiler::codegen::program::{
    AsmBinaryOp, AsmProgram, AsmUnaryOp, AsmValue, BranchOp, Directive, IrBinaryOp,
};
use sysy_compiler::codegen::utils::AsmGenerator;
use sysy_compiler::codegen::write::AsmWriter;

const SP: RegID = RegID(2);
const T0: RegID = RegID(5);
const A0: RegID = RegID(10);
const A1: RegID = RegID(11);
const A2: RegID = RegID(12);

#[test]
fn writer_binary_line() {
    let mut w = AsmWriter::new();
    w.binary(&AsmBinaryOp::Add, A0, A1, A2);
    w.binary(&AsmBinaryOp::Rem, T0, A0, SP);
    assert_eq!(w.as_str(), "  add a0, a1, a2\n  rem t0, a0, sp\n");
}

#[test]
fn writer_li_negative() {
    let mut w = AsmWriter::new();
    w.li(T0, -7);
    w.li(A0, i32::MIN);
    assert_eq!(w.as_str(), "  li t0, -7\n  li a0, -2147483648\n");
}

#[test]
fn writer_lw_offsets() {
    let mut w = AsmWriter::new();
    w.lw(A0, SP, 8);
    w.lw(A0, SP, 2047);
    assert_eq!(w.as_str(), "  lw a0, 8(sp)\n  lw a0, 2047(sp)\n");
    let mut w = AsmWriter::new();
    w.lw(A0, SP, 4096);
    assert_eq!(w.as_str(), "  li a0, 4096\n  add a0, sp, a0\n  lw a0, 0(a0)\n");
}

#[test]
fn writer_sw_large_offset_uses_t0() {
    let mut w = AsmWriter::new();
    w.sw(A0, SP, -2049);
    assert_eq!(w.as_str(), "  li t0, -2049\n  add t0, sp, t0\n  sw a0, 0(t0)\n");
}

#[test]
fn writer_imm_into_sp() {
    let mut w = AsmWriter::new();
    w.binary_with_imm(&AsmBinaryOp::Addi, SP, SP, -4096);
    w.binary_with_imm(&AsmBinaryOp::Slli, A0, A1, 3);
    assert_eq!(w.as_str(), "  li t0, -4096\n  add sp, sp, t0\n  slli a0, a1, 3\n");
}

#[test]
fn writer_branches_and_symbols() {
    let mut w = AsmWriter::new();
    w.branch(&BranchOp::Bnez, A0, A1, "L1");
    w.branch(&BranchOp::Blt, A0, A1, "L2");
    w.unary(&AsmUnaryOp::Seqz, A0, A1);
    w.global_symbol("main");
    w.local_symbol("L1");
    w.j("L2");
    w.call("putint");
    w.ret();
    w.segment("data");
    w.zero(16);
    w.word(-3);
    w.la(A0, "var0");
    assert_eq!(
        w.as_str(),
        "  bnez a0, L1\n  blt a0, a1, L2\n  seqz a0, a1\n  .globl main\nmain:\nL1:\n  j L2\n  call putint\n  ret\n  .data\n  .zero 16\n  .word -3\n  la a0, var0\n"
    );
}

#[test]
fn writer_whole_program() {
    let mut p = AsmProgram::new();
    p.directive(Directive::Text);
    p.global_symbol("main");
    p.load_imm(A0, 42);
    p.store(A0, SP, 4);
    p.load(A1, SP, 4);
    p.ret();
    let mut w = AsmWriter::new();
    w.write_program(&p);
    assert_eq!(
        w.as_str(),
        "  .text\n  .globl main\nmain:\n  li a0, 42\n  sw a0, 4(sp)\n  lw a1, 4(sp)\n  ret\n"
    );
}

#[test]
fn generator_addi_large_immediate() {
    let mut g = AsmGenerator::new("t0");
    g.addi("sp", "sp", -16);
    g.addi("sp", "sp", 5000);
    assert_eq!(g.as_str(), "  addi sp, sp, -16\n  li t0, 5000\n  add, sp, sp, t0\n");
}

#[test]
fn generator_comparisons() {
    let mut g = AsmGenerator::new("t0");
    g.binary(IrBinaryOp::Eq, "t1", "t2", "t3");
    g.binary(IrBinaryOp::Ge, "t1", "t2", "t3");
    g.binary(IrBinaryOp::Mod, "t1", "t2", "t3");
    assert_eq!(
        g.as_str(),
        "  xor t1, t1, t2\n  seqz t3, t1\n  slt t1, t1, t2\n  seqz t3, t1\n  rem t3, t1, t2\n"
    );
}

#[test]
fn generator_global_and_frame() {
    let mut g = AsmGenerator::new("t0");
    g.global_alloc(0, &3);
    g.global_alloc(-5, &4);
    assert_eq!(
        g.as_str(),
        "  .data\n  .globl var3\nvar3:\n  .zero 4\n\n  .data\n  .globl var4\nvar4:\n  .word -5\n\n"
    );
    let mut g = AsmGenerator::new("t0");
    g.prologue("main", 16, false);
    g.epilogue(16, false);
    assert_eq!(
        g.as_str(),
        "  .text\n  .globl main\nmain:\n  addi sp, sp, -16\n  sw ra, 12(sp)\n  lw ra, 12(sp)\n  addi sp, sp, 16\n  ret\n\n"
    );
    let mut g = AsmGenerator::new("t0");
    g.lw("a0", "sp", 3000);
    g.sw("a0", "sp", -8);
    g.mv("a0", "a1");
    g.bnez("a0", "L");
    g.j(&"M".to_owned());
    g.enter_bb("L");
    assert_eq!(
        g.as_str(),
        "  li t0, 3000\n  add, t0, sp, t0\n  lw a0, 0(t0)\n  sw a0, -8(sp)\n  mv a0, a1\n  bnez a0, L\n  j M\nL:\n"
    );
}

#[test]
fn program_mv_to_same_register_is_dropped() {
    let mut p = AsmProgram::new();
    p.mv(A0, A0);
    assert_eq!(p.values.len(), 0);
    p.mv(A0, A1);
    assert!(matches!(p.values[0], AsmValue::Unary(AsmUnaryOp::Move, RegID(10), RegID(11))));
}

#[test]
fn program_redundant_mv_rewrites_destination() {
    let mut p = AsmProgram::new();
    p.binary(AsmBinaryOp::Add, T0, A1, A2);
    assert!(p.try_remove_redundant_mv(A0, T0));
    assert!(matches!(p.values[0], AsmValue::Binary(AsmBinaryOp::Add, RegID(10), RegID(11), RegID(12))));
}

#[test]
fn program_branch_folds_comparison() {
    let mut p = AsmProgram::new();
    p.local_symbol("entry");
    p.binary(AsmBinaryOp::Slt, T0, A0, A1);
    p.branch(T0, "L");
    assert_eq!(p.values.len(), 2);
    match &p.values[1] {
        AsmValue::Branch(BranchOp::Blt, l, r, t) => {
            assert_eq!(*l, A0);
            assert_eq!(*r, A1);
            assert_eq!(t, "L");
        }
        _ => panic!("expected blt"),
    }
}

#[test]
fn program_strength_reduction() {
    let mut p = AsmProgram::new();
    p.ir_binary_with_imm(IrBinaryOp::Mul, A0, A1, 8);
    assert!(matches!(p.values[0], AsmValue::BinaryImm(AsmBinaryOp::Slli, RegID(10), RegID(11), 3)));
    let mut p = AsmProgram::new();
    p.ir_binary_with_imm(IrBinaryOp::Mod, A0, A1, 16);
    assert!(matches!(p.values[0], AsmValue::BinaryImm(AsmBinaryOp::Andi, RegID(10), RegID(11), 15)));
    let mut p = AsmProgram::new();
    p.ir_binary_with_imm(IrBinaryOp::Sub, A0, A1, 5);
    assert!(matches!(p.values[0], AsmValue::BinaryImm(AsmBinaryOp::Addi, RegID(10), RegID(11), -5)));
}

#[test]
fn register_is_saved() {
    assert!(RegID(8).is_saved_reg());
    assert!(RegID(27).is_saved_reg());
    assert!(!RegID(28).is_saved_reg());
    assert!(!RegID(10).is_saved_reg());
}

fn live(ranges: Vec<(Range, u32)>, calls: Vec<u32>) -> LiveRange {
    let mut lr = LiveRange::new();
    lr.ranges.push((7, ranges));
    lr.function_calls.push((7, calls));
    lr
}

fn place(a: &RegAllocator, v: u32) -> Place {
    *a.places.get(&7).unwrap().get(&v).unwrap()
}

#[test]
fn alloca_reuses_register_of_expired_value() {
    let lr = live(
        vec![
            (Range::new(0, 10), 1),
            (Range::new(2, 5), 2),
            (Range::new(6, 8), 3),
        ],
        vec![],
    );
    let mut a = RegAllocator::new();
    assert!(a.alloca(&lr).is_ok());
    assert_eq!(place(&a, 1), Place::Reg(RegID(28)));
    assert_eq!(place(&a, 2), Place::Reg(RegID(29)));
    assert_eq!(place(&a, 3), Place::Reg(RegID(29)));
    assert_eq!(*a.spill_size.get(&7).unwrap(), 0);
    assert_eq!(*a.max_reg.get(&7).unwrap(), 0);
}

#[test]
fn alloca_value_across_call_gets_saved_register() {
    let lr = live(vec![(Range::new(0, 10), 1), (Range::new(1, 3), 2)], vec![5]);
    let mut a = RegAllocator::new();
    assert!(a.alloca(&lr).is_ok());
    assert_eq!(place(&a, 1), Place::Reg(RegID(8)));
    assert_eq!(place(&a, 2), Place::Reg(RegID(28)));
    assert_eq!(*a.max_reg.get(&7).unwrap(), 1);
}

#[test]
fn alloca_spills_when_registers_run_out() {
    let mut ranges = Vec::new();
    for v in 0..24u32 {
        ranges.push((Range::new(v, 100), v));
    }
    ranges.push((Range::new(30, 40), 24));
    ranges.push((Range::new(31, 200), 25));
    let lr = live(ranges, vec![]);
    let mut a = RegAllocator::new();
    assert!(a.alloca(&lr).is_ok());
    // value 24 ends before the longest-living active value: it takes its register
    assert_eq!(place(&a, 23), Place::Mem(0));
    assert!(matches!(place(&a, 24), Place::Reg(_)));
    // value 25 outlives everything: it goes to the stack
    assert_eq!(place(&a, 25), Place::Mem(4));
    assert_eq!(*a.spill_size.get(&7).unwrap(), 8);
}

#[test]
fn alloca_fails_without_saved_register_for_call() {
    let mut ranges = Vec::new();
    for v in 0..13u32 {
        ranges.push((Range::new(v, 100), v));
    }
    let lr = live(ranges, vec![50]);
    let mut a = RegAllocator::new();
    assert_eq!(a.alloca(&lr), Err(RegAllocError::NoSavedRegister));
}

#[test]
fn live_range_loop_extension() {
    let mut lr = LiveRange::new();
    lr.ranges.push((0, vec![(Range::new(1, 5), 9), (Range::new(4, 6), 8), (Range::new(1, 30), 7)]));
    lr.update_use_in_loop(0, 3, 20);
    assert_eq!(lr.ranges[0].1[0].0, Range::new(1, 20));
    assert_eq!(lr.ranges[0].1[1].0, Range::new(4, 6));
    assert_eq!(lr.ranges[0].1[2].0, Range::new(1, 30));
    lr.function_calls.push((0, vec![1, 2]));
    lr.function_calls.push((0, vec![3]));
    assert_eq!(lr.calls_of(0), Some(&vec![3]));
    assert_eq!(lr.calls_of(1), None);
}

fn inst(value: u32, has_result: bool, clobbers: bool, users: Vec<(usize, usize)>) -> InstInfo {
    InstInfo { value, has_result, clobbers, users }
}

/// entry: %10 = ...; call; jump %b1
/// %b1(%200): %13 = ...; %14 = ...; jump %b1
fn looping_function() -> FuncInfo {
    FuncInfo {
        id: 3,
        params: vec![(100, vec![(0, 0)])],
        blocks: vec![
            BlockInfo {
                params: vec![],
                preds: vec![],
                insts: vec![
                    inst(10, true, false, vec![(1, 1)]),
                    inst(11, false, true, vec![]),
                    inst(12, false, false, vec![]),
                ],
                jump_target: Some(1),
            },
            BlockInfo {
                params: vec![(200, vec![(1, 0)])],
                preds: vec![(0, 2), (1, 2)],
                insts: vec![
                    inst(13, true, false, vec![(1, 2)]),
                    inst(14, true, false, vec![]),
                    inst(15, false, false, vec![]),
                ],
                jump_target: Some(1),
            },
        ],
    }
}

#[test]
fn live_ranges_of_a_loop() {
    let rs = ranges_of_function(&looping_function(), 0);
    let got: Vec<(u32, u32, u32)> = rs.iter().map(|(r, v)| (r.begin, r.end, *v)).collect();
    assert_eq!(got, vec![(0, 0, 100), (0, 5, 10), (2, 5, 200), (3, 5, 13), (4, 4, 14)]);
    assert_eq!(range_over(7, &vec![3, 9, 5]), Range::new(3, 9));
}

#[test]
fn analysis_numbers_functions_in_turn() {
    let decl = FuncInfo { id: 1, params: vec![], blocks: vec![] };
    let funcs = vec![decl, looping_function(), looping_function()];
    let mut lr = LiveRange::new();
    lr.analyze(&funcs);
    assert_eq!(lr.ranges.len(), 2);
    assert_eq!(lr.function_calls[0], (3, vec![1]));
    assert_eq!(lr.function_calls[1], (3, vec![7]));
    assert_eq!(lr.ranges[1].1[1].0, Range::new(6, 11));
    // the ranges feed the allocator
    let mut lr2 = LiveRange::new();
    lr2.analyze(&vec![looping_function()]);
    let mut a = RegAllocator::new();
    assert!(a.alloca(&lr2).is_ok());
    let places = a.places.get(&3).unwrap();
    // %10 lives across the call at 1: it gets a callee-saved register
    assert_eq!(*places.get(&10).unwrap(), Place::Reg(RegID(8)));
}

#[test]
fn live_ranges_check_before_allocation() {
    let ok = live(vec![(Range::new(0, 10), 1), (Range::new(2, 5), 2), (Range::new(2, 8), 3)], vec![]);
    assert!(check_live_ranges(&ok));
    // out of order of their beginnings
    let unsorted = live(vec![(Range::new(4, 10), 1), (Range::new(2, 5), 2)], vec![]);
    assert!(!check_live_ranges(&unsorted));
    // one value twice
    let twice = live(vec![(Range::new(0, 10), 1), (Range::new(2, 5), 1)], vec![]);
    assert!(!check_live_ranges(&twice));
    // no record of calls
    let mut no_calls = LiveRange::new();
    no_calls.ranges.push((7, vec![(Range::new(0, 1), 1)]));
    assert!(!check_live_ranges(&no_calls));
    // one function twice
    let mut dup = live(vec![(Range::new(0, 1), 1)], vec![]);
    dup.ranges.push((7, vec![]));
    assert!(!check_live_ranges(&dup));
}
