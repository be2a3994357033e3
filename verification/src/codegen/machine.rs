use vstd::prelude::*;

use crate::ast::exp::{bool_int, in_i32, trunc_div, trunc_rem};
use crate::codegen::context::RegID;
use crate::codegen::program::{bit_len, ir_binary_imm_lines, ir_binary_lines, is_pow2_imm, shift_of, zero_reg, AsmBinaryOp, AsmUnaryOp, AsmValue, BranchOp, IrBinaryOp};
use crate::codegen::write::{binary_op_text, branch_op_text, unary_op_text};
use crate::opt::sccp::fold_value;

verus! {

/// A 32-bit value: `x` taken modulo `2^32`, as a register holds it.
pub open spec fn wrap32(x: int) -> i32 {
    x as i32
}

/// The RISC-V 32-bit integer instruction with mnemonic `m` applied to the
/// values `a` (the first source register) and `b` (the second source
/// register, or the immediate): its result, or `None` for a mnemonic that
/// is not one of them.
pub open spec fn isa_binary(m: Seq<char>, a: i32, b: i32) -> Option<i32> {
    if m == "add"@ || m == "addi"@ {
        Some(wrap32(a + b))
    } else if m == "sub"@ {
        Some(wrap32(a - b))
    } else if m == "mul"@ {
        Some(wrap32(a * b))
    } else if m == "div"@ {
        Some(
            if b == 0 {
                -1i32
            } else if a == i32::MIN && b == -1 {
                i32::MIN
            } else {
                trunc_div(a as int, b as int) as i32
            },
        )
    } else if m == "rem"@ {
        Some(
            if b == 0 {
                a
            } else if a == i32::MIN && b == -1 {
                0i32
            } else {
                trunc_rem(a as int, b as int) as i32
            },
        )
    } else if m == "and"@ || m == "andi"@ {
        Some(a & b)
    } else if m == "or"@ || m == "ori"@ {
        Some(a | b)
    } else if m == "xor"@ || m == "xori"@ {
        Some(a ^ b)
    } else if m == "slt"@ || m == "slti"@ {
        Some(if a < b { 1i32 } else { 0i32 })
    } else if m == "sgt"@ {
        // `sgt rd, rs1, rs2` is `slt rd, rs2, rs1`
        Some(if b < a { 1i32 } else { 0i32 })
    } else if m == "slli"@ {
        Some(wrap32(a * vstd::arithmetic::power2::pow2((b % 32) as nat)))
    } else if m == "srai"@ {
        // an arithmetic shift rounds toward minus infinity
        Some((a as int / vstd::arithmetic::power2::pow2((b % 32) as nat) as int) as i32)
    } else {
        None
    }
}

/// The RISC-V instruction with one source register and mnemonic `m`
/// applied to `a`, or `None` for a mnemonic that is not one of them.
pub open spec fn isa_unary(m: Seq<char>, a: i32) -> Option<i32> {
    if m == "seqz"@ {
        Some(if a == 0 { 1i32 } else { 0i32 })
    } else if m == "snez"@ {
        Some(if a != 0 { 1i32 } else { 0i32 })
    } else if m == "mv"@ {
        Some(a)
    } else {
        None
    }
}

/// Whether the RISC-V branch with mnemonic `m` on the values `a` and `b` of
/// its source registers (`b` unused by the forms against zero) is taken,
/// or `None` for a mnemonic that is not one of them.
pub open spec fn isa_branch(m: Seq<char>, a: i32, b: i32) -> Option<bool> {
    if m == "bnez"@ {
        Some(a != 0)
    } else if m == "beqz"@ {
        Some(a == 0)
    } else if m == "blt"@ {
        Some(a < b)
    } else if m == "bgt"@ {
        // `bgt rs1, rs2` is `blt rs2, rs1`
        Some(b < a)
    } else if m == "beq"@ {
        Some(a == b)
    } else if m == "bne"@ {
        Some(a != b)
    } else {
        None
    }
}

/// The registers: the value of each, by number. Register `zero` reads as
/// 0 and ignores writes.
pub open spec fn read_reg(regs: spec_fn(usize) -> i32, r: RegID) -> i32 {
    if r == zero_reg() {
        0
    } else {
        regs(r.0)
    }
}

/// The registers after writing `x` to `r`.
pub open spec fn write_reg(regs: spec_fn(usize) -> i32, r: RegID, x: i32) -> spec_fn(usize) -> i32 {
    if r == zero_reg() {
        regs
    } else {
        |i: usize| if i == r.0 { x } else { regs(i) }
    }
}

/// The registers after running line `line`, executed as the instruction
/// its mnemonic names, or `None` where the line is not a register
/// computation (a memory access, a branch, a directive).
pub open spec fn run_line(regs: spec_fn(usize) -> i32, line: AsmValue) -> Option<spec_fn(usize) -> i32> {
    match line {
        AsmValue::Binary(op, d, l, r) => match isa_binary(binary_op_text(op), read_reg(regs, l), read_reg(regs, r)) {
            Some(x) => Some(write_reg(regs, d, x)),
            None => None,
        },
        AsmValue::BinaryImm(op, d, l, imm) => match isa_binary(binary_op_text(op), read_reg(regs, l), imm) {
            Some(x) => Some(write_reg(regs, d, x)),
            None => None,
        },
        AsmValue::Unary(op, d, o) => match isa_unary(unary_op_text(op), read_reg(regs, o)) {
            Some(x) => Some(write_reg(regs, d, x)),
            None => None,
        },
        AsmValue::LoadImm(d, imm) => Some(write_reg(regs, d, imm)),
        _ => None,
    }
}

/// The registers after running the lines `s` in order.
pub open spec fn run_lines(regs: spec_fn(usize) -> i32, s: Seq<AsmValue>) -> Option<spec_fn(usize) -> i32>
    decreases s.len(),
{
    if s.len() == 0 {
        Some(regs)
    } else {
        match run_line(regs, s[0]) {
            Some(r2) => run_lines(r2, s.subrange(1, s.len() as int)),
            None => None,
        }
    }
}

/// Whether `lhs op rhs` of the intermediate representation is computed
/// by the machine without leaving `i32` or dividing by zero; `and` and
/// `or` are taken on truth values (0 or 1), where the bitwise machine
/// operations agree with them.
pub open spec fn machine_defined(op: IrBinaryOp, l: i32, r: i32) -> bool {
    match op {
        IrBinaryOp::Div | IrBinaryOp::Mod => r != 0 && !(l == i32::MIN && r == -1),
        IrBinaryOp::And | IrBinaryOp::Or => 0 <= l <= 1 && 0 <= r <= 1,
        _ => in_i32(fold_value(op, l as int, r as int)),
    }
}

proof fn lemma_run_one(regs: spec_fn(usize) -> i32, a: AsmValue)
    ensures
        run_lines(regs, seq![a]) == run_line(regs, a),
{
    reveal_with_fuel(run_lines, 2);
    assert(seq![a].subrange(1, 1) =~= Seq::<AsmValue>::empty());
    match run_line(regs, a) {
        Some(r2) => {
            assert(run_lines(r2, Seq::<AsmValue>::empty()) == Some(r2));
        },
        None => {},
    }
}

proof fn lemma_run_two(regs: spec_fn(usize) -> i32, a: AsmValue, b: AsmValue)
    ensures
        run_lines(regs, seq![a, b]) == match run_line(regs, a) {
            Some(r2) => run_line(r2, b),
            None => None,
        },
{
    reveal_with_fuel(run_lines, 3);
    assert(seq![a, b].subrange(1, 2) =~= seq![b]);
    match run_line(regs, a) {
        Some(r2) => {
            lemma_run_one(r2, b);
        },
        None => {},
    }
}

proof fn lemma_reveal_mnemonics()
    ensures
        "add"@ != "addi"@,
        "add"@ != "sub"@,
        "add"@ != "mul"@,
        "add"@ != "div"@,
        "add"@ != "rem"@,
        "add"@ != "and"@,
        "add"@ != "andi"@,
        "add"@ != "or"@,
        "add"@ != "ori"@,
        "add"@ != "slt"@,
        "add"@ != "slti"@,
        "add"@ != "sgt"@,
        "add"@ != "xor"@,
        "add"@ != "xori"@,
        "add"@ != "slli"@,
        "add"@ != "srai"@,
        "addi"@ != "sub"@,
        "addi"@ != "mul"@,
        "addi"@ != "div"@,
        "addi"@ != "rem"@,
        "addi"@ != "and"@,
        "addi"@ != "andi"@,
        "addi"@ != "or"@,
        "addi"@ != "ori"@,
        "addi"@ != "slt"@,
        "addi"@ != "slti"@,
        "addi"@ != "sgt"@,
        "addi"@ != "xor"@,
        "addi"@ != "xori"@,
        "addi"@ != "slli"@,
        "addi"@ != "srai"@,
        "sub"@ != "mul"@,
        "sub"@ != "div"@,
        "sub"@ != "rem"@,
        "sub"@ != "and"@,
        "sub"@ != "andi"@,
        "sub"@ != "or"@,
        "sub"@ != "ori"@,
        "sub"@ != "slt"@,
        "sub"@ != "slti"@,
        "sub"@ != "sgt"@,
        "sub"@ != "xor"@,
        "sub"@ != "xori"@,
        "sub"@ != "slli"@,
        "sub"@ != "srai"@,
        "mul"@ != "div"@,
        "mul"@ != "rem"@,
        "mul"@ != "and"@,
        "mul"@ != "andi"@,
        "mul"@ != "or"@,
        "mul"@ != "ori"@,
        "mul"@ != "slt"@,
        "mul"@ != "slti"@,
        "mul"@ != "sgt"@,
        "mul"@ != "xor"@,
        "mul"@ != "xori"@,
        "mul"@ != "slli"@,
        "mul"@ != "srai"@,
        "div"@ != "rem"@,
        "div"@ != "and"@,
        "div"@ != "andi"@,
        "div"@ != "or"@,
        "div"@ != "ori"@,
        "div"@ != "slt"@,
        "div"@ != "slti"@,
        "div"@ != "sgt"@,
        "div"@ != "xor"@,
        "div"@ != "xori"@,
        "div"@ != "slli"@,
        "div"@ != "srai"@,
        "rem"@ != "and"@,
        "rem"@ != "andi"@,
        "rem"@ != "or"@,
        "rem"@ != "ori"@,
        "rem"@ != "slt"@,
        "rem"@ != "slti"@,
        "rem"@ != "sgt"@,
        "rem"@ != "xor"@,
        "rem"@ != "xori"@,
        "rem"@ != "slli"@,
        "rem"@ != "srai"@,
        "and"@ != "andi"@,
        "and"@ != "or"@,
        "and"@ != "ori"@,
        "and"@ != "slt"@,
        "and"@ != "slti"@,
        "and"@ != "sgt"@,
        "and"@ != "xor"@,
        "and"@ != "xori"@,
        "and"@ != "slli"@,
        "and"@ != "srai"@,
        "andi"@ != "or"@,
        "andi"@ != "ori"@,
        "andi"@ != "slt"@,
        "andi"@ != "slti"@,
        "andi"@ != "sgt"@,
        "andi"@ != "xor"@,
        "andi"@ != "xori"@,
        "andi"@ != "slli"@,
        "andi"@ != "srai"@,
        "or"@ != "ori"@,
        "or"@ != "slt"@,
        "or"@ != "slti"@,
        "or"@ != "sgt"@,
        "or"@ != "xor"@,
        "or"@ != "xori"@,
        "or"@ != "slli"@,
        "or"@ != "srai"@,
        "ori"@ != "slt"@,
        "ori"@ != "slti"@,
        "ori"@ != "sgt"@,
        "ori"@ != "xor"@,
        "ori"@ != "xori"@,
        "ori"@ != "slli"@,
        "ori"@ != "srai"@,
        "slt"@ != "slti"@,
        "slt"@ != "sgt"@,
        "slt"@ != "xor"@,
        "slt"@ != "xori"@,
        "slt"@ != "slli"@,
        "slt"@ != "srai"@,
        "slti"@ != "sgt"@,
        "slti"@ != "xor"@,
        "slti"@ != "xori"@,
        "slti"@ != "slli"@,
        "slti"@ != "srai"@,
        "sgt"@ != "xor"@,
        "sgt"@ != "xori"@,
        "sgt"@ != "slli"@,
        "sgt"@ != "srai"@,
        "xor"@ != "xori"@,
        "xor"@ != "slli"@,
        "xor"@ != "srai"@,
        "xori"@ != "slli"@,
        "xori"@ != "srai"@,
        "slli"@ != "srai"@,
        "seqz"@ != "snez"@,
        "seqz"@ != "mv"@,
        "snez"@ != "mv"@,
        "bnez"@ != "beqz"@,
        "bnez"@ != "blt"@,
        "bnez"@ != "bgt"@,
        "bnez"@ != "beq"@,
        "bnez"@ != "bne"@,
        "beqz"@ != "blt"@,
        "beqz"@ != "bgt"@,
        "beqz"@ != "beq"@,
        "beqz"@ != "bne"@,
        "blt"@ != "bgt"@,
        "blt"@ != "beq"@,
        "blt"@ != "bne"@,
        "bgt"@ != "beq"@,
        "bgt"@ != "bne"@,
        "beq"@ != "bne"@,
{
    reveal_strlit("add");
    reveal_strlit("addi");
    reveal_strlit("sub");
    reveal_strlit("mul");
    reveal_strlit("div");
    reveal_strlit("rem");
    reveal_strlit("and");
    reveal_strlit("andi");
    reveal_strlit("or");
    reveal_strlit("ori");
    reveal_strlit("slt");
    reveal_strlit("slti");
    reveal_strlit("sgt");
    reveal_strlit("xor");
    reveal_strlit("xori");
    reveal_strlit("slli");
    reveal_strlit("srai");
    reveal_strlit("seqz");
    reveal_strlit("snez");
    reveal_strlit("mv");
    reveal_strlit("bnez");
    reveal_strlit("beqz");
    reveal_strlit("blt");
    reveal_strlit("bgt");
    reveal_strlit("beq");
    reveal_strlit("bne");
    assert("add"@.len() != "addi"@.len());
    assert("add"@[0] != "sub"@[0]);
    assert("add"@[0] != "mul"@[0]);
    assert("add"@[0] != "div"@[0]);
    assert("add"@[0] != "rem"@[0]);
    assert("add"@[1] != "and"@[1]);
    assert("add"@.len() != "andi"@.len());
    assert("add"@.len() != "or"@.len());
    assert("add"@[0] != "ori"@[0]);
    assert("add"@[0] != "slt"@[0]);
    assert("add"@.len() != "slti"@.len());
    assert("add"@[0] != "sgt"@[0]);
    assert("add"@[0] != "xor"@[0]);
    assert("add"@.len() != "xori"@.len());
    assert("add"@.len() != "slli"@.len());
    assert("add"@.len() != "srai"@.len());
    assert("addi"@.len() != "sub"@.len());
    assert("addi"@.len() != "mul"@.len());
    assert("addi"@.len() != "div"@.len());
    assert("addi"@.len() != "rem"@.len());
    assert("addi"@.len() != "and"@.len());
    assert("addi"@[1] != "andi"@[1]);
    assert("addi"@.len() != "or"@.len());
    assert("addi"@.len() != "ori"@.len());
    assert("addi"@.len() != "slt"@.len());
    assert("addi"@[0] != "slti"@[0]);
    assert("addi"@.len() != "sgt"@.len());
    assert("addi"@.len() != "xor"@.len());
    assert("addi"@[0] != "xori"@[0]);
    assert("addi"@[0] != "slli"@[0]);
    assert("addi"@[0] != "srai"@[0]);
    assert("sub"@[0] != "mul"@[0]);
    assert("sub"@[0] != "div"@[0]);
    assert("sub"@[0] != "rem"@[0]);
    assert("sub"@[0] != "and"@[0]);
    assert("sub"@.len() != "andi"@.len());
    assert("sub"@.len() != "or"@.len());
    assert("sub"@[0] != "ori"@[0]);
    assert("sub"@[1] != "slt"@[1]);
    assert("sub"@.len() != "slti"@.len());
    assert("sub"@[1] != "sgt"@[1]);
    assert("sub"@[0] != "xor"@[0]);
    assert("sub"@.len() != "xori"@.len());
    assert("sub"@.len() != "slli"@.len());
    assert("sub"@.len() != "srai"@.len());
    assert("mul"@[0] != "div"@[0]);
    assert("mul"@[0] != "rem"@[0]);
    assert("mul"@[0] != "and"@[0]);
    assert("mul"@.len() != "andi"@.len());
    assert("mul"@.len() != "or"@.len());
    assert("mul"@[0] != "ori"@[0]);
    assert("mul"@[0] != "slt"@[0]);
    assert("mul"@.len() != "slti"@.len());
    assert("mul"@[0] != "sgt"@[0]);
    assert("mul"@[0] != "xor"@[0]);
    assert("mul"@.len() != "xori"@.len());
    assert("mul"@.len() != "slli"@.len());
    assert("mul"@.len() != "srai"@.len());
    assert("div"@[0] != "rem"@[0]);
    assert("div"@[0] != "and"@[0]);
    assert("div"@.len() != "andi"@.len());
    assert("div"@.len() != "or"@.len());
    assert("div"@[0] != "ori"@[0]);
    assert("div"@[0] != "slt"@[0]);
    assert("div"@.len() != "slti"@.len());
    assert("div"@[0] != "sgt"@[0]);
    assert("div"@[0] != "xor"@[0]);
    assert("div"@.len() != "xori"@.len());
    assert("div"@.len() != "slli"@.len());
    assert("div"@.len() != "srai"@.len());
    assert("rem"@[0] != "and"@[0]);
    assert("rem"@.len() != "andi"@.len());
    assert("rem"@.len() != "or"@.len());
    assert("rem"@[0] != "ori"@[0]);
    assert("rem"@[0] != "slt"@[0]);
    assert("rem"@.len() != "slti"@.len());
    assert("rem"@[0] != "sgt"@[0]);
    assert("rem"@[0] != "xor"@[0]);
    assert("rem"@.len() != "xori"@.len());
    assert("rem"@.len() != "slli"@.len());
    assert("rem"@.len() != "srai"@.len());
    assert("and"@.len() != "andi"@.len());
    assert("and"@.len() != "or"@.len());
    assert("and"@[0] != "ori"@[0]);
    assert("and"@[0] != "slt"@[0]);
    assert("and"@.len() != "slti"@.len());
    assert("and"@[0] != "sgt"@[0]);
    assert("and"@[0] != "xor"@[0]);
    assert("and"@.len() != "xori"@.len());
    assert("and"@.len() != "slli"@.len());
    assert("and"@.len() != "srai"@.len());
    assert("andi"@.len() != "or"@.len());
    assert("andi"@.len() != "ori"@.len());
    assert("andi"@.len() != "slt"@.len());
    assert("andi"@[0] != "slti"@[0]);
    assert("andi"@.len() != "sgt"@.len());
    assert("andi"@.len() != "xor"@.len());
    assert("andi"@[0] != "xori"@[0]);
    assert("andi"@[0] != "slli"@[0]);
    assert("andi"@[0] != "srai"@[0]);
    assert("or"@.len() != "ori"@.len());
    assert("or"@.len() != "slt"@.len());
    assert("or"@.len() != "slti"@.len());
    assert("or"@.len() != "sgt"@.len());
    assert("or"@.len() != "xor"@.len());
    assert("or"@.len() != "xori"@.len());
    assert("or"@.len() != "slli"@.len());
    assert("or"@.len() != "srai"@.len());
    assert("ori"@[0] != "slt"@[0]);
    assert("ori"@.len() != "slti"@.len());
    assert("ori"@[0] != "sgt"@[0]);
    assert("ori"@[0] != "xor"@[0]);
    assert("ori"@.len() != "xori"@.len());
    assert("ori"@.len() != "slli"@.len());
    assert("ori"@.len() != "srai"@.len());
    assert("slt"@.len() != "slti"@.len());
    assert("slt"@[1] != "sgt"@[1]);
    assert("slt"@[0] != "xor"@[0]);
    assert("slt"@.len() != "xori"@.len());
    assert("slt"@.len() != "slli"@.len());
    assert("slt"@.len() != "srai"@.len());
    assert("slti"@.len() != "sgt"@.len());
    assert("slti"@.len() != "xor"@.len());
    assert("slti"@[0] != "xori"@[0]);
    assert("slti"@[2] != "slli"@[2]);
    assert("slti"@[1] != "srai"@[1]);
    assert("sgt"@[0] != "xor"@[0]);
    assert("sgt"@.len() != "xori"@.len());
    assert("sgt"@.len() != "slli"@.len());
    assert("sgt"@.len() != "srai"@.len());
    assert("xor"@.len() != "xori"@.len());
    assert("xor"@.len() != "slli"@.len());
    assert("xor"@.len() != "srai"@.len());
    assert("xori"@[0] != "slli"@[0]);
    assert("xori"@[0] != "srai"@[0]);
    assert("slli"@[1] != "srai"@[1]);
    assert("seqz"@[1] != "snez"@[1]);
    assert("seqz"@.len() != "mv"@.len());
    assert("snez"@.len() != "mv"@.len());
    assert("bnez"@[1] != "beqz"@[1]);
    assert("bnez"@.len() != "blt"@.len());
    assert("bnez"@.len() != "bgt"@.len());
    assert("bnez"@.len() != "beq"@.len());
    assert("bnez"@.len() != "bne"@.len());
    assert("beqz"@.len() != "blt"@.len());
    assert("beqz"@.len() != "bgt"@.len());
    assert("beqz"@.len() != "beq"@.len());
    assert("beqz"@.len() != "bne"@.len());
    assert("blt"@[1] != "bgt"@[1]);
    assert("blt"@[1] != "beq"@[1]);
    assert("blt"@[1] != "bne"@[1]);
    assert("bgt"@[1] != "beq"@[1]);
    assert("bgt"@[1] != "bne"@[1]);
    assert("beq"@[1] != "bne"@[1]);
}

/// The mnemonic written for each operator is the RISC-V instruction that
/// computes it: `add` adds, `slt` sets on less than, `sgt` on greater than,
/// `seqz` tests for zero, and so on, each on 32-bit register values.
pub proof fn lemma_mnemonics_compute(a: i32, b: i32)
    ensures
        isa_binary(binary_op_text(AsmBinaryOp::Add), a, b) == Some(wrap32(a + b)),
        isa_binary(binary_op_text(AsmBinaryOp::Addi), a, b) == Some(wrap32(a + b)),
        isa_binary(binary_op_text(AsmBinaryOp::Sub), a, b) == Some(wrap32(a - b)),
        isa_binary(binary_op_text(AsmBinaryOp::Mul), a, b) == Some(wrap32(a * b)),
        b != 0 && !(a == i32::MIN && b == -1) ==> isa_binary(binary_op_text(AsmBinaryOp::Div), a, b) == Some(
            trunc_div(a as int, b as int) as i32,
        ),
        b != 0 && !(a == i32::MIN && b == -1) ==> isa_binary(binary_op_text(AsmBinaryOp::Rem), a, b) == Some(
            trunc_rem(a as int, b as int) as i32,
        ),
        isa_binary(binary_op_text(AsmBinaryOp::And), a, b) == Some(a & b),
        isa_binary(binary_op_text(AsmBinaryOp::Andi), a, b) == Some(a & b),
        isa_binary(binary_op_text(AsmBinaryOp::Or), a, b) == Some(a | b),
        isa_binary(binary_op_text(AsmBinaryOp::Ori), a, b) == Some(a | b),
        isa_binary(binary_op_text(AsmBinaryOp::Xor), a, b) == Some(a ^ b),
        isa_binary(binary_op_text(AsmBinaryOp::Xori), a, b) == Some(a ^ b),
        isa_binary(binary_op_text(AsmBinaryOp::Slt), a, b) == Some(if a < b { 1i32 } else { 0i32 }),
        isa_binary(binary_op_text(AsmBinaryOp::Slti), a, b) == Some(if a < b { 1i32 } else { 0i32 }),
        isa_binary(binary_op_text(AsmBinaryOp::Sgt), a, b) == Some(if a > b { 1i32 } else { 0i32 }),
        isa_binary(binary_op_text(AsmBinaryOp::Slli), a, b) is Some,
        isa_binary(binary_op_text(AsmBinaryOp::Srai), a, b) is Some,
        isa_unary(unary_op_text(AsmUnaryOp::Seqz), a) == Some(if a == 0 { 1i32 } else { 0i32 }),
        isa_unary(unary_op_text(AsmUnaryOp::Snez), a) == Some(if a != 0 { 1i32 } else { 0i32 }),
        isa_unary(unary_op_text(AsmUnaryOp::Move), a) == Some(a),
{
    lemma_reveal_mnemonics();
}

/// No two operators are written alike.
pub proof fn lemma_mnemonics_distinct(x: AsmBinaryOp, y: AsmBinaryOp)
    ensures
        binary_op_text(x) == binary_op_text(y) ==> x == y,
{
    lemma_reveal_mnemonics();
}

/// No two unary operators are written alike.
pub proof fn lemma_unary_mnemonics_distinct(x: AsmUnaryOp, y: AsmUnaryOp)
    ensures
        unary_op_text(x) == unary_op_text(y) ==> x == y,
{
    lemma_reveal_mnemonics();
}

/// The mnemonic written for each branch is the RISC-V branch that tests
/// it: `bnez` on a nonzero register, `beqz` on zero, `blt` on less than,
/// `bgt` on greater than, `beq` on equal, `bne` on different values.
pub proof fn lemma_branch_mnemonics_compute(a: i32, b: i32)
    ensures
        isa_branch(branch_op_text(BranchOp::Bnez), a, b) == Some(a != 0),
        isa_branch(branch_op_text(BranchOp::Beqz), a, b) == Some(a == 0),
        isa_branch(branch_op_text(BranchOp::Blt), a, b) == Some(a < b),
        isa_branch(branch_op_text(BranchOp::Bgt), a, b) == Some(a > b),
        isa_branch(branch_op_text(BranchOp::Beq), a, b) == Some(a == b),
        isa_branch(branch_op_text(BranchOp::Bne), a, b) == Some(a != b),
{
    lemma_reveal_mnemonics();
}

/// No two branches are written alike.
pub proof fn lemma_branch_mnemonics_distinct(x: BranchOp, y: BranchOp)
    ensures
        branch_op_text(x) == branch_op_text(y) ==> x == y,
{
    lemma_reveal_mnemonics();
}

/// Two to the power `k` has `k + 1` binary digits.
proof fn lemma_bit_len_pow2(k: nat)
    ensures
        bit_len(vstd::arithmetic::power2::pow2(k) as int) == k + 1,
    decreases k,
{
    vstd::arithmetic::power2::lemma_pow2_pos(k);
    if k == 0 {
        vstd::arithmetic::power2::lemma2_to64();
        assert(bit_len(1) == 1 + bit_len(0));
    } else {
        vstd::arithmetic::power2::lemma_pow2_unfold(k);
        lemma_bit_len_pow2((k - 1) as nat);
        let x = vstd::arithmetic::power2::pow2(k) as int;
        assert(x / 2 == vstd::arithmetic::power2::pow2((k - 1) as nat));
    }
}

/// A power of two among the immediates is two to the power of its shift.
pub proof fn lemma_pow2_imm(imm: i32)
    requires
        is_pow2_imm(imm),
    ensures
        0 <= shift_of(imm) < 31,
        vstd::arithmetic::power2::pow2(shift_of(imm) as nat) == imm as int,
{
    assert(imm == 1 || imm == 2 || imm == 4 || imm == 8 || imm == 16 || imm == 32 || imm == 64 || imm == 128 || imm == 256 || imm == 512 || imm == 1024 || imm == 2048 || imm == 4096 || imm == 8192 || imm == 16384 || imm == 32768 || imm == 65536 || imm == 131072 || imm == 262144 || imm == 524288 || imm == 1048576 || imm == 2097152 || imm == 4194304 || imm == 8388608 || imm == 16777216 || imm == 33554432 || imm == 67108864 || imm == 134217728 || imm == 268435456 || imm == 536870912 || imm == 1073741824) by (bit_vector)
        requires
            imm > 0,
            (imm & ((imm - 1) as i32)) == 0,
    ;
    vstd::arithmetic::power2::lemma2_to64();
    if imm == 1 {
        lemma_bit_len_pow2(0);
    } else if imm == 2 {
        lemma_bit_len_pow2(1);
    } else if imm == 4 {
        lemma_bit_len_pow2(2);
    } else if imm == 8 {
        lemma_bit_len_pow2(3);
    } else if imm == 16 {
        lemma_bit_len_pow2(4);
    } else if imm == 32 {
        lemma_bit_len_pow2(5);
    } else if imm == 64 {
        lemma_bit_len_pow2(6);
    } else if imm == 128 {
        lemma_bit_len_pow2(7);
    } else if imm == 256 {
        lemma_bit_len_pow2(8);
    } else if imm == 512 {
        lemma_bit_len_pow2(9);
    } else if imm == 1024 {
        lemma_bit_len_pow2(10);
    } else if imm == 2048 {
        lemma_bit_len_pow2(11);
    } else if imm == 4096 {
        lemma_bit_len_pow2(12);
    } else if imm == 8192 {
        lemma_bit_len_pow2(13);
    } else if imm == 16384 {
        lemma_bit_len_pow2(14);
    } else if imm == 32768 {
        lemma_bit_len_pow2(15);
    } else if imm == 65536 {
        lemma_bit_len_pow2(16);
    } else if imm == 131072 {
        lemma_bit_len_pow2(17);
    } else if imm == 262144 {
        lemma_bit_len_pow2(18);
    } else if imm == 524288 {
        lemma_bit_len_pow2(19);
    } else if imm == 1048576 {
        lemma_bit_len_pow2(20);
    } else if imm == 2097152 {
        lemma_bit_len_pow2(21);
    } else if imm == 4194304 {
        lemma_bit_len_pow2(22);
    } else if imm == 8388608 {
        lemma_bit_len_pow2(23);
    } else if imm == 16777216 {
        lemma_bit_len_pow2(24);
    } else if imm == 33554432 {
        lemma_bit_len_pow2(25);
    } else if imm == 67108864 {
        lemma_bit_len_pow2(26);
    } else if imm == 134217728 {
        lemma_bit_len_pow2(27);
    } else if imm == 268435456 {
        lemma_bit_len_pow2(28);
    } else if imm == 536870912 {
        lemma_bit_len_pow2(29);
    } else if imm == 1073741824 {
        lemma_bit_len_pow2(30);
    }
}

/// Running the lines that instruction selection emits for `lhs op rhs`
/// (`ir_binary_lines`) on any registers leaves in `dst` the value of the
/// operation of the intermediate representation on the values of `lhs` and
/// `rhs` (`fold_value`), wherever the machine computes it without
/// overflow or division by zero; for `le`, `dst` holds 1 exactly when
/// `lhs <= rhs`. Sources may be the destination too.
pub proof fn lemma_ir_binary_computes(op: IrBinaryOp, dst: RegID, lhs: RegID, rhs: RegID, regs: spec_fn(usize) -> i32)
    requires
        crate::codegen::program::ir_binary_supported(op),
        dst != zero_reg(),
        machine_defined(op, read_reg(regs, lhs), read_reg(regs, rhs)),
    ensures
        run_lines(regs, ir_binary_lines(op, dst, lhs, rhs)) is Some,
        read_reg(run_lines(regs, ir_binary_lines(op, dst, lhs, rhs))->Some_0, dst) as int == fold_value(
            op,
            read_reg(regs, lhs) as int,
            read_reg(regs, rhs) as int,
        ),
{
    let a = read_reg(regs, lhs);
    let b = read_reg(regs, rhs);
    lemma_mnemonics_compute(a, b);
    let s = ir_binary_lines(op, dst, lhs, rhs);
    match op {
        IrBinaryOp::Add | IrBinaryOp::Sub | IrBinaryOp::Mul | IrBinaryOp::Div | IrBinaryOp::Mod | IrBinaryOp::And
        | IrBinaryOp::Or | IrBinaryOp::Lt | IrBinaryOp::Gt => {
            lemma_run_one(regs, s[0]);
            assert(s == seq![s[0]]);
            if op == IrBinaryOp::Div || op == IrBinaryOp::Mod {
                crate::ast::exp::lemma_trunc_div_rem_in_range(a as int, b as int);
            }
            if op == IrBinaryOp::And {
                assert((a & b) == (if a != 0 && b != 0 { 1i32 } else { 0i32 })) by (bit_vector)
                    requires
                        0 <= a <= 1,
                        0 <= b <= 1,
                ;
            }
            if op == IrBinaryOp::Or {
                assert((a | b) == (if a != 0 || b != 0 { 1i32 } else { 0i32 })) by (bit_vector)
                    requires
                        0 <= a <= 1,
                        0 <= b <= 1,
                ;
            }
        },
        IrBinaryOp::Eq | IrBinaryOp::NotEq | IrBinaryOp::Le | IrBinaryOp::Ge => {
            lemma_run_two(regs, s[0], s[1]);
            assert(s == seq![s[0], s[1]]);
            let r1 = run_line(regs, s[0])->Some_0;
            let x = read_reg(r1, dst);
            lemma_mnemonics_compute(x, 0);
            assert(((a ^ b) == 0) == (a == b)) by (bit_vector);
        },
        _ => {},
    }
}

/// Running `s1` then `s2` is running `s1 + s2`.
proof fn lemma_run_concat(regs: spec_fn(usize) -> i32, s1: Seq<AsmValue>, s2: Seq<AsmValue>)
    ensures
        run_lines(regs, s1 + s2) == match run_lines(regs, s1) {
            Some(r) => run_lines(r, s2),
            None => None,
        },
    decreases s1.len(),
{
    if s1.len() > 0 {
        assert((s1 + s2).subrange(1, (s1 + s2).len() as int) =~= s1.subrange(1, s1.len() as int) + s2);
        assert((s1 + s2)[0] == s1[0]);
        match run_line(regs, s1[0]) {
            Some(r2) => {
                lemma_run_concat(r2, s1.subrange(1, s1.len() as int), s2);
            },
            None => {},
        }
    } else {
        assert(s1 + s2 =~= s2);
    }
}

/// Whether the lines for `lhs op imm` may write `dst` while `lhs` is the
/// same register: only where they read `lhs` before they write `dst`.
pub open spec fn imm_alias_ok(op: IrBinaryOp, imm: i32, dst: RegID, lhs: RegID) -> bool {
    dst != lhs || match op {
        IrBinaryOp::Add | IrBinaryOp::Sub | IrBinaryOp::And | IrBinaryOp::Or | IrBinaryOp::Eq | IrBinaryOp::NotEq
        | IrBinaryOp::Ge => true,
        IrBinaryOp::Mul => imm == 0 || imm == 1 || is_pow2_imm(imm),
        IrBinaryOp::Div => imm == 1 || is_pow2_imm(imm),
        IrBinaryOp::Mod => is_pow2_imm(imm),
        _ => false,
    }
}

/// Running the lines that instruction selection emits for `lhs op imm`
/// with an immediate (`ir_binary_imm_lines`) leaves in `dst` the value of
/// the operation on the value of `lhs` and `imm` (`fold_value`), wherever
/// the machine computes it without overflow or division by zero. A
/// division or remainder by a power of two, done by a shift or a mask, is
/// exact for a dividend that is not negative.
pub proof fn lemma_ir_binary_imm_computes(op: IrBinaryOp, dst: RegID, lhs: RegID, imm: i32, regs: spec_fn(usize) -> i32)
    requires
        crate::codegen::program::ir_binary_supported(op),
        dst != zero_reg(),
        machine_defined(op, read_reg(regs, lhs), imm),
        op == IrBinaryOp::Sub ==> imm != i32::MIN,
        (op == IrBinaryOp::Div || op == IrBinaryOp::Mod) && is_pow2_imm(imm) ==> read_reg(regs, lhs) >= 0,
        imm_alias_ok(op, imm, dst, lhs),
    ensures
        run_lines(regs, ir_binary_imm_lines(op, dst, lhs, imm)) is Some,
        read_reg(run_lines(regs, ir_binary_imm_lines(op, dst, lhs, imm))->Some_0, dst) as int == fold_value(
            op,
            read_reg(regs, lhs) as int,
            imm as int,
        ),
{
    let a = read_reg(regs, lhs);
    lemma_mnemonics_compute(a, imm);
    let s = ir_binary_imm_lines(op, dst, lhs, imm);
    let li = seq![AsmValue::LoadImm(dst, imm)];
    let r_li = write_reg(regs, dst, imm);
    lemma_run_one(regs, AsmValue::LoadImm(dst, imm));
    match op {
        IrBinaryOp::Add | IrBinaryOp::Sub | IrBinaryOp::And | IrBinaryOp::Or => {
            lemma_mnemonics_compute(a, (-imm) as i32);
            lemma_run_one(regs, s[0]);
            assert(s == seq![s[0]]);
            if op == IrBinaryOp::Sub {
                assert(s[0] == AsmValue::BinaryImm(AsmBinaryOp::Addi, dst, lhs, (-imm) as i32));
                assert(wrap32(a + ((-imm) as i32)) as int == a - imm);
            }
            if op == IrBinaryOp::Add {
                assert(wrap32(a + imm) as int == a + imm);
            }
            if op == IrBinaryOp::And {
                assert((a & imm) == (if a != 0 && imm != 0 { 1i32 } else { 0i32 })) by (bit_vector)
                    requires
                        0 <= a <= 1,
                        0 <= imm <= 1,
                ;
            }
            if op == IrBinaryOp::Or {
                assert((a | imm) == (if a != 0 || imm != 0 { 1i32 } else { 0i32 })) by (bit_vector)
                    requires
                        0 <= a <= 1,
                        0 <= imm <= 1,
                ;
            }
            let out = run_line(regs, s[0])->Some_0;
            assert(read_reg(out, dst) == isa_binary(binary_op_text(s[0]->BinaryImm_0), a, s[0]->BinaryImm_3)->Some_0);
            if op == IrBinaryOp::Sub {
                assert(read_reg(out, dst) == wrap32(a + ((-imm) as i32)));
            } else if op == IrBinaryOp::And {
                assert(read_reg(out, dst) == (a & imm));
            } else if op == IrBinaryOp::Or {
                assert(read_reg(out, dst) == (a | imm));
            }
            assert(read_reg(out, dst) as int == fold_value(op, a as int, imm as int));
            assert(run_line(regs, s[0]) is Some);
            assert(run_lines(regs, s) == run_line(regs, s[0]));
            assert(run_lines(regs, s)->Some_0 == out);
        },
        IrBinaryOp::Eq | IrBinaryOp::NotEq | IrBinaryOp::Ge => {
            lemma_run_two(regs, s[0], s[1]);
            assert(s == seq![s[0], s[1]]);
            let r1 = run_line(regs, s[0])->Some_0;
            lemma_mnemonics_compute(read_reg(r1, dst), 0);
            assert(((a ^ imm) == 0) == (a == imm)) by (bit_vector);
            assert(read_reg(run_lines(regs, s)->Some_0, dst) as int == fold_value(op, a as int, imm as int));
        },
        IrBinaryOp::Mul | IrBinaryOp::Div | IrBinaryOp::Mod => {
            let last = if op == IrBinaryOp::Mul {
                AsmBinaryOp::Mul
            } else if op == IrBinaryOp::Div {
                AsmBinaryOp::Div
            } else {
                AsmBinaryOp::Rem
            };
            let general = seq![AsmValue::LoadImm(dst, imm), AsmValue::Binary(last, dst, lhs, dst)];
            if s == general {
                assert(dst != lhs) by {
                    if dst == lhs {
                        assert(op == IrBinaryOp::Mul ==> imm == 0 || imm == 1 || is_pow2_imm(imm));
                    }
                }
                lemma_run_two(regs, s[0], s[1]);
                assert(read_reg(r_li, lhs) == a);
                assert(read_reg(r_li, dst) == imm);
                if op == IrBinaryOp::Div || op == IrBinaryOp::Mod {
                    crate::ast::exp::lemma_trunc_div_rem_in_range(a as int, imm as int);
                }
                assert(read_reg(run_lines(regs, s)->Some_0, dst) as int == fold_value(op, a as int, imm as int));
            } else if s.len() == 0 {
                assert(dst == lhs);
                assert(read_reg(run_lines(regs, s)->Some_0, dst) as int == fold_value(op, a as int, imm as int));
            } else if s.len() == 1 && s[0] is Unary {
                lemma_run_one(regs, s[0]);
                assert(s == seq![s[0]]);
                assert(read_reg(run_lines(regs, s)->Some_0, dst) as int == fold_value(op, a as int, imm as int));
            } else {
                lemma_run_one(regs, s[0]);
                assert(s == seq![s[0]]);
                lemma_pow2_imm(imm);
                let k = shift_of(imm);
                lemma_mnemonics_compute(a, k);
                assert(k % 32 == k);
                if op == IrBinaryOp::Mod {
                    let m = (imm - 1) as i32;
                    vstd::bits::lemma_u32_low_bits_mask_is_mod(a as u32, k as nat);
                    assert(vstd::bits::low_bits_mask(k as nat) == imm - 1);
                    assert((a & m) == ((a as u32) & (m as u32)) as i32) by (bit_vector)
                        requires
                            a >= 0,
                            m >= 0,
                    ;
                    assert((a as u32) as int == a as int);
                    assert((imm as u32) as int == imm as int);
                    assert((vstd::bits::low_bits_mask(k as nat) as u32) == (m as u32));
                    assert((vstd::arithmetic::power2::pow2(k as nat) as u32) == (imm as u32));
                    assert(((a as u32) % (imm as u32)) as int == (a as int) % (imm as int));
                    lemma_mnemonics_compute(a, m);
                    assert(isa_binary(binary_op_text(AsmBinaryOp::Andi), a, m) == Some(a & m));
                    assert((a & m) as int == (a as int) % (imm as int));
                } else if op == IrBinaryOp::Mul {
                    assert(isa_binary(binary_op_text(AsmBinaryOp::Slli), a, k) == Some(
                        wrap32(a * vstd::arithmetic::power2::pow2((k % 32) as nat)),
                    )) by {
                        lemma_reveal_mnemonics();
                    }
                    assert(a * vstd::arithmetic::power2::pow2((k % 32) as nat) == a * imm);
                } else {
                    assert(isa_binary(binary_op_text(AsmBinaryOp::Srai), a, k) == Some(
                        (a as int / vstd::arithmetic::power2::pow2((k % 32) as nat) as int) as i32,
                    )) by {
                        lemma_reveal_mnemonics();
                    }
                    assert(0 <= a as int / imm as int <= a) by (nonlinear_arith)
                        requires
                            a >= 0,
                            imm >= 1,
                    ;
                }
                assert(read_reg(run_lines(regs, s)->Some_0, dst) as int == fold_value(op, a as int, imm as int));
            }
        },
        _ => {
            assert(s == li + ir_binary_lines(op, dst, lhs, dst));
            lemma_run_concat(regs, li, ir_binary_lines(op, dst, lhs, dst));
            assert(read_reg(r_li, lhs) == a);
            assert(read_reg(r_li, dst) == imm);
            lemma_ir_binary_computes(op, dst, lhs, dst, r_li);
            assert(read_reg(run_lines(regs, s)->Some_0, dst) as int == fold_value(op, a as int, imm as int));
        },
    }
}

} // verus!
