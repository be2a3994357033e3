use vstd::prelude::*;

use crate::codegen::context::{reg_name, IntoName, RegID, NUM_REGS};
use crate::codegen::program::{
    reg_form, sp_reg, t0_reg, AsmBinaryOp, AsmProgram, AsmUnaryOp, AsmValue, BranchOp, Directive,
};
use crate::decimal::{dec_int, dec_nat, push_dec, push_int};

verus! {

/// The assembler name of a register.
pub open spec fn reg_text(r: RegID) -> Seq<char> {
    reg_name(r.0 as int)
}

/// The mnemonic of a binary operator.
pub open spec fn binary_op_text(op: AsmBinaryOp) -> Seq<char> {
    match op {
        AsmBinaryOp::Add => "add"@,
        AsmBinaryOp::Addi => "addi"@,
        AsmBinaryOp::Sub => "sub"@,
        AsmBinaryOp::Mul => "mul"@,
        AsmBinaryOp::Div => "div"@,
        AsmBinaryOp::Rem => "rem"@,
        AsmBinaryOp::And => "and"@,
        AsmBinaryOp::Andi => "andi"@,
        AsmBinaryOp::Or => "or"@,
        AsmBinaryOp::Ori => "ori"@,
        AsmBinaryOp::Slt => "slt"@,
        AsmBinaryOp::Slti => "slti"@,
        AsmBinaryOp::Sgt => "sgt"@,
        AsmBinaryOp::Xor => "xor"@,
        AsmBinaryOp::Xori => "xori"@,
        AsmBinaryOp::Slli => "slli"@,
        AsmBinaryOp::Srai => "srai"@,
    }
}

/// The mnemonic of a unary operator.
pub open spec fn unary_op_text(op: AsmUnaryOp) -> Seq<char> {
    match op {
        AsmUnaryOp::Seqz => "seqz"@,
        AsmUnaryOp::Snez => "snez"@,
        AsmUnaryOp::Move => "mv"@,
    }
}

/// The mnemonic of a branch.
pub open spec fn branch_op_text(op: BranchOp) -> Seq<char> {
    match op {
        BranchOp::Bnez => "bnez"@,
        BranchOp::Beqz => "beqz"@,
        BranchOp::Blt => "blt"@,
        BranchOp::Bgt => "bgt"@,
        BranchOp::Beq => "beq"@,
        BranchOp::Bne => "bne"@,
    }
}

/// Whether an immediate fits in the 12 bits of an I-type instruction.
pub open spec fn fits_imm12(x: i32) -> bool {
    -2048 <= x <= 2047
}

/// Whether a binary operator has a register form to fall back on.
pub open spec fn has_reg_form(op: AsmBinaryOp) -> bool {
    op == AsmBinaryOp::Addi || op == AsmBinaryOp::Andi || op == AsmBinaryOp::Ori || op == AsmBinaryOp::Slti
        || op == AsmBinaryOp::Xori
}

pub open spec fn segment_text(name: Seq<char>) -> Seq<char> {
    "  ."@ + name + "\n"@
}

pub open spec fn li_text(dst: RegID, imm: i32) -> Seq<char> {
    "  li "@ + reg_text(dst) + ", "@ + dec_int(imm as int) + "\n"@
}

pub open spec fn mem_access_text(method: Seq<char>, rd1: RegID, rd2: RegID, offset: i32) -> Seq<char> {
    "  "@ + method + " "@ + reg_text(rd1) + ", "@ + dec_int(offset as int) + "("@ + reg_text(rd2) + ")\n"@
}

pub open spec fn binary_text(op: AsmBinaryOp, dst: RegID, lhs: RegID, rhs: RegID) -> Seq<char> {
    "  "@ + binary_op_text(op) + " "@ + reg_text(dst) + ", "@ + reg_text(lhs) + ", "@ + reg_text(rhs) + "\n"@
}

/// An operation with an immediate; one that does not fit is loaded into a
/// register first (`t0` when the destination is `sp`).
pub open spec fn binary_imm_text(op: AsmBinaryOp, dst: RegID, opr: RegID, imm: i32) -> Seq<char> {
    if fits_imm12(imm) {
        "  "@ + binary_op_text(op) + " "@ + reg_text(dst) + ", "@ + reg_text(opr) + ", "@ + dec_int(imm as int)
            + "\n"@
    } else {
        let tmp = if dst == sp_reg() {
            t0_reg()
        } else {
            dst
        };
        li_text(tmp, imm) + binary_text(reg_form(op), dst, opr, tmp)
    }
}

pub open spec fn lw_text(dst: RegID, src: RegID, offset: i32) -> Seq<char> {
    if fits_imm12(offset) {
        mem_access_text("lw"@, dst, src, offset)
    } else {
        binary_imm_text(AsmBinaryOp::Addi, dst, src, offset) + mem_access_text("lw"@, dst, dst, 0)
    }
}

pub open spec fn sw_text(src: RegID, dst: RegID, offset: i32) -> Seq<char> {
    if fits_imm12(offset) {
        mem_access_text("sw"@, src, dst, offset)
    } else {
        binary_imm_text(AsmBinaryOp::Addi, t0_reg(), dst, offset) + mem_access_text("sw"@, src, t0_reg(), 0)
    }
}

pub open spec fn la_text(dst: RegID, name: Seq<char>) -> Seq<char> {
    "  la "@ + reg_text(dst) + ", "@ + name + "\n"@
}

pub open spec fn j_text(target: Seq<char>) -> Seq<char> {
    "  j "@ + target + "\n"@
}

pub open spec fn branch_text(op: BranchOp, lhs: RegID, rhs: RegID, target: Seq<char>) -> Seq<char> {
    match op {
        BranchOp::Bnez => "  bnez "@ + reg_text(lhs) + ", "@ + target + "\n"@,
        BranchOp::Beqz => "  beqz "@ + reg_text(lhs) + ", "@ + target + "\n"@,
        _ => "  "@ + branch_op_text(op) + " "@ + reg_text(lhs) + ", "@ + reg_text(rhs) + ", "@ + target + "\n"@,
    }
}

pub open spec fn unary_text(op: AsmUnaryOp, dst: RegID, opr: RegID) -> Seq<char> {
    "  "@ + unary_op_text(op) + " "@ + reg_text(dst) + ", "@ + reg_text(opr) + "\n"@
}

pub open spec fn call_text(callee: Seq<char>) -> Seq<char> {
    "  call "@ + callee + "\n"@
}

pub open spec fn ret_text() -> Seq<char> {
    "  ret\n"@
}

pub open spec fn local_symbol_text(name: Seq<char>) -> Seq<char> {
    name + ":\n"@
}

pub open spec fn global_symbol_text(name: Seq<char>) -> Seq<char> {
    "  .globl "@ + name + "\n"@ + name + ":\n"@
}

pub open spec fn zero_text(size: nat) -> Seq<char> {
    "  .zero "@ + dec_nat(size) + "\n"@
}

pub open spec fn word_text(val: i32) -> Seq<char> {
    "  .word "@ + dec_int(val as int) + "\n"@
}

pub open spec fn directive_text(d: Directive) -> Seq<char> {
    match d {
        Directive::Data => segment_text("data"@),
        Directive::Text => segment_text("text"@),
        Directive::Word(val) => word_text(val),
        Directive::Zero(size) => zero_text(size as nat),
    }
}

/// The text of one line (or two, where an immediate does not fit) of a program.
pub open spec fn value_text(v: AsmValue) -> Seq<char> {
    match v {
        AsmValue::LoadAddress(dst, lable) => la_text(dst, lable@),
        AsmValue::LoadImm(dst, imm) => li_text(dst, imm),
        AsmValue::Load(dst, src, offset) => lw_text(dst, src, offset),
        AsmValue::Store(src, dst, offset) => sw_text(src, dst, offset),
        AsmValue::Unary(op, dst, opr) => unary_text(op, dst, opr),
        AsmValue::Binary(op, dst, lhs, rhs) => binary_text(op, dst, lhs, rhs),
        AsmValue::BinaryImm(op, dst, lhs, imm) => binary_imm_text(op, dst, lhs, imm),
        AsmValue::Directive(d) => directive_text(d),
        AsmValue::Call(lable) => call_text(lable@),
        AsmValue::Branch(op, lhs, rhs, target) => branch_text(op, lhs, rhs, target@),
        AsmValue::Jump(target) => j_text(target@),
        AsmValue::LocalSymbol(lable) => local_symbol_text(lable@),
        AsmValue::GlobalSymbol(lable) => global_symbol_text(lable@),
        AsmValue::Return => ret_text(),
    }
}

/// The text of a whole program.
pub open spec fn program_text(s: Seq<AsmValue>) -> Seq<char>
    decreases s.len(),
{
    if s.len() == 0 {
        Seq::empty()
    } else {
        program_text(s.drop_last()) + value_text(s.last())
    }
}

pub open spec fn valid_reg(r: RegID) -> bool {
    r.0 < NUM_REGS
}

/// Whether a line can be written: its registers exist, and an immediate that
/// does not fit comes with an operator that has a register form.
pub open spec fn writable(v: AsmValue) -> bool {
    match v {
        AsmValue::LoadAddress(dst, _) => valid_reg(dst),
        AsmValue::LoadImm(dst, _) => valid_reg(dst),
        AsmValue::Load(dst, src, _) => valid_reg(dst) && valid_reg(src),
        AsmValue::Store(src, dst, _) => valid_reg(dst) && valid_reg(src),
        AsmValue::Unary(_, dst, opr) => valid_reg(dst) && valid_reg(opr),
        AsmValue::Binary(_, dst, lhs, rhs) => valid_reg(dst) && valid_reg(lhs) && valid_reg(rhs),
        AsmValue::BinaryImm(op, dst, lhs, imm) => valid_reg(dst) && valid_reg(lhs) && (fits_imm12(imm)
            || has_reg_form(op)),
        AsmValue::Branch(_, lhs, rhs, _) => valid_reg(lhs) && valid_reg(rhs),
        _ => true,
    }
}

impl AsmBinaryOp {
    /// The mnemonic of the operator.
    pub fn name(&self) -> (r: &'static str)
        ensures
            r@ == binary_op_text(*self),
    {
        match self {
            AsmBinaryOp::Add => "add",
            AsmBinaryOp::Addi => "addi",
            AsmBinaryOp::Sub => "sub",
            AsmBinaryOp::Mul => "mul",
            AsmBinaryOp::Div => "div",
            AsmBinaryOp::Rem => "rem",
            AsmBinaryOp::And => "and",
            AsmBinaryOp::Andi => "andi",
            AsmBinaryOp::Or => "or",
            AsmBinaryOp::Ori => "ori",
            AsmBinaryOp::Slt => "slt",
            AsmBinaryOp::Slti => "slti",
            AsmBinaryOp::Sgt => "sgt",
            AsmBinaryOp::Xor => "xor",
            AsmBinaryOp::Xori => "xori",
            AsmBinaryOp::Slli => "slli",
            AsmBinaryOp::Srai => "srai",
        }
    }
}

impl AsmUnaryOp {
    /// The mnemonic of the operator.
    pub fn name(&self) -> (r: &'static str)
        ensures
            r@ == unary_op_text(*self),
    {
        match self {
            AsmUnaryOp::Seqz => "seqz",
            AsmUnaryOp::Snez => "snez",
            AsmUnaryOp::Move => "mv",
        }
    }
}

impl BranchOp {
    /// The mnemonic of the branch.
    pub fn name(&self) -> (r: &'static str)
        ensures
            r@ == branch_op_text(*self),
    {
        match self {
            BranchOp::Bnez => "bnez",
            BranchOp::Beqz => "beqz",
            BranchOp::Blt => "blt",
            BranchOp::Bgt => "bgt",
            BranchOp::Beq => "beq",
            BranchOp::Bne => "bne",
        }
    }
}

/// Writes RISC-V assembly text.
pub struct AsmWriter {
    out: String,
}

impl View for AsmWriter {
    type V = Seq<char>;

    closed spec fn view(&self) -> Seq<char> {
        self.out@
    }
}

impl AsmWriter {
    /// A writer with nothing written yet.
    pub fn new() -> (r: Self)
        ensures
            r@ == Seq::<char>::empty(),
    {
        AsmWriter { out: String::new() }
    }

    /// The text written so far.
    pub fn as_str(&self) -> (r: &str)
        ensures
            r@ == self@,
    {
        self.out.as_str()
    }

    fn put(&mut self, s: &str)
        ensures
            final(self)@ == old(self)@ + s@,
    {
        self.out.append(s);
    }

    fn put_reg(&mut self, r: RegID)
        requires
            valid_reg(r),
        ensures
            final(self)@ == old(self)@ + reg_text(r),
    {
        self.out.append(r.into_name());
    }

    fn put_int(&mut self, x: i32)
        ensures
            final(self)@ == old(self)@ + dec_int(x as int),
    {
        push_int(&mut self.out, x as i64);
    }

    pub fn segment(&mut self, name: &str)
        ensures
            final(self)@ == old(self)@ + segment_text(name@),
    {
        self.put("  .");
        self.put(name);
        self.put("\n");
    }

    pub fn li(&mut self, dst: RegID, imm: i32)
        requires
            valid_reg(dst),
        ensures
            final(self)@ == old(self)@ + li_text(dst, imm),
    {
        self.put("  li ");
        self.put_reg(dst);
        self.put(", ");
        self.put_int(imm);
        self.put("\n");
    }

    pub fn mem_access(&mut self, method: &str, rd1: RegID, rd2: RegID, offset: i32)
        requires
            valid_reg(rd1),
            valid_reg(rd2),
        ensures
            final(self)@ == old(self)@ + mem_access_text(method@, rd1, rd2, offset),
    {
        self.put("  ");
        self.put(method);
        self.put(" ");
        self.put_reg(rd1);
        self.put(", ");
        self.put_int(offset);
        self.put("(");
        self.put_reg(rd2);
        self.put(")\n");
    }

    pub fn lw(&mut self, dst: RegID, src: RegID, offset: i32)
        requires
            valid_reg(dst),
            valid_reg(src),
        ensures
            final(self)@ == old(self)@ + lw_text(dst, src, offset),
    {
        if -2048 <= offset && offset <= 2047 {
            self.mem_access("lw", dst, src, offset);
        } else {
            self.binary_with_imm(&AsmBinaryOp::Addi, dst, src, offset);
            self.mem_access("lw", dst, dst, 0);
        }
    }

    pub fn la(&mut self, dst: RegID, name: &str)
        requires
            valid_reg(dst),
        ensures
            final(self)@ == old(self)@ + la_text(dst, name@),
    {
        self.put("  la ");
        self.put_reg(dst);
        self.put(", ");
        self.put(name);
        self.put("\n");
    }

    pub fn sw(&mut self, src: RegID, dst: RegID, offset: i32)
        requires
            valid_reg(src),
            valid_reg(dst),
        ensures
            final(self)@ == old(self)@ + sw_text(src, dst, offset),
    {
        if -2048 <= offset && offset <= 2047 {
            self.mem_access("sw", src, dst, offset);
        } else {
            let tmp = RegID(5);
            self.binary_with_imm(&AsmBinaryOp::Addi, tmp, dst, offset);
            self.mem_access("sw", src, tmp, 0);
        }
    }

    pub fn j(&mut self, target: &str)
        ensures
            final(self)@ == old(self)@ + j_text(target@),
    {
        self.put("  j ");
        self.put(target);
        self.put("\n");
    }

    pub fn branch(&mut self, op: &BranchOp, lhs: RegID, rhs: RegID, target: &str)
        requires
            valid_reg(lhs),
            valid_reg(rhs),
        ensures
            final(self)@ == old(self)@ + branch_text(*op, lhs, rhs, target@),
    {
        match op {
            BranchOp::Bnez => {
                self.put("  bnez ");
                self.put_reg(lhs);
            },
            BranchOp::Beqz => {
                self.put("  beqz ");
                self.put_reg(lhs);
            },
            _ => {
                self.put("  ");
                self.put(op.name());
                self.put(" ");
                self.put_reg(lhs);
                self.put(", ");
                self.put_reg(rhs);
            },
        }
        self.put(", ");
        self.put(target);
        self.put("\n");
    }

    pub fn unary(&mut self, op: &AsmUnaryOp, dst: RegID, opr: RegID)
        requires
            valid_reg(dst),
            valid_reg(opr),
        ensures
            final(self)@ == old(self)@ + unary_text(*op, dst, opr),
    {
        self.put("  ");
        self.put(op.name());
        self.put(" ");
        self.put_reg(dst);
        self.put(", ");
        self.put_reg(opr);
        self.put("\n");
    }

    pub fn binary(&mut self, op: &AsmBinaryOp, dst: RegID, lhs: RegID, rhs: RegID)
        requires
            valid_reg(dst),
            valid_reg(lhs),
            valid_reg(rhs),
        ensures
            final(self)@ == old(self)@ + binary_text(*op, dst, lhs, rhs),
    {
        self.put("  ");
        self.put(op.name());
        self.put(" ");
        self.put_reg(dst);
        self.put(", ");
        self.put_reg(lhs);
        self.put(", ");
        self.put_reg(rhs);
        self.put("\n");
    }

    pub fn binary_with_imm(&mut self, op: &AsmBinaryOp, dst: RegID, opr: RegID, imm: i32)
        requires
            valid_reg(dst),
            valid_reg(opr),
            fits_imm12(imm) || has_reg_form(*op),
        ensures
            final(self)@ == old(self)@ + binary_imm_text(*op, dst, opr, imm),
    {
        if -2048 <= imm && imm <= 2047 {
            self.put("  ");
            self.put(op.name());
            self.put(" ");
            self.put_reg(dst);
            self.put(", ");
            self.put_reg(opr);
            self.put(", ");
            self.put_int(imm);
            self.put("\n");
        } else {
            let tmp = if dst == RegID(2) {
                RegID(5)
            } else {
                dst
            };
            self.li(tmp, imm);
            self.binary(&op.into_reg_type(), dst, opr, tmp);
        }
    }

    pub fn call(&mut self, callee: &str)
        ensures
            final(self)@ == old(self)@ + call_text(callee@),
    {
        self.put("  call ");
        self.put(callee);
        self.put("\n");
    }

    pub fn ret(&mut self)
        ensures
            final(self)@ == old(self)@ + ret_text(),
    {
        self.put("  ret\n");
    }

    pub fn local_symbol(&mut self, name: &str)
        ensures
            final(self)@ == old(self)@ + local_symbol_text(name@),
    {
        self.put(name);
        self.put(":\n");
    }

    pub fn global_symbol(&mut self, name: &str)
        ensures
            final(self)@ == old(self)@ + global_symbol_text(name@),
    {
        self.put("  .globl ");
        self.put(name);
        self.put("\n");
        self.put(name);
        self.put(":\n");
    }

    pub fn zero(&mut self, size: usize)
        ensures
            final(self)@ == old(self)@ + zero_text(size as nat),
    {
        self.put("  .zero ");
        push_dec(&mut self.out, size as u64);
        self.put("\n");
    }

    pub fn word(&mut self, val: i32)
        ensures
            final(self)@ == old(self)@ + word_text(val),
    {
        self.put("  .word ");
        self.put_int(val);
        self.put("\n");
    }

    fn directive(&mut self, directive: &Directive)
        ensures
            final(self)@ == old(self)@ + directive_text(*directive),
    {
        match directive {
            Directive::Data => self.segment("data"),
            Directive::Text => self.segment("text"),
            Directive::Word(val) => self.word(*val),
            Directive::Zero(size) => self.zero(*size),
        }
    }

    fn value(&mut self, value: &AsmValue)
        requires
            writable(*value),
        ensures
            final(self)@ == old(self)@ + value_text(*value),
    {
        match value {
            AsmValue::LoadAddress(dst, lable) => self.la(*dst, lable.as_str()),
            AsmValue::LoadImm(dst, imm) => self.li(*dst, *imm),
            AsmValue::Load(dst, src, offset) => self.lw(*dst, *src, *offset),
            AsmValue::Store(src, dst, offset) => self.sw(*src, *dst, *offset),
            AsmValue::Unary(op, dst, opr) => self.unary(op, *dst, *opr),
            AsmValue::Binary(op, dst, lhs, rhs) => self.binary(op, *dst, *lhs, *rhs),
            AsmValue::BinaryImm(op, dst, lhs, imm) => self.binary_with_imm(op, *dst, *lhs, *imm),
            AsmValue::Directive(directive) => self.directive(directive),
            AsmValue::Call(label) => self.call(label.as_str()),
            AsmValue::Branch(op, lhs, rhs, target) => self.branch(op, *lhs, *rhs, target.as_str()),
            AsmValue::Jump(target) => self.j(target.as_str()),
            AsmValue::LocalSymbol(label) => self.local_symbol(label.as_str()),
            AsmValue::GlobalSymbol(label) => self.global_symbol(label.as_str()),
            AsmValue::Return => self.ret(),
        }
    }

    /// Writes every line of `program`, in order.
    pub fn write_program(&mut self, program: &AsmProgram)
        requires
            forall|i: int| 0 <= i < program.values@.len() ==> writable(#[trigger] program.values@[i]),
        ensures
            final(self)@ == old(self)@ + program_text(program.values@),
    {
        let mut i: usize = 0;
        while i < program.values.len()
            invariant
                i <= program.values@.len(),
                forall|k: int| 0 <= k < program.values@.len() ==> writable(#[trigger] program.values@[k]),
                self@ == old(self)@ + program_text(program.values@.subrange(0, i as int)),
            decreases program.values@.len() - i,
        {
            self.value(&program.values[i]);
            proof {
                let s = program.values@.subrange(0, i + 1);
                assert(s.drop_last() =~= program.values@.subrange(0, i as int));
                assert(s.last() == program.values@[i as int]);
            }
            i = i + 1;
        }
        assert(program.values@.subrange(0, i as int) =~= program.values@);
    }
}

} // verus!
