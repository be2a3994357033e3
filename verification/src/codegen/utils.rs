use vstd::prelude::*;

use crate::codegen::program::IrBinaryOp;
use crate::decimal::{dec_int, dec_nat, push_dec, push_int};

verus! {

/// `  op a, b, c`
pub open spec fn asm3(op: Seq<char>, a: Seq<char>, b: Seq<char>, c: Seq<char>) -> Seq<char> {
    "  "@ + op + " "@ + a + ", "@ + b + ", "@ + c + "\n"@
}

/// `  op a, b`
pub open spec fn asm2(op: Seq<char>, a: Seq<char>, b: Seq<char>) -> Seq<char> {
    "  "@ + op + " "@ + a + ", "@ + b + "\n"@
}

/// `  op a, off(base)`
pub open spec fn asm_mem(op: Seq<char>, a: Seq<char>, off: int, base: Seq<char>) -> Seq<char> {
    "  "@ + op + " "@ + a + ", "@ + dec_int(off) + "("@ + base + ")\n"@
}

/// Whether an immediate fits in 12 signed bits.
pub open spec fn fits_12(x: int) -> bool {
    -2048 <= x <= 2047
}

pub open spec fn asm_li(dst: Seq<char>, imm: int) -> Seq<char> {
    asm2("li"@, dst, dec_int(imm))
}

/// `addi`, or, where the immediate does not fit, the immediate loaded into
/// `tmp` and added (the line is written `add,` with a comma).
pub open spec fn asm_addi(dst: Seq<char>, opr: Seq<char>, imm: int, tmp: Seq<char>) -> Seq<char> {
    if fits_12(imm) {
        asm3("addi"@, dst, opr, dec_int(imm))
    } else {
        asm_li(tmp, imm) + asm3("add,"@, dst, opr, tmp)
    }
}

pub open spec fn asm_lw(dst: Seq<char>, src: Seq<char>, off: int, tmp: Seq<char>) -> Seq<char> {
    if fits_12(off) {
        asm_mem("lw"@, dst, off, src)
    } else {
        asm_addi(tmp, src, off, tmp) + asm_mem("lw"@, dst, 0, tmp)
    }
}

pub open spec fn asm_sw(src: Seq<char>, dst: Seq<char>, off: int, tmp: Seq<char>) -> Seq<char> {
    if fits_12(off) {
        asm_mem("sw"@, src, off, dst)
    } else {
        asm_addi(tmp, dst, off, tmp) + asm_mem("sw"@, src, 0, tmp)
    }
}

/// The operators that `binary` can write.
pub open spec fn generator_supports(op: IrBinaryOp) -> bool {
    !(op is Xor || op is Shl || op is Shr || op is Sar)
}

/// The lines of `dst = lhs op rhs`; comparisons for (in)equality and `<=`,
/// `>=` overwrite `lhs` with an intermediate result.
pub open spec fn asm_binary(op: IrBinaryOp, lhs: Seq<char>, rhs: Seq<char>, dst: Seq<char>) -> Seq<char> {
    match op {
        IrBinaryOp::Add => asm3("add"@, dst, lhs, rhs),
        IrBinaryOp::Sub => asm3("sub"@, dst, lhs, rhs),
        IrBinaryOp::Mul => asm3("mul"@, dst, lhs, rhs),
        IrBinaryOp::Div => asm3("div"@, dst, lhs, rhs),
        IrBinaryOp::Mod => asm3("rem"@, dst, lhs, rhs),
        IrBinaryOp::And => asm3("and"@, dst, lhs, rhs),
        IrBinaryOp::Or => asm3("or"@, dst, lhs, rhs),
        IrBinaryOp::Lt => asm3("slt"@, dst, lhs, rhs),
        IrBinaryOp::Gt => asm3("sgt"@, dst, lhs, rhs),
        IrBinaryOp::Eq => asm3("xor"@, lhs, lhs, rhs) + asm2("seqz"@, dst, lhs),
        IrBinaryOp::NotEq => asm3("xor"@, lhs, lhs, rhs) + asm2("snez"@, dst, lhs),
        IrBinaryOp::Le => asm3("sgt"@, lhs, lhs, rhs) + asm2("seqz"@, dst, lhs),
        IrBinaryOp::Ge => asm3("slt"@, lhs, lhs, rhs) + asm2("seqz"@, dst, lhs),
        _ => Seq::empty(),
    }
}

/// A global word, zero or initialised, named `var` and its number.
pub open spec fn asm_global_alloc(init: int, id: nat) -> Seq<char> {
    "  .data\n"@ + "  .globl var"@ + dec_nat(id) + "\n"@ + "var"@ + dec_nat(id) + ":\n"@ + (if init == 0 {
        "  .zero 4\n"@
    } else {
        "  .word "@ + dec_int(init) + "\n"@
    }) + "\n"@
}

pub open spec fn asm_prologue(func_name: Seq<char>, ss: int, is_leaf: bool, tmp: Seq<char>) -> Seq<char> {
    "  .text\n"@ + "  .globl "@ + func_name + "\n"@ + func_name + ":\n"@ + asm_addi("sp"@, "sp"@, -ss, tmp) + (
    if !is_leaf {
        asm_sw("ra"@, "sp"@, ss - 4, tmp)
    } else {
        Seq::empty()
    })
}

pub open spec fn asm_epilogue(ss: int, is_leaf: bool, tmp: Seq<char>) -> Seq<char> {
    (if !is_leaf {
        asm_lw("ra"@, "sp"@, ss - 4, tmp)
    } else {
        Seq::empty()
    }) + asm_addi("sp"@, "sp"@, ss, tmp) + "  ret\n"@ + "\n"@
}

/// The text that saves (`save`) or reloads the return address at the top
/// of a frame of `ss` bytes: nothing for a leaf function.
pub open spec fn ra_slot_text(save: bool, ss: int, is_leaf: bool, tmp: Seq<char>) -> Seq<char> {
    if is_leaf {
        Seq::empty()
    } else if save {
        asm_sw("ra"@, "sp"@, ss - 4, tmp)
    } else {
        asm_lw("ra"@, "sp"@, ss - 4, tmp)
    }
}

/// The frame that a prologue opens, the epilogue written with the same size
/// and leaf flag closes: the prologue moves `sp` down by `ss` and the
/// epilogue moves it up by `ss`, and the return address, where it is saved,
/// is saved to and reloaded from the same slot, `ss - 4` above `sp`.
pub proof fn lemma_generator_frame_balanced(name: Seq<char>, ss: int, is_leaf: bool, tmp: Seq<char>)
    ensures
        asm_prologue(name, ss, is_leaf, tmp) == "  .text\n"@ + "  .globl "@ + name + "\n"@ + name + ":\n"@ + asm_addi(
            "sp"@,
            "sp"@,
            -ss,
            tmp,
        ) + ra_slot_text(true, ss, is_leaf, tmp),
        asm_epilogue(ss, is_leaf, tmp) == ra_slot_text(false, ss, is_leaf, tmp) + asm_addi("sp"@, "sp"@, ss, tmp)
            + "  ret\n"@ + "\n"@,
        -(-ss) == ss,
{
}

/// Writes RISC-V assembly text straight from register names, with one
/// register set aside for immediates that do not fit.
pub struct AsmGenerator<'a> {
    out: String,
    tmpr: &'a str,
}

impl<'a> View for AsmGenerator<'a> {
    type V = Seq<char>;

    closed spec fn view(&self) -> Seq<char> {
        self.out@
    }
}

impl<'a> AsmGenerator<'a> {
    /// The register set aside for immediates.
    pub closed spec fn tmp(&self) -> Seq<char> {
        self.tmpr@
    }

    /// A generator with nothing written yet.
    pub fn new(tmpr: &'a str) -> (r: Self)
        ensures
            r@ == Seq::<char>::empty(),
            r.tmp() == tmpr@,
    {
        AsmGenerator { out: String::new(), tmpr }
    }

    /// The text written so far.
    pub fn as_str(&self) -> (r: &str)
        ensures
            r@ == self@,
    {
        self.out.as_str()
    }

    fn put(&mut self, s: &str)
        ensures
            final(self)@ == old(self)@ + s@,
            final(self).tmp() == old(self).tmp(),
    {
        self.out.append(s);
    }

    fn put_int(&mut self, x: i64)
        ensures
            final(self)@ == old(self)@ + dec_int(x as int),
            final(self).tmp() == old(self).tmp(),
    {
        push_int(&mut self.out, x);
    }

    fn line3(&mut self, op: &str, a: &str, b: &str, c: &str)
        ensures
            final(self)@ == old(self)@ + asm3(op@, a@, b@, c@),
            final(self).tmp() == old(self).tmp(),
    {
        self.put("  ");
        self.put(op);
        self.put(" ");
        self.put(a);
        self.put(", ");
        self.put(b);
        self.put(", ");
        self.put(c);
        self.put("\n");
    }

    fn line2(&mut self, op: &str, a: &str, b: &str)
        ensures
            final(self)@ == old(self)@ + asm2(op@, a@, b@),
            final(self).tmp() == old(self).tmp(),
    {
        self.put("  ");
        self.put(op);
        self.put(" ");
        self.put(a);
        self.put(", ");
        self.put(b);
        self.put("\n");
    }

    fn mem(&mut self, op: &str, a: &str, off: i32, base: &str)
        ensures
            final(self)@ == old(self)@ + asm_mem(op@, a@, off as int, base@),
            final(self).tmp() == old(self).tmp(),
    {
        self.put("  ");
        self.put(op);
        self.put(" ");
        self.put(a);
        self.put(", ");
        self.put_int(off as i64);
        self.put("(");
        self.put(base);
        self.put(")\n");
    }

    pub fn addi(&mut self, dst: &str, opr: &str, imm: i32)
        ensures
            final(self)@ == old(self)@ + asm_addi(dst@, opr@, imm as int, old(self).tmp()),
            final(self).tmp() == old(self).tmp(),
    {
        if imm >= -2048 && imm <= 2047 {
            self.put("  ");
            self.put("addi");
            self.put(" ");
            self.put(dst);
            self.put(", ");
            self.put(opr);
            self.put(", ");
            self.put_int(imm as i64);
            self.put("\n");
        } else {
            let tmpr = self.tmpr;
            self.li(tmpr, imm);
            self.line3("add,", dst, opr, tmpr);
        }
    }

    pub fn li(&mut self, dst: &str, imm: i32)
        ensures
            final(self)@ == old(self)@ + asm_li(dst@, imm as int),
            final(self).tmp() == old(self).tmp(),
    {
        self.put("  ");
        self.put("li");
        self.put(" ");
        self.put(dst);
        self.put(", ");
        self.put_int(imm as i64);
        self.put("\n");
    }

    pub fn lw(&mut self, dst: &str, src: &str, off: i32)
        ensures
            final(self)@ == old(self)@ + asm_lw(dst@, src@, off as int, old(self).tmp()),
            final(self).tmp() == old(self).tmp(),
    {
        if off >= -2048 && off <= 2047 {
            self.mem("lw", dst, off, src);
        } else {
            let tmpr = self.tmpr;
            self.addi(tmpr, src, off);
            self.mem("lw", dst, 0, tmpr);
        }
    }

    pub fn la(&mut self, dst: &str, src: &str)
        ensures
            final(self)@ == old(self)@ + asm2("la"@, dst@, src@),
            final(self).tmp() == old(self).tmp(),
    {
        self.line2("la", dst, src);
    }

    pub fn mv(&mut self, dst: &str, src: &str)
        ensures
            final(self)@ == old(self)@ + asm2("mv"@, dst@, src@),
            final(self).tmp() == old(self).tmp(),
    {
        self.line2("mv", dst, src);
    }

    pub fn sw(&mut self, src: &str, dst: &str, off: i32)
        ensures
            final(self)@ == old(self)@ + asm_sw(src@, dst@, off as int, old(self).tmp()),
            final(self).tmp() == old(self).tmp(),
    {
        if off >= -2048 && off <= 2047 {
            self.mem("sw", src, off, dst);
        } else {
            let tmpr = self.tmpr;
            self.addi(tmpr, dst, off);
            self.mem("sw", src, 0, tmpr);
        }
    }

    pub fn j(&mut self, target: &String)
        ensures
            final(self)@ == old(self)@ + "  j "@ + target@ + "\n"@,
            final(self).tmp() == old(self).tmp(),
    {
        self.put("  j ");
        self.put(target.as_str());
        self.put("\n");
    }

    pub fn bnez(&mut self, cond: &str, target: &str)
        ensures
            final(self)@ == old(self)@ + asm2("bnez"@, cond@, target@),
            final(self).tmp() == old(self).tmp(),
    {
        self.line2("bnez", cond, target);
    }

    pub fn call(&mut self, callee: &str)
        ensures
            final(self)@ == old(self)@ + "  call "@ + callee@ + "\n"@,
            final(self).tmp() == old(self).tmp(),
    {
        self.put("  call ");
        self.put(callee);
        self.put("\n");
    }

    pub fn binary(&mut self, op: IrBinaryOp, lhs: &str, rhs: &str, dst: &str)
        requires
            generator_supports(op),
        ensures
            final(self)@ == old(self)@ + asm_binary(op, lhs@, rhs@, dst@),
            final(self).tmp() == old(self).tmp(),
    {
        match op {
            IrBinaryOp::Add => self.line3("add", dst, lhs, rhs),
            IrBinaryOp::Sub => self.line3("sub", dst, lhs, rhs),
            IrBinaryOp::Mul => self.line3("mul", dst, lhs, rhs),
            IrBinaryOp::Div => self.line3("div", dst, lhs, rhs),
            IrBinaryOp::Mod => self.line3("rem", dst, lhs, rhs),
            IrBinaryOp::And => self.line3("and", dst, lhs, rhs),
            IrBinaryOp::Or => self.line3("or", dst, lhs, rhs),
            IrBinaryOp::Lt => self.line3("slt", dst, lhs, rhs),
            IrBinaryOp::Gt => self.line3("sgt", dst, lhs, rhs),
            IrBinaryOp::Eq => {
                self.line3("xor", lhs, lhs, rhs);
                self.line2("seqz", dst, lhs);
            },
            IrBinaryOp::NotEq => {
                self.line3("xor", lhs, lhs, rhs);
                self.line2("snez", dst, lhs);
            },
            IrBinaryOp::Le => {
                self.line3("sgt", lhs, lhs, rhs);
                self.line2("seqz", dst, lhs);
            },
            IrBinaryOp::Ge => {
                self.line3("slt", lhs, lhs, rhs);
                self.line2("seqz", dst, lhs);
            },
            _ => {},
        }
    }

    pub fn ret(&mut self)
        ensures
            final(self)@ == old(self)@ + "  ret\n"@,
            final(self).tmp() == old(self).tmp(),
    {
        self.put("  ret\n");
    }

    pub fn global_alloc(&mut self, init: i32, id: &usize)
        ensures
            final(self)@ == old(self)@ + asm_global_alloc(init as int, *id as nat),
            final(self).tmp() == old(self).tmp(),
    {
        self.put("  .data\n");
        self.put("  .globl var");
        push_dec(&mut self.out, *id as u64);
        self.put("\n");
        self.put("var");
        push_dec(&mut self.out, *id as u64);
        self.put(":\n");
        if init == 0 {
            self.put("  .zero 4\n");
        } else {
            self.put("  .word ");
            self.put_int(init as i64);
            self.put("\n");
        }
        self.put("\n");
    }

    pub fn enter_bb(&mut self, name: &str)
        ensures
            final(self)@ == old(self)@ + name@ + ":\n"@,
            final(self).tmp() == old(self).tmp(),
    {
        self.put(name);
        self.put(":\n");
    }

    /// Opens a function: its symbol, the stack frame of `ss` bytes and, unless
    /// it calls nothing, the return address saved at the top of the frame.
    #[verifier::spinoff_prover]
    #[verifier::rlimit(50)]
    pub fn prologue(&mut self, func_name: &str, ss: i32, is_leaf: bool)
        requires
            i32::MIN < ss,
            !is_leaf ==> i32::MIN + 4 <= ss,
        ensures
            final(self)@ == old(self)@ + asm_prologue(func_name@, ss as int, is_leaf, old(self).tmp()),
            final(self).tmp() == old(self).tmp(),
    {
        self.put("  .text\n");
        self.put("  .globl ");
        self.put(func_name);
        self.put("\n");
        self.put(func_name);
        self.put(":\n");
        self.addi("sp", "sp", -ss);
        if !is_leaf {
            self.sw("ra", "sp", ss - 4);
        }
    }

    /// Closes a function: the return address restored, the frame freed, `ret`.
    #[verifier::spinoff_prover]
    #[verifier::rlimit(50)]
    pub fn epilogue(&mut self, ss: i32, is_leaf: bool)
        requires
            i32::MIN < ss,
            !is_leaf ==> i32::MIN + 4 <= ss,
        ensures
            final(self)@ == old(self)@ + asm_epilogue(ss as int, is_leaf, old(self).tmp()),
            final(self).tmp() == old(self).tmp(),
    {
        let ghost s0 = self@;
        let ghost t = self.tmp();
        if !is_leaf {
            self.lw("ra", "sp", ss - 4);
        }
        let ghost s1 = self@;
        assert(s1 == s0 + ra_slot_text(false, ss as int, is_leaf, t));
        self.addi("sp", "sp", ss);
        let ghost s2 = self@;
        self.ret();
        self.put("\n");
        proof {
            assert(self@ =~= s0 + (ra_slot_text(false, ss as int, is_leaf, t) + asm_addi("sp"@, "sp"@, ss as int, t)
                + "  ret\n"@ + "\n"@));
        }
    }
}

} // verus!
