use std::collections::HashMap;

use sysy_compiler::ast::exp::{BinaryExpr, BinaryOp, Expr, InitVal, LVal};
use sysy_compiler::ast::{
    Assign, Block, BlockItem, Branch, Break, CompUnit, Decl, ExprKind, FuncDef, GlobalItem, Return, Stmt, VarDecl,
    While,
};
use sysy_compiler::codegen::alloca::RegAllocator;
use sysy_compiler::codegen::context::Place;
use sysy_compiler::codegen::gen::{generate_global, Context};
use sysy_compiler::codegen::live_range::{funcs_fit, program_info, LiveRange};
use sysy_compiler::codegen::program::{AsmProgram, Directive};
use sysy_compiler::codegen::write::AsmWriter;
use sysy_compiler::codegen::program::IrBinaryOp;
use sysy_compiler::ir::{BlockData, FunctionData, IrType, Program, ValueData, ValueKind};
use sysy_compiler::irgen::record::ProgramRecorder;
use sysy_compiler::opt::ssa::SsaBuilder;
use sysy_compiler::sema::eval::Evaluator;
use sysy_compiler::sema::name::NameManager;
use sysy_compiler::sema::symbol::SymbolTable;

fn lit(i: i32) -> Expr {
    Expr::Integer(i)
}

fn var(s: &str) -> LVal {
    LVal { ident: s.to_owned(), dims: vec![] }
}

fn name(s: &str) -> Expr {
    Expr::LVal(var(s))
}

fn bin(op: BinaryOp, l: Expr, r: Expr) -> Expr {
    Expr::Binary(BinaryExpr { op, lhs: Box::new(l), rhs: Box::new(r) })
}

fn main_with(items: Vec<BlockItem>) -> CompUnit {
    CompUnit {
        items: vec![GlobalItem::Func(FuncDef {
            ret_kind: ExprKind::Int,
            ident: "main".to_owned(),
            params: vec![],
            block: Block { items },
        })],
    }
}

fn ret(e: Expr) -> BlockItem {
    BlockItem::Stmt(Stmt::Return(Return { ret_val: Some(e) }))
}

/// Runs the front end and the generation of the intermediate representation.
fn to_ir(mut c: CompUnit) -> Result<Program, String> {
    let mut nm = NameManager::new();
    c.accept(&mut nm);
    assert!(nm.error.is_none());
    let mut ev = Evaluator::new();
    c.accept(&mut ev);
    assert!(ev.error.is_none());
    let mut st = SymbolTable::new();
    c.accept(&mut st);
    assert!(st.error.is_none());
    let mut rec = ProgramRecorder::new(&st);
    c.generate_ir(&mut rec)?;
    Ok(rec.program)
}

fn main_id(p: &Program) -> usize {
    p.funcs.iter().position(|f| f.name == "@main").expect("main")
}

/// Every block of every function with a body ends with its only terminator.
fn all_closed(p: &Program) -> bool {
    p.funcs.iter().all(|f| {
        f.layout.iter().all(|&b| {
            let insts = &p.blocks[b].insts;
            let term = |v: usize| {
                matches!(p.values[v].kind, ValueKind::Branch(..) | ValueKind::Jump(..) | ValueKind::Return(..))
            };
            !insts.is_empty() && term(*insts.last().unwrap()) && insts[..insts.len() - 1].iter().all(|&v| !term(v))
        })
    })
}

/// Generates the assembly of a program, as the compiler's back end does.
fn to_asm(p: &Program) -> String {
    let infos = program_info(p);
    assert!(funcs_fit(&infos));
    let mut lr = LiveRange::new();
    lr.analyze(&infos);
    let mut alloc = RegAllocator::new();
    assert!(alloc.alloca(&lr).is_ok());
    let mut ctx = Context::new(p);
    let mut out = AsmProgram::new();
    for (k, &g) in p.inst_layout.iter().enumerate() {
        ctx.register_global_var(g, format!("var{}", k));
        out.directive(Directive::Data);
        generate_global(&ctx, &mut out, g);
    }
    for (f, data) in p.funcs.iter().enumerate() {
        if data.layout.is_empty() {
            continue;
        }
        ctx.new_func(f);
        let id = f as u32;
        let empty = HashMap::new();
        let places: &HashMap<u32, Place> = alloc.places.get(&id).unwrap_or(&empty);
        let spill = *alloc.spill_size.get(&id).unwrap_or(&0);
        let max_reg = *alloc.max_reg.get(&id).unwrap_or(&0);
        ctx.set_func(f, places, spill, max_reg);
        data.generate(&mut ctx, &mut out, f);
    }
    let mut w = AsmWriter::new();
    w.write_program(&out);
    w.as_str().to_owned()
}

#[test]
fn return_of_a_folded_sum() {
    let p = to_ir(main_with(vec![ret(bin(BinaryOp::Add, lit(1), lit(2)))])).unwrap();
    assert!(all_closed(&p));
    let m = main_id(&p);
    // the folded sum is stored to the slot of the returned value, which the last block returns
    let insts: Vec<usize> = p.funcs[m].layout.iter().flat_map(|&b| p.blocks[b].insts.clone()).collect();
    assert!(insts
        .iter()
        .any(|&v| matches!(p.values[v].kind, ValueKind::Store(x, _) if matches!(p.values[x].kind, ValueKind::Integer(3)))));
    let last_block = *p.funcs[m].layout.last().unwrap();
    let last = *p.blocks[last_block].insts.last().unwrap();
    assert!(matches!(p.values[last].kind, ValueKind::Return(Some(_))));
}

#[test]
fn library_functions_are_declared() {
    let p = to_ir(main_with(vec![ret(lit(0))])).unwrap();
    let names: Vec<&str> = p.funcs.iter().map(|f| f.name.as_str()).collect();
    for lib in ["@getint", "@getch", "@getarray", "@putint", "@putch", "@putarray", "@starttime", "@stoptime"] {
        assert!(names.contains(&lib), "{} missing", lib);
    }
    assert!(p.funcs.iter().filter(|f| f.name != "@main").all(|f| f.layout.is_empty()));
}

#[test]
fn break_outside_a_loop_is_refused() {
    let c = main_with(vec![BlockItem::Stmt(Stmt::Break(Break)), ret(lit(0))]);
    assert_eq!(to_ir(c).err().as_deref(), Some("break outside of loop"));
}

#[test]
fn loops_and_branches_close_every_block() {
    // int main() { int i = 0; while (i < 10) { if (i == 5) break; i = i + 1; } return i; }
    let body = Block {
        items: vec![
            BlockItem::Stmt(Stmt::Branch(Branch {
                cond: bin(BinaryOp::Eq, name("i"), lit(5)),
                if_stmt: Box::new(Stmt::Break(Break)),
                el_stmt: None,
            })),
            BlockItem::Stmt(Stmt::Assign(Assign { lval: var("i"), val: bin(BinaryOp::Add, name("i"), lit(1)) })),
        ],
    };
    let c = main_with(vec![
        BlockItem::Decl(Decl::VarDecl(vec![VarDecl::new(var("i"), Some(InitVal::Expr(lit(0))))])),
        BlockItem::Stmt(Stmt::While(While { cond: bin(BinaryOp::Lt, name("i"), lit(10)), stmt: Box::new(Stmt::Block(body)) })),
        ret(name("i")),
    ]);
    let mut p = to_ir(c).unwrap();
    assert!(all_closed(&p));
    let m = main_id(&p);
    assert!(p.funcs[m].layout.len() >= 4);
    // in static single assignment form the loop passes `i` as a parameter
    let mut b = SsaBuilder::new(p.blocks.len());
    assert!(b.run_on(&mut p, m));
    assert!(all_closed(&p));
    let insts: Vec<usize> = p.funcs[m].layout.iter().flat_map(|&b| p.blocks[b].insts.clone()).collect();
    assert!(insts.iter().all(|&v| !matches!(p.values[v].kind, ValueKind::Alloc | ValueKind::Load(_) | ValueKind::Store(..))));
    assert!(p.funcs[m].layout.iter().any(|&b| !p.blocks[b].params.is_empty()));
    let out = to_asm(&p);
    assert!(out.contains("  j "), "{}", out);
}

#[test]
fn short_circuit_and() {
    // int main() { int a = 1; return a && a - 1; }
    let c = main_with(vec![
        BlockItem::Decl(Decl::VarDecl(vec![VarDecl::new(var("a"), Some(InitVal::Expr(lit(1))))])),
        ret(bin(BinaryOp::And, name("a"), bin(BinaryOp::Sub, name("a"), lit(1)))),
    ]);
    let p = to_ir(c).unwrap();
    assert!(all_closed(&p));
    // the right operand is evaluated in a block of its own
    assert!(p.funcs[main_id(&p)].layout.len() >= 3);
}

/// `@main(): i32 { %entry: %0 = add 1, 2; %1 = mul %0, %0; ret %1 }`, built by hand.
fn hand_built() -> Program {
    let mut p = Program::new();
    let push = |p: &mut Program, ty: IrType, kind: ValueKind| {
        p.values.push(ValueData { ty, name: None, kind });
        p.values.len() - 1
    };
    let one = push(&mut p, IrType::Int32, ValueKind::Integer(1));
    let two = push(&mut p, IrType::Int32, ValueKind::Integer(2));
    let sum = push(&mut p, IrType::Int32, ValueKind::Binary(IrBinaryOp::Add, one, two));
    let sq = push(&mut p, IrType::Int32, ValueKind::Binary(IrBinaryOp::Mul, sum, sum));
    let ret = push(&mut p, IrType::Unit, ValueKind::Return(Some(sq)));
    p.blocks.push(BlockData { name: Some("%entry".to_owned()), params: vec![], insts: vec![sum, sq, ret] });
    p.funcs.push(FunctionData {
        name: "@main".to_owned(),
        param_tys: vec![],
        ret_ty: IrType::Int32,
        params: vec![],
        layout: vec![0],
    });
    p
}

#[test]
fn code_of_a_function() {
    let p = hand_built();
    let out = to_asm(&p);
    assert!(out.contains("  .globl main\nmain:\n"), "{}", out);
    assert!(out.contains("  mul "), "{}", out);
    assert!(out.ends_with("  ret\n"), "{}", out);
}
