use sysy_compiler::ast::exp::{BinaryExpr, BinaryOp, Expr, InitVal, LVal};
use sysy_compiler::ast::{
    Assign, Block, BlockItem, CompUnit, ConstDecl, Decl, ExprKind, FuncDef, GlobalItem, Return, Stmt, VarDecl,
};
use sysy_compiler::sema::eval::Evaluator;
use sysy_compiler::sema::name::NameManager;
use sysy_compiler::sema::symbol::SymbolTable;
use sysy_compiler::sema::ty::TypeKind;

fn lit(i: i32) -> Expr {
    Expr::Integer(i)
}

fn var(s: &str) -> LVal {
    LVal { ident: s.to_owned(), dims: vec![] }
}

fn name(s: &str) -> Expr {
    Expr::LVal(var(s))
}

fn bin(op: BinaryOp, l: Expr, r: Expr) -> Expr {
    Expr::Binary(BinaryExpr { op, lhs: Box::new(l), rhs: Box::new(r) })
}

/// const int N = 2 + 3;
/// int a[N];
/// int main() { int x = N * 2; { int x = 1; x = x + 1; } return x; }
fn program() -> CompUnit {
    let inner = Block {
        items: vec![
            BlockItem::Decl(Decl::VarDecl(vec![VarDecl::new(var("x"), Some(InitVal::Expr(lit(1))))])),
            BlockItem::Stmt(Stmt::Assign(Assign { lval: var("x"), val: bin(BinaryOp::Add, name("x"), lit(1)) })),
        ],
    };
    let body = Block {
        items: vec![
            BlockItem::Decl(Decl::VarDecl(vec![VarDecl::new(
                var("x"),
                Some(InitVal::Expr(bin(BinaryOp::Mul, name("N"), lit(2)))),
            )])),
            BlockItem::Stmt(Stmt::Block(inner)),
            BlockItem::Stmt(Stmt::Return(Return { ret_val: Some(name("x")) })),
        ],
    };
    CompUnit {
        items: vec![
            GlobalItem::Decl(Decl::ConstDecl(vec![ConstDecl::new(
                var("N"),
                InitVal::Expr(bin(BinaryOp::Add, lit(2), lit(3))),
            )])),
            GlobalItem::Decl(Decl::VarDecl(vec![VarDecl::new(
                LVal { ident: "a".to_owned(), dims: vec![name("N")] },
                None,
            )])),
            GlobalItem::Func(FuncDef { ret_kind: ExprKind::Int, ident: "main".to_owned(), params: vec![], block: body }),
        ],
    }
}

fn main_body(c: &CompUnit) -> &Block {
    match &c.items[2] {
        GlobalItem::Func(f) => &f.block,
        _ => panic!("expected main"),
    }
}

#[test]
fn renaming_gives_shadowed_names_fresh_spellings() {
    let mut c = program();
    let mut nm = NameManager::new();
    c.accept(&mut nm);
    assert!(nm.error.is_none());
    let body = main_body(&c);
    match &body.items[1] {
        BlockItem::Stmt(Stmt::Block(inner)) => match &inner.items[1] {
            BlockItem::Stmt(Stmt::Assign(a)) => {
                assert_eq!(a.lval.ident, "x1");
                assert!(matches!(&a.val, Expr::Binary(b) if matches!(&*b.lhs, Expr::LVal(l) if l.ident == "x1")));
            }
            _ => panic!("expected an assignment"),
        },
        _ => panic!("expected a block"),
    }
    match &body.items[2] {
        BlockItem::Stmt(Stmt::Return(r)) => assert!(matches!(&r.ret_val, Some(Expr::LVal(l)) if l.ident == "x")),
        _ => panic!("expected a return"),
    }
}

#[test]
fn renaming_reports_redefinition() {
    let mut c = program();
    if let GlobalItem::Func(f) = &mut c.items[2] {
        f.block.items.push(BlockItem::Decl(Decl::VarDecl(vec![VarDecl::new(var("x"), None)])));
    }
    let mut nm = NameManager::new();
    c.accept(&mut nm);
    assert_eq!(nm.error.as_deref(), Some("redifinition of `x`"));
}

#[test]
fn renaming_reports_use_before_definition() {
    let mut c = program();
    if let GlobalItem::Func(f) = &mut c.items[2] {
        f.block.items.push(BlockItem::Stmt(Stmt::Return(Return { ret_val: Some(name("y")) })));
    }
    let mut nm = NameManager::new();
    c.accept(&mut nm);
    assert_eq!(nm.error.as_deref(), Some("variable used before definition"));
}

#[test]
fn folding_replaces_constant_expressions() {
    let mut c = program();
    let mut ev = Evaluator::new();
    c.accept(&mut ev);
    assert!(ev.error.is_none());
    assert_eq!(ev.get("N"), Some(5));
    match &c.items[1] {
        GlobalItem::Decl(Decl::VarDecl(v)) => assert!(matches!(v[0].lval.dims[0], Expr::Integer(5))),
        _ => panic!("expected the array"),
    }
    match &main_body(&c).items[0] {
        BlockItem::Decl(Decl::VarDecl(v)) => assert!(matches!(v[0].init, Some(InitVal::Expr(Expr::Integer(10))))),
        _ => panic!("expected a declaration"),
    }
}

#[test]
fn folding_rejects_assignment_to_constant() {
    let mut c = program();
    if let GlobalItem::Func(f) = &mut c.items[2] {
        f.block.items.push(BlockItem::Stmt(Stmt::Assign(Assign { lval: var("N"), val: lit(1) })));
    }
    let mut ev = Evaluator::new();
    c.accept(&mut ev);
    assert_eq!(ev.error.as_deref(), Some("attempt to assign a const value"));
}

#[test]
fn symbol_pass_records_types() {
    let mut c = program();
    let mut ev = Evaluator::new();
    c.accept(&mut ev);
    let mut st = SymbolTable::new();
    c.accept(&mut st);
    assert!(st.error.is_none());
    assert!(matches!(st.get("a").kind(), TypeKind::Array(_, 5)));
    assert!(matches!(st.get("main").kind(), TypeKind::Func(_, p) if p.is_empty()));
    assert!(matches!(st.get("getarray").kind(), TypeKind::Func(_, p) if p.len() == 1));
    assert!(matches!(st.get("x").kind(), TypeKind::Integer));
}

#[test]
fn symbol_pass_requires_main() {
    let mut c = program();
    c.items.pop();
    let mut ev = Evaluator::new();
    c.accept(&mut ev);
    let mut st = SymbolTable::new();
    c.accept(&mut st);
    assert_eq!(st.error.as_deref(), Some("main function is not defined"));
}
