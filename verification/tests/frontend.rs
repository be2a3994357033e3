use sysy_compiler::ast::exp::{eval_binary, eval_unary, BinaryExpr, BinaryOp, Expr, InitVal, LVal, UnaryExpr, UnaryOp};
use sysy_compiler::ast::{utils, ConstDecl, ExprKind, VarDecl};
use sysy_compiler::decimal::{dec_string, push_int};
use sysy_compiler::irgen::utils::eval_array;
use sysy_compiler::sema::eval::{const_eval_expr, ConstEval, Evaluator};
use sysy_compiler::sema::name::NameManager;
use sysy_compiler::sema::symbol::SymbolTable;
use sysy_compiler::sema::ty::{Type, TypeKind};
use sysy_compiler::simple_ast::{self, Exp};

fn lit(i: i32) -> Expr {
    Expr::Integer(i)
}

fn name(s: &str) -> Expr {
    Expr::LVal(LVal { ident: s.to_owned(), dims: vec![] })
}

fn bin(op: BinaryOp, l: Expr, r: Expr) -> Expr {
    Expr::Binary(BinaryExpr { op, lhs: Box::new(l), rhs: Box::new(r) })
}

#[test]
fn binary_operators_truncate_toward_zero() {
    assert_eq!(eval_binary(BinaryOp::Div, -7, 2), -3);
    assert_eq!(eval_binary(BinaryOp::Mod, -7, 2), -1);
    assert_eq!(eval_binary(BinaryOp::Mod, 7, -2), 1);
    assert_eq!(eval_binary(BinaryOp::Le, 3, 3), 1);
    assert_eq!(eval_binary(BinaryOp::And, 2, 0), 0);
    assert_eq!(eval_binary(BinaryOp::Or, 0, -1), 1);
    assert_eq!(eval_unary(UnaryOp::Not, 5), 0);
    assert_eq!(eval_unary(UnaryOp::Neg, 5), -5);
    assert_eq!(utils::eval_binary(BinaryOp::Gt, 4, 3), 1);
    assert_eq!(utils::eval_binary(BinaryOp::Neq, 4, 4), 0);
}

#[test]
fn logic_helpers() {
    assert_eq!(utils::lnd(1, 2), 1);
    assert_eq!(utils::lor(0, 0), 0);
    assert_eq!(utils::is_zero(0), 1);
    assert_eq!(utils::not_zero(-3), 1);
    assert_eq!(utils::positive(0), 0);
    assert_eq!(utils::non_negative(0), 1);
}

#[test]
fn simple_expression_evaluates() {
    // (1 + 2) * -3 == -9
    let e = Exp::Bxp(simple_ast::BinaryExp {
        op: simple_ast::BinaryOp::Mul,
        left: Box::new(Exp::Bxp(simple_ast::BinaryExp {
            op: simple_ast::BinaryOp::Add,
            left: Box::new(Exp::Integer(1)),
            right: Box::new(Exp::Integer(2)),
        })),
        right: Box::new(Exp::Uxp(simple_ast::UnaryExp {
            op: simple_ast::UnaryOp::Neg,
            right: Box::new(Exp::Integer(3)),
        })),
    });
    assert_eq!(e.parse(), -9);
}

#[test]
fn decimal_text() {
    assert_eq!(dec_string(0), "0");
    assert_eq!(dec_string(1203), "1203");
    let mut s = String::from("x");
    push_int(&mut s, -45);
    assert_eq!(s, "x-45");
}

#[test]
fn constants_fold() {
    let mut ev = Evaluator::new();
    ev.insert("N", 10);
    assert_eq!(ev.get("N"), Some(10));
    assert!(!ev.contains_key("M"));
    // N * 2 + 1
    let e = bin(BinaryOp::Add, bin(BinaryOp::Mul, name("N"), lit(2)), lit(1));
    assert_eq!(e.const_eval(&ev), Some(21));
    // x && 0 is 0 whatever x is; x || 3 is 1
    assert_eq!(const_eval_expr(&bin(BinaryOp::And, name("x"), lit(0)), &ev), Some(0));
    assert_eq!(const_eval_expr(&bin(BinaryOp::Or, name("x"), lit(3)), &ev), Some(1));
    // a name compared with itself
    assert_eq!(const_eval_expr(&bin(BinaryOp::Le, name("x"), name("x")), &ev), Some(1));
    assert_eq!(const_eval_expr(&bin(BinaryOp::Sub, name("x"), name("x")), &ev), Some(0));
    assert_eq!(const_eval_expr(&bin(BinaryOp::Add, name("x"), name("x")), &ev), None);
    assert_eq!(const_eval_expr(&bin(BinaryOp::Add, name("x"), lit(1)), &ev), None);
    let call = Expr::Unary(UnaryExpr::Call(sysy_compiler::ast::exp::Call { ident: "f".to_owned(), args: vec![] }));
    assert_eq!(const_eval_expr(&call, &ev), None);
    // a later declaration hides an earlier one
    ev.insert("N", 3);
    assert_eq!(const_eval_expr(&name("N"), &ev), Some(3));
}

#[test]
fn names_get_fresh_spellings() {
    let mut nm = NameManager::new();
    nm.enter_scope();
    nm.install_lib();
    nm.insert_name("a");
    let mut s = "a".to_owned();
    nm.rename(&mut s);
    assert_eq!(s, "a");
    nm.enter_scope();
    nm.insert_name("a");
    let mut s = "a".to_owned();
    nm.rename(&mut s);
    assert_eq!(s, "a1");
    nm.insert_name("a1");
    let mut s = "a1".to_owned();
    nm.rename(&mut s);
    assert_eq!(s, "a11");
    nm.exit_scope();
    let mut s = "a".to_owned();
    nm.rename(&mut s);
    assert_eq!(s, "a");
    nm.enter_scope();
    nm.insert_name("getint");
    let mut s = "getint".to_owned();
    nm.rename(&mut s);
    assert_eq!(s, "getint1");
}

#[test]
fn symbol_table_types() {
    let mut t = SymbolTable::new();
    assert!(!t.contains("a"));
    let decl = VarDecl::new(LVal { ident: "a".to_owned(), dims: vec![lit(2), lit(3)] }, None);
    let ty = Type::from_var_decl(&decl);
    assert_eq!(ty.size(), 6);
    let mut dims = Vec::new();
    ty.get_dims(&mut dims);
    assert_eq!(dims, vec![2, 3]);
    t.insert("a", ty);
    assert!(t.contains("a"));
    assert!(matches!(t.get("a").kind(), TypeKind::Array(_, 2)));
    let c = ConstDecl::new(LVal { ident: "c".to_owned(), dims: vec![] }, InitVal::Expr(lit(1)));
    t.insert("a", Type::from_const_decl(&c));
    assert!(matches!(t.get("a").kind(), TypeKind::Integer));
    assert!(matches!(c.kind, ExprKind::Int));
    assert!(matches!(decl.kind, ExprKind::Array));
}

#[test]
fn array_initializer_fills_row_major() {
    let ty = Type::infer_from_dims(&[2, 2]);
    let flat = InitVal::List(vec![InitVal::Expr(lit(1)), InitVal::Expr(lit(2)), InitVal::Expr(lit(3))]);
    // elements after the last one given are left to the caller
    assert_eq!(eval_array(&flat, &ty), vec![1, 2, 3]);
    let nested = InitVal::List(vec![
        InitVal::List(vec![InitVal::Expr(lit(1))]),
        InitVal::List(vec![InitVal::Expr(lit(2)), InitVal::Expr(lit(3))]),
    ]);
    assert_eq!(eval_array(&nested, &ty), vec![1, 0, 2, 3]);
    let empty = InitVal::List(vec![]);
    assert_eq!(eval_array(&empty, &ty), Vec::<i32>::new());
}

#[test]
fn int_and_void_types_map_to_ir() {
    assert!(matches!(sysy_compiler::ast::ty::Type::Int.into_ty(), sysy_compiler::ir::IrType::Int32));
    assert!(matches!(sysy_compiler::ast::ty::Type::Void.into_ty(), sysy_compiler::ir::IrType::Unit));
}
