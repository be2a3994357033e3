use koopa::ir::builder_traits::ValueBuilder;
use koopa::ir::{FunctionData, Type as IrType};
use sysy_compiler::codegen::program::IrBinaryOp;
use sysy_compiler::irgen::symt::{Symbol, SymbolError, SymbolTable, SymbolTableNode};
use sysy_compiler::opt::sccp::CellType::{Bottom, Constant, Top};
use sysy_compiler::opt::sccp::{evaluate, meet, CellType};

#[test]
fn meet_of_cells() {
    assert_eq!(meet(&[]), Top);
    assert_eq!(meet(&[Top, Constant(3), Top, Constant(3)]), Constant(3));
    assert_eq!(meet(&[Constant(3), Constant(4)]), Bottom);
    assert_eq!(meet(&[Top, Bottom]), Bottom);
    // the order of the cells does not matter
    assert_eq!(meet(&[Constant(4), Top, Constant(3)]), meet(&[Constant(3), Constant(4), Top]));
}

#[test]
fn evaluate_cells() {
    assert_eq!(evaluate(IrBinaryOp::Add, Constant(2), Constant(3)), Constant(5));
    assert_eq!(evaluate(IrBinaryOp::Div, Constant(-7), Constant(2)), Constant(-3));
    assert_eq!(evaluate(IrBinaryOp::Le, Constant(2), Constant(2)), Constant(1));
    assert_eq!(evaluate(IrBinaryOp::Mul, Top, Constant(2)), Top);
    assert_eq!(evaluate(IrBinaryOp::Mul, Top, Bottom), Bottom);
    assert_eq!(evaluate(IrBinaryOp::Sub, Bottom, Constant(1)), Bottom);
}

fn two_values() -> (koopa::ir::Value, koopa::ir::Value) {
    let mut f = FunctionData::new("@f".to_owned(), vec![], IrType::get_i32());
    let a = f.dfg_mut().new_value().integer(1);
    let b = f.dfg_mut().new_value().integer(2);
    (a, b)
}

#[test]
fn scoped_symbols() {
    let (a, b) = two_values();
    let mut t = SymbolTable::new();
    assert_eq!(t.current_id(), 1);
    assert!(t.insert_var("x", a, false).is_ok());
    assert!(t.insert_const_var("n", 5).is_ok());
    assert_eq!(t.get_from_const_var("n").ok(), Some(5));
    assert!(matches!(t.get_from_var("n"), Err(SymbolError::WrongKind(_))));
    t.enter_scope();
    assert_eq!(t.current_id(), 2);
    // the outer declaration is visible
    assert_eq!(t.get_from_var("x").ok(), Some(a));
    // an inner declaration hides it
    assert!(t.insert_var("x", b, true).is_ok());
    assert_eq!(t.get_from_var("x").ok(), Some(b));
    assert!(matches!(t.insert_var("x", a, true), Err(SymbolError::Duplicate(_))));
    t.exit_scope();
    assert_eq!(t.current_id(), 1);
    assert_eq!(t.get_from_var("x").ok(), Some(a));
    assert!(matches!(t.get("y"), Err(SymbolError::NotDefined(_))));
    assert!(t.initialize("x").is_ok());
    assert!(matches!(t.get("x"), Ok(Symbol::Var { init: true, .. })));
    assert!(matches!(t.initialize("n"), Err(SymbolError::WrongKind(_))));
}

#[test]
fn symbol_table_nodes() {
    let n = SymbolTableNode::new();
    assert!(n.parent.is_none() && n.children.is_empty());
    let c = SymbolTableNode::new_as_child(3);
    assert_eq!(c.parent, Some(3));
}
