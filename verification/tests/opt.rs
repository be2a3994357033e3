use sysy_compiler::codegen::live_range::{func_info, funcs_fit, program_info};
use sysy_compiler::codegen::program::IrBinaryOp;
use sysy_compiler::ir::{BlockData, FunctionData, IrType, Program, ValueData, ValueKind};
use sysy_compiler::opt::common_expr::RemoveCommonExpression;
use sysy_compiler::opt::empty_bb::RemoveEmptyBB;
use sysy_compiler::opt::sccp::SCCP;
use sysy_compiler::opt::ssa::{check_allocs_typed, SsaBuilder};
use sysy_compiler::opt::{build_ssa, optimize, OptError, PassName};
use sysy_compiler::opt::trivial_arg::RemoveTrivialArgs;
use sysy_compiler::opt::unreachable::RemoveUnreachable;
use sysy_compiler::opt::utils::{replace_variable, ty_eq, value_eq_exec};

fn val(p: &mut Program, ty: IrType, kind: ValueKind) -> usize {
    p.values.push(ValueData { ty, name: None, kind });
    p.values.len() - 1
}

fn integer(p: &mut Program, i: i32) -> usize {
    val(p, IrType::Int32, ValueKind::Integer(i))
}

fn binary(p: &mut Program, op: IrBinaryOp, l: usize, r: usize) -> usize {
    val(p, IrType::Int32, ValueKind::Binary(op, l, r))
}

/// A function `@f(%a, %b)` of one block whose instructions are `insts`.
fn one_block(p: &mut Program, params: Vec<usize>, insts: Vec<usize>) -> usize {
    p.blocks.push(BlockData { name: Some("%entry".to_owned()), params: vec![], insts });
    let b = p.blocks.len() - 1;
    p.funcs.push(FunctionData {
        name: "@f".to_owned(),
        param_tys: params.iter().map(|_| IrType::Int32).collect(),
        ret_ty: IrType::Int32,
        params,
        layout: vec![b],
    });
    p.funcs.len() - 1
}

#[test]
fn structural_equality_of_values() {
    let mut p = Program::new();
    let ten1 = integer(&mut p, 10);
    let ten2 = integer(&mut p, 10);
    let nine = integer(&mut p, 9);
    assert!(value_eq_exec(&p, ten1, ten2));
    assert!(!value_eq_exec(&p, ten1, nine));
    // 10 + 10 - 10 == 10 + 10 - 10
    let add1 = binary(&mut p, IrBinaryOp::Add, ten1, ten1);
    let sub1 = binary(&mut p, IrBinaryOp::Sub, add1, ten1);
    let add2 = binary(&mut p, IrBinaryOp::Add, ten2, ten2);
    let sub2 = binary(&mut p, IrBinaryOp::Sub, add2, ten2);
    assert!(value_eq_exec(&p, sub1, sub2));
    // 10 + 10 - 10 != 10 + 9 - 9
    let add3 = binary(&mut p, IrBinaryOp::Add, ten1, nine);
    let sub3 = binary(&mut p, IrBinaryOp::Sub, add3, nine);
    assert!(!value_eq_exec(&p, sub1, sub3));
    // one operator, other types
    let unit = val(&mut p, IrType::Unit, ValueKind::Integer(10));
    assert!(!value_eq_exec(&p, ten1, unit));
    assert!(ty_eq(&IrType::Array(Box::new(IrType::Int32), 3), &IrType::Array(Box::new(IrType::Int32), 3)));
    assert!(!ty_eq(&IrType::Pointer(Box::new(IrType::Int32)), &IrType::Int32));
}

#[test]
fn replacing_a_variable_rewrites_its_users() {
    let mut p = Program::new();
    let a = val(&mut p, IrType::Int32, ValueKind::FuncArgRef(0));
    let b = val(&mut p, IrType::Int32, ValueKind::FuncArgRef(1));
    let s = binary(&mut p, IrBinaryOp::Add, a, b);
    let t = binary(&mut p, IrBinaryOp::Mul, b, a);
    let r = val(&mut p, IrType::Unit, ValueKind::Return(Some(a)));
    let f = one_block(&mut p, vec![a, b], vec![s, t, r]);
    replace_variable(&mut p, f, a, b);
    assert!(matches!(p.values[s].kind, ValueKind::Binary(IrBinaryOp::Add, x, y) if x == b && y == b));
    assert!(matches!(p.values[t].kind, ValueKind::Binary(IrBinaryOp::Mul, x, y) if x == b && y == b));
    assert!(matches!(p.values[r].kind, ValueKind::Return(Some(x)) if x == b));
}

#[test]
fn common_expressions_go() {
    let mut p = Program::new();
    let a = val(&mut p, IrType::Int32, ValueKind::FuncArgRef(0));
    let b = val(&mut p, IrType::Int32, ValueKind::FuncArgRef(1));
    let one1 = integer(&mut p, 1);
    let one2 = integer(&mut p, 1);
    let s1 = binary(&mut p, IrBinaryOp::Add, a, one1);
    let s2 = binary(&mut p, IrBinaryOp::Add, a, one2);
    let s3 = binary(&mut p, IrBinaryOp::Add, b, one1);
    let m = binary(&mut p, IrBinaryOp::Mul, s2, s3);
    let r = val(&mut p, IrType::Unit, ValueKind::Return(Some(m)));
    let f = one_block(&mut p, vec![a, b], vec![s1, s2, s3, m, r]);
    let pass = RemoveCommonExpression;
    assert!(pass.work(&mut p, f));
    let entry = p.funcs[f].layout[0];
    assert_eq!(p.blocks[entry].insts, vec![s1, s3, m, r]);
    assert!(matches!(p.values[m].kind, ValueKind::Binary(IrBinaryOp::Mul, x, y) if x == s1 && y == s3));
    assert!(!pass.work(&mut p, f));
}

#[test]
fn common_expressions_run_to_a_fixed_point() {
    let mut p = Program::new();
    let a = val(&mut p, IrType::Int32, ValueKind::FuncArgRef(0));
    let two = integer(&mut p, 2);
    let s1 = binary(&mut p, IrBinaryOp::Mul, a, two);
    let s2 = binary(&mut p, IrBinaryOp::Mul, a, two);
    let t1 = binary(&mut p, IrBinaryOp::Sub, s1, two);
    let t2 = binary(&mut p, IrBinaryOp::Sub, s2, two);
    let u = binary(&mut p, IrBinaryOp::Add, t1, t2);
    let r = val(&mut p, IrType::Unit, ValueKind::Return(Some(u)));
    let f = one_block(&mut p, vec![a], vec![s1, s2, t1, t2, u, r]);
    let mut pass = RemoveCommonExpression;
    assert!(pass.run_on(&mut p, f));
    let entry = p.funcs[f].layout[0];
    assert_eq!(p.blocks[entry].insts, vec![s1, t1, u, r]);
    assert!(matches!(p.values[u].kind, ValueKind::Binary(IrBinaryOp::Add, x, y) if x == t1 && y == t1));
}

#[test]
fn common_expressions_stop_where_a_use_would_stay() {
    let mut p = Program::new();
    let a = val(&mut p, IrType::Int32, ValueKind::FuncArgRef(0));
    let s1 = binary(&mut p, IrBinaryOp::Add, a, a);
    let s2 = binary(&mut p, IrBinaryOp::Add, a, a);
    // both operands of `u` are the instruction that would go
    let u = binary(&mut p, IrBinaryOp::Add, s2, s2);
    let r = val(&mut p, IrType::Unit, ValueKind::Return(Some(u)));
    let f = one_block(&mut p, vec![a], vec![s1, s2, u, r]);
    let mut pass = RemoveCommonExpression;
    assert!(!pass.run_on(&mut p, f));
    let entry = p.funcs[f].layout[0];
    assert_eq!(p.blocks[entry].insts, vec![s1, s2, u, r]);
}

#[test]
fn analysis_reads_users_predecessors_and_jumps() {
    let mut p = Program::new();
    let x = val(&mut p, IrType::Int32, ValueKind::FuncArgRef(0));
    p.blocks.push(BlockData { name: None, params: vec![], insts: vec![] });
    p.blocks.push(BlockData { name: None, params: vec![], insts: vec![] });
    let j = val(&mut p, IrType::Unit, ValueKind::Jump(1, vec![]));
    let c = val(&mut p, IrType::Unit, ValueKind::Call(0, vec![x]));
    let s = binary(&mut p, IrBinaryOp::Add, x, x);
    let back = val(&mut p, IrType::Unit, ValueKind::Jump(1, vec![]));
    p.blocks[0].insts = vec![j];
    p.blocks[1].insts = vec![c, s, back];
    p.funcs.push(FunctionData {
        name: "@f".to_owned(),
        param_tys: vec![IrType::Int32],
        ret_ty: IrType::Unit,
        params: vec![x],
        layout: vec![0, 1],
    });
    let info = func_info(&p, 0);
    assert_eq!(info.id, 0);
    assert_eq!(info.params, vec![(x as u32, vec![(1, 0), (1, 1)])]);
    assert_eq!(info.blocks[1].preds, vec![(0, 0), (1, 2)]);
    assert_eq!(info.blocks[0].jump_target, Some(1));
    assert_eq!(info.blocks[1].jump_target, Some(1));
    assert!(info.blocks[1].insts[0].clobbers);
    assert!(!info.blocks[1].insts[0].has_result);
    assert!(info.blocks[1].insts[1].has_result);
    let infos = program_info(&p);
    assert!(funcs_fit(&infos));
    // an empty block cannot be numbered
    p.blocks[0].insts.clear();
    assert!(!funcs_fit(&program_info(&p)));
}

#[test]
fn ssa_replaces_loads_by_stored_values() {
    // %x = alloc i32; store 1, %x; %v = load %x; %s = add %v, 2; ret %s
    let mut p = Program::new();
    let one = integer(&mut p, 1);
    let two = integer(&mut p, 2);
    let x = val(&mut p, IrType::Pointer(Box::new(IrType::Int32)), ValueKind::Alloc);
    let st = val(&mut p, IrType::Unit, ValueKind::Store(one, x));
    let ld = val(&mut p, IrType::Int32, ValueKind::Load(x));
    let s = binary(&mut p, IrBinaryOp::Add, ld, two);
    let r = val(&mut p, IrType::Unit, ValueKind::Return(Some(s)));
    let f = one_block(&mut p, vec![], vec![x, st, ld, s, r]);
    let mut b = SsaBuilder::new(p.blocks.len());
    assert!(b.run_on(&mut p, f));
    let entry = p.funcs[f].layout[0];
    assert_eq!(p.blocks[entry].insts, vec![s, r]);
    assert!(matches!(p.values[s].kind, ValueKind::Binary(IrBinaryOp::Add, l, r) if l == one && r == two));
}

#[test]
fn ssa_stops_where_a_load_stays_used() {
    // `add %v, %v`: the replacement reaches the left operand only
    let mut p = Program::new();
    let one = integer(&mut p, 1);
    let x = val(&mut p, IrType::Pointer(Box::new(IrType::Int32)), ValueKind::Alloc);
    let st = val(&mut p, IrType::Unit, ValueKind::Store(one, x));
    let ld = val(&mut p, IrType::Int32, ValueKind::Load(x));
    let s = binary(&mut p, IrBinaryOp::Add, ld, ld);
    let r = val(&mut p, IrType::Unit, ValueKind::Return(Some(s)));
    let f = one_block(&mut p, vec![], vec![x, st, ld, s, r]);
    let mut b = SsaBuilder::new(p.blocks.len());
    assert!(!b.run_on(&mut p, f));
    assert!(matches!(p.values[s].kind, ValueKind::Binary(IrBinaryOp::Add, l, r) if l == one && r == ld));
}

#[test]
fn ssa_gives_merging_blocks_parameters() {
    // entry: %x = alloc; store 1, %x; br %c, then, join
    // then:  store 2, %x; jump join
    // join:  %v = load %x; ret %v
    let mut p = Program::new();
    let c = val(&mut p, IrType::Int32, ValueKind::FuncArgRef(0));
    let one = integer(&mut p, 1);
    let two = integer(&mut p, 2);
    let x = val(&mut p, IrType::Pointer(Box::new(IrType::Int32)), ValueKind::Alloc);
    let s1 = val(&mut p, IrType::Unit, ValueKind::Store(one, x));
    let br = val(&mut p, IrType::Unit, ValueKind::Branch(c, 1, vec![], 2, vec![]));
    let s2 = val(&mut p, IrType::Unit, ValueKind::Store(two, x));
    let j = val(&mut p, IrType::Unit, ValueKind::Jump(2, vec![]));
    let ld = val(&mut p, IrType::Int32, ValueKind::Load(x));
    let r = val(&mut p, IrType::Unit, ValueKind::Return(Some(ld)));
    p.blocks.push(BlockData { name: None, params: vec![], insts: vec![x, s1, br] });
    p.blocks.push(BlockData { name: None, params: vec![], insts: vec![s2, j] });
    p.blocks.push(BlockData { name: None, params: vec![], insts: vec![ld, r] });
    p.funcs.push(FunctionData {
        name: "@f".to_owned(),
        param_tys: vec![IrType::Int32],
        ret_ty: IrType::Int32,
        params: vec![c],
        layout: vec![0, 1, 2],
    });
    let mut b = SsaBuilder::new(p.blocks.len());
    assert!(b.run_on(&mut p, 0));
    let lay = p.funcs[0].layout.clone();
    assert_eq!(lay.len(), 3);
    // the join block is a new block with one parameter, which the return gives back
    let join = lay[2];
    assert_ne!(join, 2);
    assert_eq!(p.blocks[join].params.len(), 1);
    let param = p.blocks[join].params[0];
    assert_eq!(p.blocks[join].insts, vec![r]);
    assert!(matches!(p.values[r].kind, ValueKind::Return(Some(v)) if v == param));
    // the predecessors pass the stored values
    assert!(matches!(&p.values[br].kind, ValueKind::Branch(_, 1, _, t, fa) if *t == join && fa == &vec![one]));
    assert!(matches!(&p.values[j].kind, ValueKind::Jump(t, a) if *t == join && a == &vec![two]));
    assert_eq!(p.blocks[lay[0]].insts, vec![br]);
    assert_eq!(p.blocks[lay[1]].insts, vec![j]);
}

#[test]
fn unreachable_blocks_go_round_after_round() {
    // entry: jump 3; 1: jump 2 (nothing reaches 1); 2: jump 3 (only 1 reaches 2); 3: ret
    let mut p = Program::new();
    let j0 = val(&mut p, IrType::Unit, ValueKind::Jump(3, vec![]));
    let j1 = val(&mut p, IrType::Unit, ValueKind::Jump(2, vec![]));
    let j2 = val(&mut p, IrType::Unit, ValueKind::Jump(3, vec![]));
    let r = val(&mut p, IrType::Unit, ValueKind::Return(None));
    for insts in [vec![j0], vec![j1], vec![j2], vec![r]] {
        p.blocks.push(BlockData { name: None, params: vec![], insts });
    }
    p.funcs.push(FunctionData {
        name: "@f".to_owned(),
        param_tys: vec![],
        ret_ty: IrType::Unit,
        params: vec![],
        layout: vec![0, 1, 2, 3],
    });
    let mut pass = RemoveUnreachable;
    assert!(pass.remove_unreachable_bb(&mut p, 0));
    assert_eq!(p.funcs[0].layout, vec![0, 3]);
}

#[test]
fn unreachable_block_used_elsewhere_stops() {
    // 1 is reached by nothing, but its value is used by the entry
    let mut p = Program::new();
    let one = integer(&mut p, 1);
    let s = binary(&mut p, IrBinaryOp::Add, one, one);
    let j1 = val(&mut p, IrType::Unit, ValueKind::Jump(0, vec![]));
    let r = val(&mut p, IrType::Unit, ValueKind::Return(Some(s)));
    p.blocks.push(BlockData { name: None, params: vec![], insts: vec![r] });
    p.blocks.push(BlockData { name: None, params: vec![], insts: vec![s, j1] });
    p.funcs.push(FunctionData {
        name: "@f".to_owned(),
        param_tys: vec![],
        ret_ty: IrType::Int32,
        params: vec![],
        layout: vec![0, 1],
    });
    let mut pass = RemoveUnreachable;
    assert!(!pass.remove_unreachable_bb(&mut p, 0));
    assert_eq!(p.funcs[0].layout, vec![0, 1]);
}

/// entry: jump %1(`arg`); %1(%p): ret `ret`
fn passing(ret_param: bool) -> (Program, usize, usize, usize) {
    let mut p = Program::new();
    let one = integer(&mut p, 1);
    let zero = integer(&mut p, 0);
    let param = val(&mut p, IrType::Int32, ValueKind::BlockArgRef(0));
    let j = val(&mut p, IrType::Unit, ValueKind::Jump(1, vec![one]));
    let r = val(&mut p, IrType::Unit, ValueKind::Return(Some(if ret_param { param } else { zero })));
    p.blocks.push(BlockData { name: None, params: vec![], insts: vec![j] });
    p.blocks.push(BlockData { name: None, params: vec![param], insts: vec![r] });
    p.funcs.push(FunctionData {
        name: "@f".to_owned(),
        param_tys: vec![],
        ret_ty: IrType::Int32,
        params: vec![],
        layout: vec![0, 1],
    });
    (p, one, j, r)
}

#[test]
fn trivial_parameter_goes() {
    let (mut p, one, j, r) = passing(true);
    let mut pass = RemoveTrivialArgs;
    assert!(pass.run_on(&mut p, 0));
    assert!(p.blocks[1].params.is_empty());
    assert!(matches!(&p.values[j].kind, ValueKind::Jump(1, a) if a.is_empty()));
    assert!(matches!(p.values[r].kind, ValueKind::Return(Some(v)) if v == one));
}

#[test]
fn unused_parameter_goes() {
    let (mut p, _, j, _) = passing(false);
    let pass = RemoveTrivialArgs;
    assert_eq!(pass.try_remove_unused_args(&mut p, 0), Some(true));
    assert!(p.blocks[1].params.is_empty());
    assert!(matches!(&p.values[j].kind, ValueKind::Jump(1, a) if a.is_empty()));
    assert_eq!(pass.try_remove_unused_args(&mut p, 0), Some(false));
}

#[test]
fn empty_blocks_go_and_the_entry_takes_its_successor() {
    // entry: jump 1; 1: jump 2; 2: ret
    let mut p = Program::new();
    let j0 = val(&mut p, IrType::Unit, ValueKind::Jump(1, vec![]));
    let j1 = val(&mut p, IrType::Unit, ValueKind::Jump(2, vec![]));
    let r = val(&mut p, IrType::Unit, ValueKind::Return(None));
    for insts in [vec![j0], vec![j1], vec![r]] {
        p.blocks.push(BlockData { name: None, params: vec![], insts });
    }
    p.funcs.push(FunctionData {
        name: "@f".to_owned(),
        param_tys: vec![],
        ret_ty: IrType::Unit,
        params: vec![],
        layout: vec![0, 1, 2],
    });
    let pass = RemoveEmptyBB;
    assert_eq!(pass.remove_empty_bb(&mut p, 0), Some(true));
    assert_eq!(p.funcs[0].layout, vec![0, 2]);
    assert!(matches!(&p.values[j0].kind, ValueKind::Jump(2, a) if a.is_empty()));
    assert_eq!(pass.remove_empty_bb(&mut p, 0), Some(false));
    assert!(pass.try_coalesce_entry(&mut p, 0));
    assert_eq!(p.funcs[0].layout, vec![0]);
    assert_eq!(p.blocks[0].insts, vec![r]);
}

#[test]
fn empty_block_arguments_move_to_the_predecessors() {
    // entry: br %c, 1, 2; 1: jump 2(7); 2(%x): ret %x
    let mut p = Program::new();
    let c = val(&mut p, IrType::Int32, ValueKind::FuncArgRef(0));
    let seven = integer(&mut p, 7);
    let x = val(&mut p, IrType::Int32, ValueKind::BlockArgRef(0));
    let br = val(&mut p, IrType::Unit, ValueKind::Branch(c, 1, vec![], 2, vec![c]));
    let j1 = val(&mut p, IrType::Unit, ValueKind::Jump(2, vec![seven]));
    let r = val(&mut p, IrType::Unit, ValueKind::Return(Some(x)));
    p.blocks.push(BlockData { name: None, params: vec![], insts: vec![br] });
    p.blocks.push(BlockData { name: None, params: vec![], insts: vec![j1] });
    p.blocks.push(BlockData { name: None, params: vec![x], insts: vec![r] });
    p.funcs.push(FunctionData {
        name: "@f".to_owned(),
        param_tys: vec![IrType::Int32],
        ret_ty: IrType::Int32,
        params: vec![c],
        layout: vec![0, 1, 2],
    });
    let mut pass = RemoveEmptyBB;
    assert!(pass.run_on(&mut p, 0));
    assert_eq!(p.funcs[0].layout, vec![0, 2]);
    assert!(matches!(&p.values[br].kind, ValueKind::Branch(_, 2, ta, 2, fa) if ta == &vec![seven] && fa == &vec![c]));
}

/// `@f`: entry computes `%c = 1 + 2` and branches on `%c > 2` to `then`,
/// which returns `%c`, or to `else`, which returns 0.
fn folding() -> (Program, usize, [usize; 6]) {
    let mut p = Program::new();
    let one = integer(&mut p, 1);
    let two = integer(&mut p, 2);
    let zero = integer(&mut p, 0);
    let c = binary(&mut p, IrBinaryOp::Add, one, two);
    let cond = binary(&mut p, IrBinaryOp::Gt, c, two);
    p.blocks.push(BlockData { name: Some("%entry".to_owned()), params: vec![], insts: vec![] });
    p.blocks.push(BlockData { name: Some("%then".to_owned()), params: vec![], insts: vec![] });
    p.blocks.push(BlockData { name: Some("%else".to_owned()), params: vec![], insts: vec![] });
    let br = val(&mut p, IrType::Unit, ValueKind::Branch(cond, 1, vec![], 2, vec![]));
    let r1 = val(&mut p, IrType::Unit, ValueKind::Return(Some(c)));
    let r2 = val(&mut p, IrType::Unit, ValueKind::Return(Some(zero)));
    p.blocks[0].insts = vec![c, cond, br];
    p.blocks[1].insts = vec![r1];
    p.blocks[2].insts = vec![r2];
    p.funcs.push(FunctionData {
        name: "@f".to_owned(),
        param_tys: vec![],
        ret_ty: IrType::Int32,
        params: vec![],
        layout: vec![0, 1, 2],
    });
    (p, 0, [c, cond, br, r1, r2, zero])
}

#[test]
fn constants_fold_and_branches_become_jumps() {
    let (mut p, f, [c, cond, br, r1, _, _]) = folding();
    let mut sccp = SCCP::new();
    assert!(sccp.run_on(&mut p, f));
    assert!(matches!(p.values[c].kind, ValueKind::Integer(3)));
    assert!(matches!(p.values[cond].kind, ValueKind::Integer(1)));
    assert!(matches!(&p.values[br].kind, ValueKind::Jump(1, a) if a.is_empty()));
    assert_eq!(p.blocks[0].insts, vec![br]);
    assert!(matches!(p.values[r1].kind, ValueKind::Return(Some(x)) if x == c));
}

#[test]
fn constant_block_parameter_goes() {
    // entry jumps to `next(5)`; `next(%x)` computes `%y = %x * 2` and returns it
    let mut p = Program::new();
    let five = integer(&mut p, 5);
    let two = integer(&mut p, 2);
    let x = val(&mut p, IrType::Int32, ValueKind::BlockArgRef(0));
    let y = binary(&mut p, IrBinaryOp::Mul, x, two);
    let j = val(&mut p, IrType::Unit, ValueKind::Jump(1, vec![five]));
    let r = val(&mut p, IrType::Unit, ValueKind::Return(Some(y)));
    p.blocks.push(BlockData { name: Some("%entry".to_owned()), params: vec![], insts: vec![j] });
    p.blocks.push(BlockData { name: Some("%next".to_owned()), params: vec![x], insts: vec![y, r] });
    p.funcs.push(FunctionData {
        name: "@f".to_owned(),
        param_tys: vec![],
        ret_ty: IrType::Int32,
        params: vec![],
        layout: vec![0, 1],
    });
    let mut sccp = SCCP::new();
    assert!(sccp.run_on(&mut p, 0));
    assert!(matches!(p.values[x].kind, ValueKind::Integer(5)));
    assert!(matches!(p.values[y].kind, ValueKind::Integer(10)));
    assert!(p.blocks[1].params.is_empty());
    assert!(matches!(&p.values[j].kind, ValueKind::Jump(1, a) if a.is_empty()));
    assert_eq!(p.blocks[1].insts, vec![r]);
}

#[test]
fn division_by_a_constant_zero_stops() {
    let mut p = Program::new();
    let one = integer(&mut p, 1);
    let zero = integer(&mut p, 0);
    let d = binary(&mut p, IrBinaryOp::Div, one, zero);
    let r = val(&mut p, IrType::Unit, ValueKind::Return(Some(d)));
    let f = one_block(&mut p, vec![], vec![d, r]);
    let mut sccp = SCCP::new();
    assert!(!sccp.run_on(&mut p, f));
}

#[test]
fn a_value_that_varies_stays() {
    let mut p = Program::new();
    let a = val(&mut p, IrType::Int32, ValueKind::FuncArgRef(0));
    let one = integer(&mut p, 1);
    let s = binary(&mut p, IrBinaryOp::Add, a, one);
    let r = val(&mut p, IrType::Unit, ValueKind::Return(Some(s)));
    let f = one_block(&mut p, vec![a], vec![s, r]);
    let mut sccp = SCCP::new();
    assert!(sccp.run_on(&mut p, f));
    assert!(matches!(p.values[s].kind, ValueKind::Binary(IrBinaryOp::Add, x, y) if x == a && y == one));
    assert_eq!(p.blocks[0].insts, vec![s, r]);
}

#[test]
fn optimize_folds_a_local_variable_into_a_constant() {
    // %x = alloc i32; store 1, %x; %v = load %x; %s = add %v, 2; ret %s
    let mut p = Program::new();
    let one = integer(&mut p, 1);
    let two = integer(&mut p, 2);
    let x = val(&mut p, IrType::Pointer(Box::new(IrType::Int32)), ValueKind::Alloc);
    let st = val(&mut p, IrType::Unit, ValueKind::Store(one, x));
    let ld = val(&mut p, IrType::Int32, ValueKind::Load(x));
    let s = binary(&mut p, IrBinaryOp::Add, ld, two);
    let r = val(&mut p, IrType::Unit, ValueKind::Return(Some(s)));
    let f = one_block(&mut p, vec![], vec![x, st, ld, s, r]);
    assert_eq!(optimize(&mut p), Ok(()));
    let entry = p.funcs[f].layout[0];
    // the variable, its store and its load are gone
    assert!(!p.blocks[entry].insts.contains(&x));
    assert!(!p.blocks[entry].insts.contains(&st));
    assert!(!p.blocks[entry].insts.contains(&ld));
    assert_eq!(p.blocks[entry].insts.last(), Some(&r));
}

#[test]
fn optimize_leaves_a_program_without_bodies() {
    let mut p = Program::new();
    p.funcs.push(FunctionData {
        name: "@getint".to_owned(),
        param_tys: vec![],
        ret_ty: IrType::Int32,
        params: vec![],
        layout: vec![],
    });
    assert_eq!(optimize(&mut p), Ok(()));
    assert_eq!(p.funcs.len(), 1);
    assert!(p.funcs[0].layout.is_empty());
}

#[test]
fn optimize_names_an_ill_formed_function() {
    let mut p = Program::new();
    let r = val(&mut p, IrType::Unit, ValueKind::Return(None));
    let f = one_block(&mut p, vec![], vec![r, r]);
    assert_eq!(optimize(&mut p), Err(OptError::IllFormed(f)));
}

#[test]
fn build_ssa_refuses_an_allocation_that_is_not_a_pointer() {
    let mut p = Program::new();
    let x = val(&mut p, IrType::Int32, ValueKind::Alloc);
    let r = val(&mut p, IrType::Unit, ValueKind::Return(None));
    let f = one_block(&mut p, vec![], vec![x, r]);
    assert!(!check_allocs_typed(&p, f));
    assert_eq!(build_ssa(&mut p, f), Err(OptError::Unsupported(f)));
    assert_eq!(p.blocks[0].insts, vec![x, r]);
}

#[test]
fn build_ssa_names_the_pass_where_a_load_stays_used() {
    let mut p = Program::new();
    let one = integer(&mut p, 1);
    let x = val(&mut p, IrType::Pointer(Box::new(IrType::Int32)), ValueKind::Alloc);
    let st = val(&mut p, IrType::Unit, ValueKind::Store(one, x));
    let ld = val(&mut p, IrType::Int32, ValueKind::Load(x));
    let s = binary(&mut p, IrBinaryOp::Add, ld, ld);
    let r = val(&mut p, IrType::Unit, ValueKind::Return(Some(s)));
    let f = one_block(&mut p, vec![], vec![x, st, ld, s, r]);
    assert!(check_allocs_typed(&p, f));
    assert_eq!(build_ssa(&mut p, f), Err(OptError::Stopped(PassName::Ssa, f)));
}
