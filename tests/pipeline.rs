use sprout::ast::{BinaryOp, Expr, UnaryOp};
use sprout::codegen::{codegen_function, codegen_module, Block, Cfg, CodegenError, Op, Terminator};
use sprout::ir::{Function, Inst, Module, Slot, ValueId};
use sprout::lower::{count_values, lower_expr, lower_into, lower_program_to_module, LowerError};
use sprout::opt::{constant_folding, optimize_module};
use sprout::run::{run_cfg, RunError};
use sprout::sem::{eval_arith, ArithOp};

fn num(n: i64) -> Expr {
    Expr::Number(n)
}

fn ident(s: &str) -> Expr {
    Expr::Ident(s.to_string())
}

fn bin(l: Expr, op: BinaryOp, r: Expr) -> Expr {
    Expr::Binary { left: Box::new(l), op, right: Box::new(r) }
}

fn neg(e: Expr) -> Expr {
    Expr::Unary { op: UnaryOp::Neg, expr: Box::new(e) }
}

fn iff(c: Expr, t: Expr, e: Option<Expr>) -> Expr {
    Expr::If { cond: Box::new(c), body: Box::new(t), else_branch: e.map(Box::new) }
}

fn compile(exprs: &[Expr]) -> Module {
    let mut m = lower_program_to_module(exprs).expect("lowering");
    optimize_module(&mut m);
    m
}

fn run_program(exprs: &[Expr]) -> Result<i64, RunError> {
    let m = compile(exprs);
    let cfg = codegen_module(&m).expect("codegen");
    run_cfg(&cfg)
}

fn body(m: &Module) -> &Vec<Inst> {
    &m.functions[0].body
}

#[test]
fn precedence_program_folds_to_seven() {
    let e = bin(num(1), BinaryOp::Add, bin(num(2), BinaryOp::Mul, num(3)));
    let m = compile(&[e]);
    let b = body(&m);
    let ret = match b.last() {
        Some(Inst::Return { src }) => *src,
        other => panic!("expected a return, got {:?}", other),
    };
    let producer = b.iter().find(|i| match i {
        Inst::Const { dst, .. } => *dst == ret,
        _ => false,
    });
    assert!(matches!(producer, Some(Inst::Const { value: 7, .. })));
    assert!(!b.iter().any(|i| matches!(i, Inst::Add { .. } | Inst::Mul { .. })));
    assert_eq!(run_program(&[bin(num(1), BinaryOp::Add, bin(num(2), BinaryOp::Mul, num(3)))]), Ok(7));
}

#[test]
fn negated_difference_is_minus_two() {
    let e = neg(bin(num(4), BinaryOp::Sub, num(2)));
    assert_eq!(run_program(&[e]), Ok(-2));
}

#[test]
fn assignment_then_use_returns_six() {
    let prog = [bin(ident("a"), BinaryOp::Assign, num(5)), bin(ident("a"), BinaryOp::Add, num(1))];
    let m = compile(&prog);
    let b = body(&m);
    let stores: Vec<&Inst> = b.iter().filter(|i| matches!(i, Inst::Store { .. })).collect();
    assert_eq!(stores.len(), 1);
    let src = match stores[0] {
        Inst::Store { name: Slot::Var(n), src } => {
            assert_eq!(n, "a");
            *src
        }
        other => panic!("unexpected store {:?}", other),
    };
    assert!(b.iter().any(|i| matches!(i, Inst::Const { dst, value: 5 } if *dst == src)));
    assert_eq!(run_program(&prog), Ok(6));
}

#[test]
fn if_else_takes_one_branch() {
    let yes = iff(bin(num(1), BinaryOp::Greater, num(0)), num(10), Some(num(20)));
    assert_eq!(run_program(&[yes]), Ok(10));
    let no = iff(bin(num(0), BinaryOp::Greater, num(1)), num(10), Some(num(20)));
    assert_eq!(run_program(&[no]), Ok(20));
}

#[test]
fn known_division_by_zero_is_left_to_run_time() {
    let mut f = Function::new("main".to_string());
    let x = f.fresh_value();
    let z = f.fresh_value();
    let q = f.fresh_value();
    f.body.push(Inst::Const { dst: x, value: 10 });
    f.body.push(Inst::Const { dst: z, value: 0 });
    f.body.push(Inst::Div { dst: q, lhs: x, rhs: z });
    f.body.push(Inst::Return { src: q });
    constant_folding(&mut f);
    assert!(matches!(f.body[2], Inst::Div { dst, lhs, rhs } if dst == q && lhs == x && rhs == z));
    let cfg = codegen_function(&f).expect("codegen");
    assert!(cfg.blocks[0].ops.contains(&Op::Arith { op: ArithOp::Div, dst: q, lhs: x, rhs: z }));
    assert_eq!(run_cfg(&cfg), Err(RunError::DivideByZero));
}

#[test]
fn division_by_zero_in_source_is_not_folded() {
    let prog = [bin(ident("x"), BinaryOp::Assign, num(10)), bin(ident("x"), BinaryOp::Div, num(0))];
    let m = compile(&prog);
    assert!(body(&m).iter().any(|i| matches!(i, Inst::Div { .. })));
    assert_eq!(run_program(&prog), Err(RunError::DivideByZero));
    let lit = [bin(num(10), BinaryOp::Div, num(0))];
    let m = compile(&lit);
    assert!(body(&m).iter().any(|i| matches!(i, Inst::Div { .. })));
    assert_eq!(run_program(&lit), Err(RunError::DivideByZero));
}

#[test]
fn body_without_return_returns_zero() {
    let mut f = Function::new("main".to_string());
    let v = f.fresh_value();
    f.body.push(Inst::Const { dst: v, value: 42 });
    let cfg = codegen_function(&f).expect("codegen");
    assert_eq!(cfg.blocks.len(), 1);
    assert_eq!(cfg.blocks[0].term, Some(Terminator::ReturnZero));
    assert_eq!(run_cfg(&cfg), Ok(0));
}

#[test]
fn empty_program_returns_zero() {
    let m = compile(&[]);
    assert_eq!(body(&m).len(), 2);
    assert!(matches!(body(&m)[0], Inst::Const { value: 0, .. }));
    assert_eq!(run_program(&[]), Ok(0));
}

#[test]
fn fresh_values_strictly_increase() {
    let mut f = Function::new("f".to_string());
    let mut last: Option<u32> = None;
    for _ in 0..100 {
        let v = f.fresh_value();
        if let Some(p) = last {
            assert_eq!(v.id(), p + 1);
        }
        last = Some(v.id());
    }
    assert_eq!(f.value_count(), 100);
}

#[test]
fn lowered_values_never_repeat() {
    let e = iff(
        bin(ident("c"), BinaryOp::Assign, num(1)),
        bin(num(1), BinaryOp::Add, neg(num(2))),
        Some(iff(ident("true"), num(3), None)),
    );
    let m = lower_program_to_module(&[e]).expect("lowering");
    fn collect(insts: &[Inst], out: &mut Vec<u32>) {
        for i in insts {
            match i {
                Inst::Const { dst, .. }
                | Inst::Boolean { dst, .. }
                | Inst::Add { dst, .. }
                | Inst::Sub { dst, .. }
                | Inst::Mul { dst, .. }
                | Inst::Div { dst, .. }
                | Inst::Greater { dst, .. }
                | Inst::Less { dst, .. }
                | Inst::Equal { dst, .. }
                | Inst::Call { dst, .. }
                | Inst::Load { dst, .. } => out.push(dst.id()),
                Inst::Conditional { then_insts, else_insts, dst, .. } => {
                    collect(then_insts, out);
                    out.push(dst.id());
                    collect(else_insts, out);
                }
                Inst::Store { .. } | Inst::Return { .. } => {}
            }
        }
    }
    let mut ids = Vec::new();
    collect(body(&m), &mut ids);
    assert!(ids.windows(2).all(|w| w[0] < w[1]));
    assert_eq!(m.functions[0].value_count() as usize, ids.len());
}

#[test]
fn folding_keeps_results() {
    let programs: Vec<Vec<Expr>> = vec![
        vec![bin(bin(num(7), BinaryOp::Sub, num(9)), BinaryOp::Mul, bin(num(3), BinaryOp::Div, num(2)))],
        vec![bin(ident("y"), BinaryOp::Assign, num(4)), bin(ident("y"), BinaryOp::Mul, bin(num(2), BinaryOp::Add, num(3)))],
        vec![iff(bin(num(2), BinaryOp::Less, num(3)), bin(num(5), BinaryOp::Mul, num(5)), Some(num(0)))],
        vec![bin(num(i64::MIN), BinaryOp::Div, neg(num(1)))],
    ];
    for p in programs {
        let plain = lower_program_to_module(&p).expect("lowering");
        let unfolded = run_cfg(&codegen_module(&plain).expect("codegen"));
        let folded = run_cfg(&codegen_module(&compile(&p)).expect("codegen"));
        assert_eq!(unfolded, folded);
    }
}

#[test]
fn folding_replaces_instruction_in_place() {
    let m0 = lower_program_to_module(&[bin(num(6), BinaryOp::Div, num(3))]).expect("lowering");
    let len0 = body(&m0).len();
    let m = compile(&[bin(num(6), BinaryOp::Div, num(3))]);
    assert_eq!(body(&m).len(), len0);
    assert!(body(&m).iter().any(|i| matches!(i, Inst::Const { value: 2, .. })));
    assert!(!body(&m).iter().any(|i| matches!(i, Inst::Div { .. })));
}

#[test]
fn comparisons_are_not_folded() {
    let m = compile(&[bin(num(3), BinaryOp::Equal, num(3))]);
    assert!(body(&m).iter().any(|i| matches!(i, Inst::Equal { .. })));
    assert_eq!(run_program(&[bin(num(3), BinaryOp::Equal, num(3))]), Ok(1));
    assert_eq!(run_program(&[bin(num(3), BinaryOp::Less, num(2))]), Ok(0));
}

#[test]
fn folding_wraps_like_the_machine() {
    let e = bin(num(i64::MAX), BinaryOp::Add, num(1));
    let m = compile(&[bin(num(i64::MAX), BinaryOp::Add, num(1))]);
    assert!(body(&m).iter().any(|i| matches!(i, Inst::Const { value: i64::MIN, .. })));
    assert_eq!(run_program(&[e]), Ok(i64::MIN));
}

#[test]
fn minimum_divided_by_minus_one_faults() {
    let e = bin(num(i64::MIN), BinaryOp::Div, neg(num(1)));
    let m = compile(&[bin(num(i64::MIN), BinaryOp::Div, neg(num(1)))]);
    assert!(body(&m).iter().any(|i| matches!(i, Inst::Div { .. })));
    assert_eq!(run_program(&[e]), Err(RunError::Overflow));
}

#[test]
fn nested_if_stores_only_taken_branch() {
    let prog = [
        bin(ident("r"), BinaryOp::Assign, num(0)),
        iff(
            bin(num(1), BinaryOp::Equal, num(1)),
            iff(ident("false"), bin(ident("r"), BinaryOp::Assign, num(1)), Some(bin(ident("r"), BinaryOp::Assign, num(2)))),
            Some(bin(ident("r"), BinaryOp::Assign, num(3))),
        ),
        ident("r"),
    ];
    assert_eq!(run_program(&prog), Ok(2));
    let value = [iff(ident("true"), iff(ident("false"), num(1), Some(num(2))), Some(num(3)))];
    assert_eq!(run_program(&value), Ok(2));
}

#[test]
fn if_without_else_defaults_to_zero() {
    assert_eq!(run_program(&[iff(ident("false"), num(9), None)]), Ok(0));
    assert_eq!(run_program(&[iff(ident("true"), num(9), None)]), Ok(9));
}

#[test]
fn conditional_lays_out_three_blocks() {
    let m = compile(&[iff(ident("true"), num(1), Some(num(2)))]);
    let cfg = codegen_module(&m).expect("codegen");
    assert_eq!(cfg.blocks.len(), 4);
    assert!(matches!(cfg.blocks[0].term, Some(Terminator::Branch { then_block: 1, else_block: 2, .. })));
    assert_eq!(cfg.blocks[1].term, Some(Terminator::Jump { target: 3 }));
    assert_eq!(cfg.blocks[2].term, Some(Terminator::Jump { target: 3 }));
    assert!(matches!(cfg.blocks[3].term, Some(Terminator::Return { .. })));
    assert_eq!(cfg.slots.len(), 1);
    assert!(matches!(cfg.slots[0], Slot::Temp(_)));
}

#[test]
fn branch_ending_in_return_does_not_jump_to_merge() {
    let mut f = Function::new("main".to_string());
    let c = f.fresh_value();
    let one = f.fresh_value();
    let d = f.fresh_value();
    let two = f.fresh_value();
    f.body.push(Inst::Boolean { dst: c, value: true });
    let then_insts = vec![Inst::Const { dst: one, value: 1 }, Inst::Return { src: one }];
    let else_insts = vec![Inst::Const { dst: two, value: 2 }, Inst::Store { name: Slot::Temp(d), src: two }];
    f.body.push(Inst::Conditional { cond: c, then_insts, else_insts, dst: d });
    f.body.push(Inst::Return { src: d });
    let cfg = codegen_function(&f).expect("codegen");
    assert!(matches!(cfg.blocks[1].term, Some(Terminator::Return { .. })));
    assert_eq!(cfg.blocks[2].term, Some(Terminator::Jump { target: 3 }));
    assert_eq!(run_cfg(&cfg), Ok(1));
}

#[test]
fn load_of_undefined_variable_fails() {
    let m = compile(&[bin(ident("nope"), BinaryOp::Add, num(1))]);
    match codegen_module(&m) {
        Err(CodegenError::UndefinedVariable(Slot::Var(n))) => assert_eq!(n, "nope"),
        other => panic!("unexpected {:?}", other),
    }
}

#[test]
fn undefined_value_is_reported() {
    let mut f = Function::new("main".to_string());
    f.body.push(Inst::Add { dst: ValueId::new(2), lhs: ValueId::new(0), rhs: ValueId::new(1) });
    assert!(matches!(codegen_function(&f), Err(CodegenError::UndefinedValue(v)) if v.id() == 0));
}

#[test]
fn calls_are_unsupported() {
    let call = Expr::Call { callee: Box::new(ident("f")), args: vec![num(1), num(2)] };
    let m = compile(&[call]);
    assert!(body(&m).iter().any(|i| matches!(i, Inst::Call { args, .. } if args.len() == 2)));
    match codegen_module(&m) {
        Err(CodegenError::UnsupportedOperation(n)) => assert_eq!(n, "f"),
        other => panic!("unexpected {:?}", other),
    }
}

#[test]
fn missing_entry_point_is_reported() {
    let mut m = Module::new();
    m.add_function(Function::new("helper".to_string()));
    assert!(matches!(codegen_module(&m), Err(CodegenError::NoEntryPoint)));
}

#[test]
fn entry_point_is_found_by_name() {
    let mut m = Module::new();
    let mut other = Function::new("other".to_string());
    let v = other.fresh_value();
    other.body.push(Inst::Const { dst: v, value: 5 });
    other.body.push(Inst::Return { src: v });
    m.add_function(other);
    let main = lower_program_to_module(&[num(8)]).expect("lowering").functions.remove(0);
    m.add_function(main);
    assert_eq!(m.functions.len(), 2);
    assert_eq!(run_cfg(&codegen_module(&m).expect("codegen")), Ok(8));
}

#[test]
fn bad_assignment_target_is_rejected() {
    let e = bin(num(1), BinaryOp::Assign, num(2));
    assert!(matches!(lower_program_to_module(&[e]), Err(LowerError::AssignTarget)));
}

#[test]
fn bad_callee_is_rejected() {
    let e = Expr::Call { callee: Box::new(num(1)), args: vec![] };
    assert!(matches!(lower_program_to_module(&[e]), Err(LowerError::CallTarget)));
}

#[test]
fn booleans_lower_to_zero_and_one() {
    let m = compile(&[bin(ident("true"), BinaryOp::Add, ident("true"))]);
    assert!(body(&m).iter().any(|i| matches!(i, Inst::Boolean { value: true, .. })));
    assert_eq!(run_program(&[bin(ident("true"), BinaryOp::Add, ident("true"))]), Ok(2));
    assert_eq!(run_program(&[ident("false")]), Ok(0));
}

#[test]
fn branch_buffers_share_the_counter() {
    let mut f = Function::new("main".to_string());
    let a = lower_expr(&num(1), &mut f).expect("lowering");
    let mut buf = Vec::new();
    let b = lower_into(&bin(num(2), BinaryOp::Add, num(3)), &mut f, &mut buf).expect("lowering");
    assert_eq!(a.id(), 0);
    assert_eq!(b.id(), 3);
    assert_eq!(f.body.len(), 1);
    assert_eq!(buf.len(), 3);
    assert_eq!(f.value_count(), 4);
}

#[test]
fn value_counts_match_lowering() {
    let e = iff(num(1), neg(num(2)), None);
    assert_eq!(count_values(&e), 6);
    let m = lower_program_to_module(&[iff(num(1), neg(num(2)), None)]).expect("lowering");
    assert_eq!(m.functions[0].value_count(), 6);
}

#[test]
fn value_id_round_trips() {
    let v = ValueId::from_usize(17);
    assert_eq!(v.get_usize(), 17);
    assert_eq!(ValueId::new(5).id(), 5);
}

#[test]
fn arithmetic_matches_machine_rules() {
    assert_eq!(eval_arith(ArithOp::Div, -7, 2), Some(-3));
    assert_eq!(eval_arith(ArithOp::Mul, i64::MAX, 2), Some(-2));
    assert_eq!(eval_arith(ArithOp::Div, 1, 0), None);
    assert_eq!(eval_arith(ArithOp::Greater, 2, 1), Some(1));
}

#[test]
fn uninitialized_temporary_faults_at_run_time() {
    let mut f = Function::new("main".to_string());
    let c = f.fresh_value();
    let d = f.fresh_value();
    f.body.push(Inst::Boolean { dst: c, value: true });
    f.body.push(Inst::Conditional { cond: c, then_insts: vec![], else_insts: vec![], dst: d });
    f.body.push(Inst::Return { src: d });
    let cfg = codegen_function(&f).expect("codegen");
    assert_eq!(run_cfg(&cfg), Err(RunError::UninitializedSlot(0)));
}

#[test]
fn malformed_graphs_fail_to_run() {
    let open = Cfg { slots: vec![], blocks: vec![Block { ops: vec![], term: None }] };
    assert_eq!(run_cfg(&open), Err(RunError::MissingTerminator));
    let dangling = Cfg {
        slots: vec![],
        blocks: vec![
            Block { ops: vec![], term: Some(Terminator::Jump { target: 5 }) },
            Block { ops: vec![], term: Some(Terminator::ReturnZero) },
        ],
    };
    assert_eq!(run_cfg(&dangling), Err(RunError::BadTarget));
    let looping = Cfg { slots: vec![], blocks: vec![Block { ops: vec![], term: Some(Terminator::Jump { target: 0 }) }] };
    assert_eq!(run_cfg(&looping), Err(RunError::OutOfSteps));
    let unset = Cfg {
        slots: vec![],
        blocks: vec![Block { ops: vec![], term: Some(Terminator::Return { src: ValueId::new(3) }) }],
    };
    assert_eq!(run_cfg(&unset), Err(RunError::UndefinedValue(ValueId::new(3))));
}

#[test]
fn store_before_any_slot_use_allocates_one_slot_per_name() {
    let prog = [
        bin(ident("a"), BinaryOp::Assign, num(1)),
        bin(ident("b"), BinaryOp::Assign, num(2)),
        bin(ident("a"), BinaryOp::Assign, bin(ident("a"), BinaryOp::Add, ident("b"))),
        ident("a"),
    ];
    let cfg = codegen_module(&compile(&prog)).expect("codegen");
    assert_eq!(cfg.slots.len(), 2);
    assert_eq!(run_cfg(&cfg), Ok(3));
}

#[test]
fn untaken_branch_never_runs() {
    let cond = bin(num(1), BinaryOp::Greater, num(0));
    let e = iff(cond, num(10), Some(bin(num(1), BinaryOp::Div, num(0))));
    assert_eq!(run_program(&[e]), Ok(10));
    let cond = bin(num(0), BinaryOp::Greater, num(1));
    let e = iff(cond, bin(num(1), BinaryOp::Div, num(0)), Some(num(20)));
    assert_eq!(run_program(&[e]), Ok(20));
}

#[test]
fn call_after_return_is_still_rejected() {
    let mut f = Function::new("main".to_string());
    let v = f.fresh_value();
    let w = f.fresh_value();
    f.body.push(Inst::Const { dst: v, value: 1 });
    f.body.push(Inst::Return { src: v });
    f.body.push(Inst::Call { dst: w, callee: "g".to_string(), args: vec![v] });
    match codegen_function(&f) {
        Err(CodegenError::UnsupportedOperation(n)) => assert_eq!(n, "g"),
        other => panic!("unexpected {:?}", other),
    }
}

#[test]
fn undefined_value_after_return_is_still_reported() {
    let mut f = Function::new("main".to_string());
    let v = f.fresh_value();
    f.body.push(Inst::Const { dst: v, value: 1 });
    f.body.push(Inst::Return { src: v });
    f.body.push(Inst::Return { src: ValueId::new(7) });
    assert!(matches!(codegen_function(&f), Err(CodegenError::UndefinedValue(x)) if x.id() == 7));
}

#[test]
fn unreachable_code_in_a_branch_is_checked_not_emitted() {
    let mut f = Function::new("main".to_string());
    let c = f.fresh_value();
    let one = f.fresh_value();
    let d = f.fresh_value();
    let two = f.fresh_value();
    let late = f.fresh_value();
    f.body.push(Inst::Boolean { dst: c, value: true });
    let then_insts = vec![
        Inst::Const { dst: one, value: 1 },
        Inst::Return { src: one },
        Inst::Const { dst: late, value: 5 },
    ];
    let else_insts = vec![Inst::Const { dst: two, value: 2 }, Inst::Store { name: Slot::Temp(d), src: two }];
    f.body.push(Inst::Conditional { cond: c, then_insts, else_insts, dst: d });
    f.body.push(Inst::Return { src: d });
    let cfg = codegen_function(&f).expect("codegen");
    assert_eq!(cfg.blocks[1].ops.len(), 1);
    assert!(matches!(cfg.blocks[1].term, Some(Terminator::Return { .. })));
    assert_eq!(run_cfg(&cfg), Ok(1));

    let mut g = Function::new("main".to_string());
    let c = g.fresh_value();
    let one = g.fresh_value();
    let d = g.fresh_value();
    g.body.push(Inst::Boolean { dst: c, value: true });
    let then_insts = vec![
        Inst::Const { dst: one, value: 1 },
        Inst::Return { src: one },
        Inst::Load { dst: ValueId::new(9), name: Slot::Var("nowhere".to_string()) },
    ];
    g.body.push(Inst::Conditional { cond: c, then_insts, else_insts: vec![], dst: d });
    assert!(matches!(codegen_function(&g), Err(CodegenError::UndefinedVariable(Slot::Var(n))) if n == "nowhere"));
}
