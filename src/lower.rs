//! Lowering of syntax trees to instructions.
use vstd::prelude::*;
use vstd::string::*;
use crate::ast::{BinaryOp, Expr, UnaryOp};
use crate::ir::{Function, Inst, Module, Slot, SlotKey, ValueId};
use crate::sem::{ArithOp, InstV, insts_view, inst_view, lemma_insts_view_push};

verus! {

/// Why a syntax tree cannot be lowered.
#[derive(Debug, Clone, Copy, PartialEq, Eq, Structural)]
pub enum LowerError {
    /// The left side of an assignment is not a bare identifier.
    AssignTarget,
    /// The callee of a call is not a bare identifier.
    CallTarget,
    /// The program needs more values than a function's counter can issue.
    TooManyValues,
}

pub open spec fn word_true() -> Seq<char> {
    seq!['t', 'r', 'u', 'e']
}

pub open spec fn word_false() -> Seq<char> {
    seq!['f', 'a', 'l', 's', 'e']
}

/// The arithmetic or comparison instruction of a binary operator other than
/// assignment.
pub open spec fn op_arith(op: BinaryOp) -> ArithOp {
    match op {
        BinaryOp::Add => ArithOp::Add,
        BinaryOp::Sub => ArithOp::Sub,
        BinaryOp::Mul => ArithOp::Mul,
        BinaryOp::Div => ArithOp::Div,
        BinaryOp::Greater => ArithOp::Greater,
        BinaryOp::Less => ArithOp::Less,
        _ => ArithOp::Equal,
    }
}

/// The instructions that an expression lowers to, the value that holds its
/// result, and the next unused value.
pub struct Lowered {
    pub insts: Seq<InstV>,
    pub val: nat,
    pub next: nat,
}

/// Lowered call arguments: the instructions, the argument values in order,
/// and the next unused value.
pub struct LoweredArgs {
    pub insts: Seq<InstV>,
    pub vals: Seq<nat>,
    pub next: nat,
}

/// The number of values that lowering an expression draws.
pub open spec fn values_used(e: Expr) -> nat
    decreases e,
{
    match e {
        Expr::Number(_) => 1,
        Expr::Ident(_) => 1,
        Expr::Unary { expr, .. } => values_used(*expr) + 2,
        Expr::Binary { left, op, right } => if op == BinaryOp::Assign {
            values_used(*right) + 1
        } else {
            values_used(*right) + values_used(*left) + 1
        },
        Expr::Call { args, .. } => args_used(args@) + 1,
        Expr::If { cond, body, else_branch } => values_used(*cond) + values_used(*body) + 1
            + match else_branch {
            Some(b) => values_used(*b),
            None => 1,
        },
    }
}

pub open spec fn args_used(args: Seq<Expr>) -> nat
    decreases args,
{
    if args.len() == 0 {
        0
    } else {
        values_used(args[0]) + args_used(args.subrange(1, args.len() as int))
    }
}

/// The instructions of an if/else: the condition's code, then one
/// `Conditional` whose branches each end by storing their value in the
/// conditional's temporary slot.
pub open spec fn lower_if(c: Lowered, t: Lowered, else_insts: Seq<InstV>, next: nat) -> Lowered {
    let dst = t.next;
    let then_insts = t.insts.push(InstV::Store { name: SlotKey::Temp(dst), src: t.val });
    Lowered {
        insts: c.insts.push(
            InstV::Conditional { cond: c.val, then_insts, else_insts, dst },
        ),
        val: dst,
        next,
    }
}

/// Lowering of one expression, drawing values from `n` on. The right
/// operand of a binary operator is lowered before the left one. Every
/// instruction's destination is drawn when that instruction is emitted, after
/// its operands' code, so that the values a body writes are issued in the
/// order their instructions appear in it (`lemma_program_ids_increase`).
pub open spec fn lower_spec(e: Expr, n: nat) -> Result<Lowered, LowerError>
    decreases e,
{
    match e {
        Expr::Number(v) => Ok(Lowered { insts: seq![InstV::Const { dst: n, value: v }], val: n, next: n + 1 }),
        Expr::Ident(name) => Ok(
            Lowered {
                insts: seq![
                    if name@ == word_true() {
                        InstV::Boolean { dst: n, value: true }
                    } else if name@ == word_false() {
                        InstV::Boolean { dst: n, value: false }
                    } else {
                        InstV::Load { dst: n, name: SlotKey::Var(name@) }
                    },
                ],
                val: n,
                next: n + 1,
            },
        ),
        Expr::Unary { expr, .. } => match lower_spec(*expr, n) {
            Ok(v) => Ok(
                Lowered {
                    insts: v.insts + seq![
                        InstV::Const { dst: v.next, value: 0 },
                        InstV::Arith { op: ArithOp::Sub, dst: v.next + 1, lhs: v.next, rhs: v.val },
                    ],
                    val: v.next + 1,
                    next: v.next + 2,
                },
            ),
            Err(err) => Err(err),
        },
        Expr::Binary { left, op, right } => match lower_spec(*right, n) {
            Ok(r) => if op == BinaryOp::Assign {
                match *left {
                    Expr::Ident(name) => Ok(
                        Lowered {
                            insts: r.insts + seq![
                                InstV::Store { name: SlotKey::Var(name@), src: r.val },
                                InstV::Load { dst: r.next, name: SlotKey::Var(name@) },
                            ],
                            val: r.next,
                            next: r.next + 1,
                        },
                    ),
                    _ => Err(LowerError::AssignTarget),
                }
            } else {
                match lower_spec(*left, r.next) {
                    Ok(l) => Ok(
                        Lowered {
                            insts: r.insts + l.insts + seq![
                                InstV::Arith { op: op_arith(op), dst: l.next, lhs: l.val, rhs: r.val },
                            ],
                            val: l.next,
                            next: l.next + 1,
                        },
                    ),
                    Err(err) => Err(err),
                }
            },
            Err(err) => Err(err),
        },
        Expr::Call { callee, args } => match *callee {
            Expr::Ident(name) => match lower_args_spec(args@, n) {
                Ok(a) => Ok(
                    Lowered {
                        insts: a.insts.push(InstV::Call { dst: a.next, callee: name@, args: a.vals }),
                        val: a.next,
                        next: a.next + 1,
                    },
                ),
                Err(err) => Err(err),
            },
            _ => Err(LowerError::CallTarget),
        },
        Expr::If { cond, body, else_branch } => match lower_spec(*cond, n) {
            Ok(c) => match lower_spec(*body, c.next) {
                Ok(t) => match else_branch {
                    Some(b) => match lower_spec(*b, t.next + 1) {
                        Ok(el) => Ok(
                            lower_if(
                                c,
                                t,
                                el.insts.push(InstV::Store { name: SlotKey::Temp(t.next), src: el.val }),
                                el.next,
                            ),
                        ),
                        Err(err) => Err(err),
                    },
                    None => Ok(
                        lower_if(
                            c,
                            t,
                            seq![
                                InstV::Const { dst: t.next + 1, value: 0 },
                                InstV::Store { name: SlotKey::Temp(t.next), src: t.next + 1 },
                            ],
                            t.next + 2,
                        ),
                    ),
                },
                Err(err) => Err(err),
            },
            Err(err) => Err(err),
        },
    }
}

/// Lowering of call arguments, left to right.
pub open spec fn lower_args_spec(args: Seq<Expr>, n: nat) -> Result<LoweredArgs, LowerError>
    decreases args,
{
    if args.len() == 0 {
        Ok(LoweredArgs { insts: seq![], vals: seq![], next: n })
    } else {
        match lower_spec(args[0], n) {
            Ok(first) => match lower_args_spec(args.subrange(1, args.len() as int), first.next) {
                Ok(rest) => Ok(
                    LoweredArgs {
                        insts: first.insts + rest.insts,
                        vals: seq![first.val].add(rest.vals),
                        next: rest.next,
                    },
                ),
                Err(err) => Err(err),
            },
            Err(err) => Err(err),
        }
    }
}

/// Lowering draws exactly `values_used` values, and the result value is one
/// of them.
pub proof fn lemma_lower_counts(e: Expr, n: nat)
    ensures
        lower_spec(e, n) matches Ok(l) ==> l.next == n + values_used(e) && n <= l.val < l.next,
    decreases e,
{
    match e {
        Expr::Unary { expr, .. } => lemma_lower_counts(*expr, n),
        Expr::Binary { left, op, right } => {
            lemma_lower_counts(*right, n);
            if let Ok(r) = lower_spec(*right, n) {
                lemma_lower_counts(*left, r.next);
            }
        },
        Expr::Call { args, .. } => lemma_lower_args_counts(args@, n),
        Expr::If { cond, body, else_branch } => {
            lemma_lower_counts(*cond, n);
            if let Ok(c) = lower_spec(*cond, n) {
                lemma_lower_counts(*body, c.next);
                if let Ok(t) = lower_spec(*body, c.next) {
                    if let Some(b) = else_branch {
                        lemma_lower_counts(*b, t.next + 1);
                    }
                }
            }
        },
        _ => {},
    }
}

pub proof fn lemma_lower_args_counts(args: Seq<Expr>, n: nat)
    ensures
        lower_args_spec(args, n) matches Ok(a) ==> a.next == n + args_used(args),
    decreases args,
{
    if args.len() > 0 {
        lemma_lower_counts(args[0], n);
        if let Ok(first) = lower_spec(args[0], n) {
            lemma_lower_args_counts(args.subrange(1, args.len() as int), first.next);
        }
    }
}


fn names_word(name: &String, word: &str) -> (r: bool)
    ensures
        r == (name@ == word@),
{
    *name == String::from_str(word)
}

/// The instruction for a binary operator other than assignment.
fn arith_inst(op: BinaryOp, dst: ValueId, lhs: ValueId, rhs: ValueId) -> (r: Inst)
    requires
        op != BinaryOp::Assign,
    ensures
        inst_view(r) == (InstV::Arith {
            op: op_arith(op),
            dst: dst.0 as nat,
            lhs: lhs.0 as nat,
            rhs: rhs.0 as nat,
        }),
{
    match op {
        BinaryOp::Add => Inst::Add { dst, lhs, rhs },
        BinaryOp::Sub => Inst::Sub { dst, lhs, rhs },
        BinaryOp::Mul => Inst::Mul { dst, lhs, rhs },
        BinaryOp::Div => Inst::Div { dst, lhs, rhs },
        BinaryOp::Greater => Inst::Greater { dst, lhs, rhs },
        BinaryOp::Less => Inst::Less { dst, lhs, rhs },
        _ => Inst::Equal { dst, lhs, rhs },
    }
}

/// Appends `i` to `out`, keeping the view of `out` in step.
pub(crate) fn emit(out: &mut Vec<Inst>, i: Inst)
    ensures
        insts_view(final(out)@) == insts_view(old(out)@) + seq![inst_view(i)],
{
    proof {
        lemma_insts_view_push(out@, i);
        assert(insts_view(out@).push(inst_view(i)) =~= insts_view(out@) + seq![inst_view(i)]);
    }
    out.push(i);
}

/// Lowers `expr` into the buffer `out`, drawing values from `func`'s counter,
/// so that code lowered into separate buffers never shares a value.
#[verifier::rlimit(40)]
pub fn lower_into(expr: &Expr, func: &mut Function, out: &mut Vec<Inst>) -> (r: Result<ValueId, LowerError>)
    requires
        old(func).counter() + values_used(*expr) <= u32::MAX,
    ensures
        final(func).name == old(func).name,
        final(func).body == old(func).body,
        match lower_spec(*expr, old(func).counter()) {
            Ok(l) => r matches Ok(v) && v.0 == l.val && insts_view(final(out)@) == insts_view(
                old(out)@,
            ) + l.insts && final(func).counter() == l.next,
            Err(e) => r == Err::<ValueId, LowerError>(e),
        },
    decreases *expr,
{
    let ghost n0 = func.counter();
    let ghost start = insts_view(out@);
    proof {
        lemma_lower_counts(*expr, n0);
    }
    match expr {
        Expr::Number(v) => {
            let dst = func.fresh_value();
            emit(out, Inst::Const { dst, value: *v });
            Ok(dst)
        },
        Expr::Ident(name) => {
            let dst = func.fresh_value();
            proof {
                reveal_strlit("true");
                reveal_strlit("false");
                assert("true"@ =~= word_true());
                assert("false"@ =~= word_false());
            }
            if names_word(name, "true") {
                emit(out, Inst::Boolean { dst, value: true });
            } else if names_word(name, "false") {
                emit(out, Inst::Boolean { dst, value: false });
            } else {
                emit(out, Inst::Load { dst, name: Slot::Var(name.clone()) });
            }
            Ok(dst)
        },
        Expr::Unary { op, expr: inner } => {
            let val = match lower_into(inner, func, out) {
                Ok(v) => v,
                Err(e) => {
                    return Err(e);
                },
            };
            proof {
                lemma_lower_counts(**inner, n0);
            }
            match op {
                UnaryOp::Neg => {
                    let zero = func.fresh_value();
                    emit(out, Inst::Const { dst: zero, value: 0 });
                    let dst = func.fresh_value();
                    emit(out, Inst::Sub { dst, lhs: zero, rhs: val });
                    proof {
                        let l = lower_spec(**inner, n0)->Ok_0;
                        assert(insts_view(out@) =~= start + (l.insts + seq![
                            InstV::Const { dst: l.next, value: 0 },
                            InstV::Arith { op: ArithOp::Sub, dst: l.next + 1, lhs: l.next, rhs: l.val },
                        ]));
                    }
                    Ok(dst)
                },
            }
        },
        Expr::Binary { left, op, right } => {
            let rhs = match lower_into(right, func, out) {
                Ok(v) => v,
                Err(e) => {
                    return Err(e);
                },
            };
            proof {
                lemma_lower_counts(**right, n0);
            }
            let ghost r = lower_spec(**right, n0)->Ok_0;
            if *op == BinaryOp::Assign {
                match &**left {
                    Expr::Ident(name) => {
                        let dst = func.fresh_value();
                        emit(out, Inst::Store { name: Slot::Var(name.clone()), src: rhs });
                        emit(out, Inst::Load { dst, name: Slot::Var(name.clone()) });
                        proof {
                            assert(insts_view(out@) =~= start + (r.insts + seq![
                                InstV::Store { name: SlotKey::Var(name@), src: r.val },
                                InstV::Load { dst: r.next, name: SlotKey::Var(name@) },
                            ]));
                        }
                        Ok(dst)
                    },
                    _ => Err(LowerError::AssignTarget),
                }
            } else {
                let lhs = match lower_into(left, func, out) {
                    Ok(v) => v,
                    Err(e) => {
                        return Err(e);
                    },
                };
                proof {
                    lemma_lower_counts(**left, r.next);
                }
                let dst = func.fresh_value();
                emit(out, arith_inst(*op, dst, lhs, rhs));
                proof {
                    let l = lower_spec(**left, r.next)->Ok_0;
                    assert(insts_view(out@) =~= start + (r.insts + l.insts + seq![
                        InstV::Arith { op: op_arith(*op), dst: l.next, lhs: l.val, rhs: r.val },
                    ]));
                }
                Ok(dst)
            }
        },
        Expr::Call { callee, args } => {
            match &**callee {
                Expr::Ident(name) => {
                    let arg_ids = match lower_args(args, func, out) {
                        Ok(v) => v,
                        Err(e) => {
                            return Err(e);
                        },
                    };
                    proof {
                        lemma_lower_args_counts(args@, n0);
                    }
                    let dst = func.fresh_value();
                    let ghost a = lower_args_spec(args@, n0)->Ok_0;
                    emit(out, Inst::Call { dst, callee: name.clone(), args: arg_ids });
                    proof {
                        assert(insts_view(out@) =~= start + a.insts.push(
                            InstV::Call { dst: a.next, callee: name@, args: a.vals },
                        ));
                    }
                    Ok(dst)
                },
                _ => Err(LowerError::CallTarget),
            }
        },
        Expr::If { cond, body, else_branch } => {
            let cond_val = match lower_into(cond, func, out) {
                Ok(v) => v,
                Err(e) => {
                    return Err(e);
                },
            };
            proof {
                lemma_lower_counts(**cond, n0);
            }
            let ghost c = lower_spec(**cond, n0)->Ok_0;
            let mut then_insts: Vec<Inst> = Vec::new();
            proof {
                assert(insts_view(then_insts@) =~= Seq::<InstV>::empty());
            }
            let then_val = match lower_into(body, func, &mut then_insts) {
                Ok(v) => v,
                Err(e) => {
                    return Err(e);
                },
            };
            proof {
                lemma_lower_counts(**body, c.next);
            }
            let ghost t = lower_spec(**body, c.next)->Ok_0;
            let dst = func.fresh_value();
            emit(&mut then_insts, Inst::Store { name: Slot::Temp(dst), src: then_val });
            let mut else_insts: Vec<Inst> = Vec::new();
            proof {
                assert(insts_view(else_insts@) =~= Seq::<InstV>::empty());
                assert(insts_view(then_insts@) =~= t.insts.push(
                    InstV::Store { name: SlotKey::Temp(t.next), src: t.val },
                ));
            }
            match else_branch {
                Some(b) => {
                    let else_val = match lower_into(b, func, &mut else_insts) {
                        Ok(v) => v,
                        Err(e) => {
                            return Err(e);
                        },
                    };
                    emit(&mut else_insts, Inst::Store { name: Slot::Temp(dst), src: else_val });
                    proof {
                        let el = lower_spec(**b, t.next + 1)->Ok_0;
                        assert(insts_view(else_insts@) =~= el.insts.push(
                            InstV::Store { name: SlotKey::Temp(t.next), src: el.val },
                        ));
                    }
                },
                None => {
                    let else_val = func.fresh_value();
                    emit(&mut else_insts, Inst::Const { dst: else_val, value: 0 });
                    emit(&mut else_insts, Inst::Store { name: Slot::Temp(dst), src: else_val });
                    proof {
                        assert(insts_view(else_insts@) =~= seq![
                            InstV::Const { dst: t.next + 1, value: 0 },
                            InstV::Store { name: SlotKey::Temp(t.next), src: t.next + 1 },
                        ]);
                    }
                },
            }
            let ghost tv = insts_view(then_insts@);
            let ghost ev = insts_view(else_insts@);
            emit(out, Inst::Conditional { cond: cond_val, then_insts, else_insts, dst });
            proof {
                assert(insts_view(out@) =~= start + c.insts.push(
                    InstV::Conditional { cond: c.val, then_insts: tv, else_insts: ev, dst: t.next },
                ));
            }
            Ok(dst)
        },
    }
}

/// Lowers call arguments left to right into `out`.
fn lower_args(args: &Vec<Expr>, func: &mut Function, out: &mut Vec<Inst>) -> (r: Result<Vec<ValueId>, LowerError>)
    requires
        old(func).counter() + args_used(args@) <= u32::MAX,
    ensures
        final(func).name == old(func).name,
        final(func).body == old(func).body,
        match lower_args_spec(args@, old(func).counter()) {
            Ok(a) => r matches Ok(v) && crate::sem::ids(v@) == a.vals && insts_view(final(out)@)
                == insts_view(old(out)@) + a.insts && final(func).counter() == a.next,
            Err(e) => r == Err::<Vec<ValueId>, LowerError>(e),
        },
    decreases *args,
{
    let ghost n0 = func.counter();
    let ghost start = insts_view(out@);
    let mut vals: Vec<ValueId> = Vec::new();
    let ghost mut done: Seq<InstV> = seq![];
    let mut i: usize = 0;
    proof {
        assert(args@.subrange(0, args@.len() as int) =~= args@);
        assert(crate::sem::ids(vals@) =~= seq![]);
        assert(start + done =~= start);
    }
    while i < args.len()
        invariant
            0 <= i <= args@.len(),
            n0 == old(func).counter(),
            start == insts_view(old(out)@),
            func.name == old(func).name,
            func.body == old(func).body,
            func.counter() + args_used(args@.subrange(i as int, args@.len() as int)) <= u32::MAX,
            insts_view(out@) == start + done,
            lower_args_spec(args@, n0) == prefix_args(
                done,
                crate::sem::ids(vals@),
                lower_args_spec(args@.subrange(i as int, args@.len() as int), func.counter()),
            ),
        decreases args@.len() - i,
    {
        let ghost rest = args@.subrange(i as int, args@.len() as int);
        let ghost c = func.counter();
        proof {
            assert(rest[0] == args@[i as int]);
            assert(rest.subrange(1, rest.len() as int) =~= args@.subrange(i + 1, args@.len() as int));
            lemma_lower_counts(args@[i as int], c);
            assert(decreases_to!(*args => args@[i as int]));
        }
        let v = match lower_into(&args[i], func, out) {
            Ok(v) => v,
            Err(e) => {
                proof {
                    assert(lower_args_spec(rest, c) == Err::<LoweredArgs, LowerError>(e));
                    assert(lower_args_spec(args@, n0) == Err::<LoweredArgs, LowerError>(e));
                }
                return Err(e);
            },
        };
        proof {
            let f = lower_spec(args@[i as int], c)->Ok_0;
            lemma_prefix_args(done, crate::sem::ids(vals@), f.insts, f.val,
                lower_args_spec(args@.subrange(i + 1, args@.len() as int), f.next));
            done = done + f.insts;
            assert(crate::sem::ids(vals@.push(v)) =~= crate::sem::ids(vals@).push(v.0 as nat));
        }
        vals.push(v);
        i = i + 1;
    }
    proof {
        assert(args@.subrange(i as int, args@.len() as int) =~= seq![]);
        assert(done + seq![] =~= done);
        assert(crate::sem::ids(vals@) + seq![] =~= crate::sem::ids(vals@));
    }
    Ok(vals)
}

/// Puts lowered arguments in front of the lowering of the ones after them.
pub open spec fn prefix_args(insts: Seq<InstV>, vals: Seq<nat>, rest: Result<LoweredArgs, LowerError>) -> Result<LoweredArgs, LowerError> {
    match rest {
        Ok(r) => Ok(LoweredArgs { insts: insts + r.insts, vals: vals + r.vals, next: r.next }),
        Err(e) => Err(e),
    }
}

proof fn lemma_prefix_args(
    insts: Seq<InstV>,
    vals: Seq<nat>,
    first: Seq<InstV>,
    v: nat,
    rest: Result<LoweredArgs, LowerError>,
)
    ensures
        prefix_args(insts, vals, prefix_args(first, seq![v], rest)) == prefix_args(
            insts + first,
            vals.push(v),
            rest,
        ),
{
    if let Ok(r) = rest {
        assert(insts + (first + r.insts) =~= insts + first + r.insts);
        assert(vals + (seq![v] + r.vals) =~= vals.push(v) + r.vals);
    }
}


/// Lowers `expr` onto the end of `func`'s body.
pub fn lower_expr(expr: &Expr, func: &mut Function) -> (r: Result<ValueId, LowerError>)
    requires
        old(func).counter() + values_used(*expr) <= u32::MAX,
    ensures
        final(func).name == old(func).name,
        match lower_spec(*expr, old(func).counter()) {
            Ok(l) => r matches Ok(v) && v.0 == l.val && insts_view(final(func).body@) == insts_view(
                old(func).body@,
            ) + l.insts && final(func).counter() == l.next,
            Err(e) => r == Err::<ValueId, LowerError>(e),
        },
{
    let mut body: Vec<Inst> = Vec::new();
    std::mem::swap(&mut body, &mut func.body);
    let r = lower_into(expr, func, &mut body);
    std::mem::swap(&mut body, &mut func.body);
    r
}

/// `x`, or one past the largest value a counter can issue where `x` is larger.
pub open spec fn capped(x: nat) -> nat {
    if x <= u32::MAX {
        x
    } else {
        (u32::MAX + 1) as nat
    }
}

/// Counts the values that lowering `e` draws, up to one past the counter's
/// limit.
pub fn count_values(e: &Expr) -> (r: u64)
    ensures
        r == capped(values_used(*e)),
    decreases *e,
{
    match e {
        Expr::Number(_) => 1,
        Expr::Ident(_) => 1,
        Expr::Unary { expr, .. } => {
            let c = count_values(expr);
            proof {
                lemma_capped_add(values_used(**expr), 2);
            }
            cap_sum(c, 2)
        },
        Expr::Binary { left, op, right } => {
            let r = count_values(right);
            proof {
                lemma_capped_add(values_used(**right), 1);
            }
            if *op == BinaryOp::Assign {
                cap_sum(r, 1)
            } else {
                let l = count_values(left);
                proof {
                    lemma_capped_add(values_used(**right), values_used(**left));
                    lemma_capped_add(values_used(**right) + values_used(**left), 1);
                }
                cap_sum(cap_sum(r, l), 1)
            }
        },
        Expr::Call { args, .. } => {
            let a = count_args(args);
            proof {
                lemma_capped_add(args_used(args@), 1);
            }
            cap_sum(a, 1)
        },
        Expr::If { cond, body, else_branch } => {
            let c = count_values(cond);
            let t = count_values(body);
            let el = match else_branch {
                Some(b) => count_values(b),
                None => 1,
            };
            proof {
                let ec: nat = match else_branch {
                    Some(b) => values_used(**b),
                    None => 1,
                };
                lemma_capped_add(values_used(**cond), values_used(**body));
                lemma_capped_add(values_used(**cond) + values_used(**body), 1);
                lemma_capped_add(values_used(**cond) + values_used(**body) + 1, ec);
            }
            cap_sum(cap_sum(cap_sum(c, t), 1), el)
        },
    }
}

proof fn lemma_capped_add(x: nat, y: nat)
    ensures
        capped(capped(x) + capped(y)) == capped(x + y),
{
}

/// The capped sum of two capped counts.
fn cap_sum(a: u64, b: u64) -> (r: u64)
    requires
        a <= u32::MAX + 1,
        b <= u32::MAX + 1,
    ensures
        r == capped((a + b) as nat),
{
    let s = a + b;
    if s > u32::MAX as u64 {
        u32::MAX as u64 + 1
    } else {
        s
    }
}

fn count_args(args: &Vec<Expr>) -> (r: u64)
    ensures
        r == capped(args_used(args@)),
    decreases *args,
{
    let mut acc: u64 = 0;
    let mut i: usize = args.len();
    proof {
        assert(args@.subrange(i as int, args@.len() as int) =~= seq![]);
    }
    while i > 0
        invariant
            i <= args@.len(),
            acc == capped(args_used(args@.subrange(i as int, args@.len() as int))),
        decreases i,
    {
        proof {
            let s = args@.subrange(i - 1, args@.len() as int);
            assert(s[0] == args@[i - 1]);
            assert(s.subrange(1, s.len() as int) =~= args@.subrange(i as int, args@.len() as int));
            assert(decreases_to!(*args => args@[i - 1]));
        }
        let c = count_values(&args[i - 1]);
        proof {
            lemma_capped_add(
                values_used(args@[i - 1]),
                args_used(args@.subrange(i as int, args@.len() as int)),
            );
        }
        acc = cap_sum(c, acc);
        i = i - 1;
    }
    proof {
        assert(args@.subrange(0, args@.len() as int) =~= args@);
    }
    acc
}

/// The lowered top-level expressions of a program, the value of the last one,
/// and the next unused value.
pub struct LoweredSeq {
    pub insts: Seq<InstV>,
    pub last: Option<nat>,
    pub next: nat,
}

/// Lowering of a sequence of top-level expressions into one body, in order.
pub open spec fn lower_seq_spec(es: Seq<Expr>) -> Result<LoweredSeq, LowerError>
    decreases es.len(),
{
    if es.len() == 0 {
        Ok(LoweredSeq { insts: seq![], last: None, next: 0 })
    } else {
        match lower_seq_spec(es.drop_last()) {
            Ok(p) => match lower_spec(es.last(), p.next) {
                Ok(l) => Ok(LoweredSeq { insts: p.insts + l.insts, last: Some(l.val), next: l.next }),
                Err(e) => Err(e),
            },
            Err(e) => Err(e),
        }
    }
}

/// The body of the `main` function of a program: its expressions in order,
/// then a return of the last one's value, or of 0 where there is none.
pub open spec fn program_spec(es: Seq<Expr>) -> Result<Seq<InstV>, LowerError> {
    match lower_seq_spec(es) {
        Ok(p) => Ok(
            match p.last {
                Some(v) => p.insts.push(InstV::Return { src: v }),
                None => seq![InstV::Const { dst: 0, value: 0 }, InstV::Return { src: 0 }],
            },
        ),
        Err(e) => Err(e),
    }
}

/// The number of values that lowering a program's expressions draws.
pub open spec fn seq_used(es: Seq<Expr>) -> nat
    decreases es.len(),
{
    if es.len() == 0 {
        0
    } else {
        seq_used(es.drop_last()) + values_used(es.last())
    }
}

pub open spec fn main_name() -> Seq<char> {
    seq!['m', 'a', 'i', 'n']
}

proof fn lemma_seq_err_extends(es: Seq<Expr>, i: int)
    requires
        0 <= i <= es.len(),
        lower_seq_spec(es.subrange(0, i)) is Err,
    ensures
        lower_seq_spec(es) == lower_seq_spec(es.subrange(0, i)),
    decreases es.len(),
{
    if i < es.len() {
        assert(es.drop_last().subrange(0, i) =~= es.subrange(0, i));
        lemma_seq_err_extends(es.drop_last(), i);
    } else {
        assert(es.subrange(0, i) =~= es);
    }
}

proof fn lemma_seq_used_prefix(es: Seq<Expr>, i: int)
    requires
        0 <= i <= es.len(),
    ensures
        seq_used(es.subrange(0, i)) <= seq_used(es),
    decreases es.len(),
{
    if i < es.len() {
        lemma_seq_used_prefix(es.drop_last(), i);
        assert(es.drop_last().subrange(0, i) =~= es.subrange(0, i));
    } else {
        assert(es.subrange(0, i) =~= es);
    }
}

/// Lowers a program, one top-level expression after another, into a module
/// with one function named "main" that returns the value of the last
/// expression, or 0 for an empty program.
pub fn lower_program_to_module(exprs: &[Expr]) -> (r: Result<Module, LowerError>)
    ensures
        seq_used(exprs@) >= u32::MAX ==> r == Err::<Module, LowerError>(LowerError::TooManyValues),
        seq_used(exprs@) < u32::MAX ==> match program_spec(exprs@) {
            Ok(body) => r matches Ok(m) && m.functions@.len() == 1 && m.functions@[0].name@
                == main_name() && insts_view(m.functions@[0].body@) == body,
            Err(e) => r == Err::<Module, LowerError>(e),
        },
{
    let mut total: u64 = 0;
    let mut i: usize = 0;
    proof {
        assert(exprs@.subrange(0, 0) =~= seq![]);
    }
    while i < exprs.len()
        invariant
            i <= exprs@.len(),
            total == capped(seq_used(exprs@.subrange(0, i as int))),
        decreases exprs@.len() - i,
    {
        proof {
            let s = exprs@.subrange(0, i + 1);
            assert(s.drop_last() =~= exprs@.subrange(0, i as int));
            assert(s.last() == exprs@[i as int]);
        }
        let c = count_values(&exprs[i]);
        proof {
            lemma_capped_add(seq_used(exprs@.subrange(0, i as int)), values_used(exprs@[i as int]));
        }
        total = cap_sum(total, c);
        i = i + 1;
    }
    proof {
        assert(exprs@.subrange(0, exprs@.len() as int) =~= exprs@);
    }
    if total >= u32::MAX as u64 {
        return Err(LowerError::TooManyValues);
    }
    proof {
        reveal_strlit("main");
        assert("main"@ =~= main_name());
    }
    let mut func = Function::new(String::from_str("main"));
    let mut last: Option<ValueId> = None;
    let ghost mut last_v: Option<nat> = None;
    let mut i: usize = 0;
    proof {
        assert(insts_view(func.body@) =~= seq![]);
        assert(exprs@.subrange(0, 0) =~= seq![]);
    }
    while i < exprs.len()
        invariant
            i <= exprs@.len(),
            seq_used(exprs@) < u32::MAX,
            func.name@ == main_name(),
            lower_seq_spec(exprs@.subrange(0, i as int)) == Ok::<LoweredSeq, LowerError>(
                LoweredSeq { insts: insts_view(func.body@), last: last_v, next: func.counter() },
            ),
            func.counter() == seq_used(exprs@.subrange(0, i as int)),
            last_v == (match last {
                Some(v) => Some(v.0 as nat),
                None => None::<nat>,
            }),
        decreases exprs@.len() - i,
    {
        let ghost s = exprs@.subrange(0, i + 1);
        proof {
            assert(s.drop_last() =~= exprs@.subrange(0, i as int));
            assert(s.last() == exprs@[i as int]);
            lemma_seq_used_prefix(exprs@, i + 1);
            lemma_lower_counts(exprs@[i as int], func.counter());
        }
        let v = match lower_expr(&exprs[i], &mut func) {
            Ok(v) => v,
            Err(e) => {
                proof {
                    lemma_seq_err_extends(exprs@, i + 1);
                }
                return Err(e);
            },
        };
        last = Some(v);
        proof {
            last_v = Some(v.0 as nat);
        }
        i = i + 1;
    }
    proof {
        assert(exprs@.subrange(0, exprs@.len() as int) =~= exprs@);
    }
    let result = match last {
        Some(v) => v,
        None => {
            let dst = func.fresh_value();
            emit(&mut func.body, Inst::Const { dst, value: 0 });
            dst
        },
    };
    emit(&mut func.body, Inst::Return { src: result });
    proof {
        if last_v is None {
            assert(insts_view(func.body@) =~= seq![
                InstV::Const { dst: 0, value: 0 },
                InstV::Return { src: 0 },
            ]);
        }
    }
    let mut module = Module::new();
    module.add_function(func);
    Ok(module)
}

} // verus!
