//! Properties that relate lowering, folding, code generation and running.
use vstd::prelude::*;
use crate::ast::Expr;
use crate::codegen::{
    Failure, GenState, check_inst, check_seq, gen_body, gen_inst, gen_seq, initial_state, slot_index,
};
use crate::ir::SlotKey;
use crate::lower::{lower_args_spec, lower_seq_spec, lower_spec, program_spec};
use crate::opt::{fold_body, lemma_fold_seq_sound};
use crate::sem::{Env, Flow, InstV, run_body, run_inst, run_insts};

verus! {

/// The values an instruction writes, in the order lowering issues them: for
/// a conditional, those of its `then` branch, then its own, then those of its
/// `else` branch.
pub open spec fn defs_inst(i: InstV) -> Seq<nat>
    decreases i,
{
    match i {
        InstV::Conditional { then_insts, else_insts, dst, .. } => defs(then_insts) + seq![dst] + defs(
            else_insts,
        ),
        InstV::Store { .. } => seq![],
        InstV::Return { .. } => seq![],
        InstV::Const { dst, .. } => seq![dst],
        InstV::Boolean { dst, .. } => seq![dst],
        InstV::Arith { dst, .. } => seq![dst],
        InstV::Call { dst, .. } => seq![dst],
        InstV::Load { dst, .. } => seq![dst],
    }
}

/// The values a sequence of instructions writes, in textual order.
pub open spec fn defs(s: Seq<InstV>) -> Seq<nat>
    decreases s,
{
    if s.len() == 0 {
        seq![]
    } else {
        defs(s.subrange(0, s.len() - 1)) + defs_inst(s[s.len() - 1])
    }
}

/// Strictly increasing, and every element in `[lo, hi)`.
pub open spec fn increasing_within(s: Seq<nat>, lo: nat, hi: nat) -> bool {
    &&& forall|i: int, j: int| 0 <= i < j < s.len() ==> s[i] < s[j]
    &&& forall|i: int| 0 <= i < s.len() ==> lo <= #[trigger] s[i] < hi
}

proof fn lemma_defs_append(a: Seq<InstV>, b: Seq<InstV>)
    ensures
        defs(a + b) == defs(a) + defs(b),
    decreases b.len(),
{
    if b.len() == 0 {
        assert(a + b =~= a);
        assert(defs(a) + defs(b) =~= defs(a));
    } else {
        let b0 = b.subrange(0, b.len() - 1);
        lemma_defs_append(a, b0);
        assert((a + b).subrange(0, (a + b).len() - 1) =~= a + b0);
        assert((a + b)[(a + b).len() - 1] == b[b.len() - 1]);
        assert(defs(a) + defs(b0) + defs_inst(b[b.len() - 1]) =~= defs(a) + (defs(b0) + defs_inst(
            b[b.len() - 1],
        )));
    }
}

proof fn lemma_defs_single(x: InstV)
    ensures
        defs(seq![x]) == defs_inst(x),
{
    assert(seq![x].subrange(0, 0) =~= Seq::<InstV>::empty());
    assert(defs(Seq::<InstV>::empty()) + defs_inst(x) =~= defs_inst(x));
}

proof fn lemma_defs_pair(x: InstV, y: InstV)
    ensures
        defs(seq![x, y]) == defs_inst(x) + defs_inst(y),
{
    lemma_defs_single(x);
    lemma_defs_push(seq![x], y);
    assert(seq![x].push(y) =~= seq![x, y]);
}

proof fn lemma_defs_push(a: Seq<InstV>, x: InstV)
    ensures
        defs(a.push(x)) == defs(a) + defs_inst(x),
{
    assert(a.push(x).subrange(0, a.len() as int) =~= a);
}

proof fn lemma_increasing_concat(a: Seq<nat>, b: Seq<nat>, lo: nat, mid: nat, hi: nat)
    requires
        lo <= mid <= hi,
        increasing_within(a, lo, mid),
        increasing_within(b, mid, hi),
    ensures
        increasing_within(a + b, lo, hi),
{
    assert forall|i: int, j: int| 0 <= i < j < (a + b).len() implies (a + b)[i] < (a + b)[j] by {
        if j < a.len() {
        } else if i >= a.len() {
            assert((a + b)[i] == b[i - a.len()]);
            assert((a + b)[j] == b[j - a.len()]);
        } else {
            assert((a + b)[i] == a[i]);
            assert((a + b)[j] == b[j - a.len()]);
        }
    }
    assert forall|i: int| 0 <= i < (a + b).len() implies lo <= #[trigger] (a + b)[i] < hi by {
        if i < a.len() {
            assert((a + b)[i] == a[i]);
        } else {
            assert((a + b)[i] == b[i - a.len()]);
        }
    }
}

/// The values that lowering an expression writes are issued in strictly
/// increasing order, each one once, and they are exactly the values drawn
/// from the counter: none is drawn without being written.
pub proof fn lemma_lowered_ids_increase(e: Expr, n: nat)
    ensures
        lower_spec(e, n) matches Ok(l) ==> increasing_within(defs(l.insts), n, l.next) && defs(
            l.insts,
        ).len() == l.next - n,
    decreases e,
{
    crate::lower::lemma_lower_counts(e, n);
    match e {
        Expr::Number(v) => {
            lemma_defs_single(InstV::Const { dst: n, value: v });
        },
        Expr::Ident(_) => {
            if let Ok(l) = lower_spec(e, n) {
                lemma_defs_single(l.insts[0]);
                assert(l.insts =~= seq![l.insts[0]]);
            }
        },
        Expr::Unary { expr, .. } => {
            lemma_lowered_ids_increase(*expr, n);
            if let Ok(v) = lower_spec(*expr, n) {
                crate::lower::lemma_lower_counts(*expr, n);
                let tail = seq![
                    InstV::Const { dst: v.next, value: 0 },
                    InstV::Arith { op: crate::sem::ArithOp::Sub, dst: v.next + 1, lhs: v.next, rhs: v.val },
                ];
                lemma_defs_append(v.insts, tail);
                lemma_defs_pair(tail[0], tail[1]);
                assert(tail =~= seq![tail[0], tail[1]]);
                assert(defs(tail) =~= seq![v.next, v.next + 1]);
                lemma_increasing_concat(defs(v.insts), defs(tail), n, v.next, v.next + 2);
            }
        },
        Expr::Binary { left, op, right } => {
            lemma_lowered_ids_increase(*right, n);
            if let Ok(r) = lower_spec(*right, n) {
                crate::lower::lemma_lower_counts(*right, n);
                if op == crate::ast::BinaryOp::Assign {
                    if let Expr::Ident(name) = *left {
                        let tail = seq![
                            InstV::Store { name: SlotKey::Var(name@), src: r.val },
                            InstV::Load { dst: r.next, name: SlotKey::Var(name@) },
                        ];
                        lemma_defs_append(r.insts, tail);
                        lemma_defs_pair(tail[0], tail[1]);
                        assert(tail =~= seq![tail[0], tail[1]]);
                        assert(defs(tail) =~= seq![r.next]);
                        lemma_increasing_concat(defs(r.insts), defs(tail), n, r.next, r.next + 1);
                    }
                } else {
                    lemma_lowered_ids_increase(*left, r.next);
                    if let Ok(l) = lower_spec(*left, r.next) {
                        crate::lower::lemma_lower_counts(*left, r.next);
                        let last = InstV::Arith {
                            op: crate::lower::op_arith(op),
                            dst: l.next,
                            lhs: l.val,
                            rhs: r.val,
                        };
                        lemma_defs_append(r.insts, l.insts);
                        lemma_defs_append(r.insts + l.insts, seq![last]);
                        lemma_defs_single(last);
                        lemma_increasing_concat(defs(r.insts), defs(l.insts), n, r.next, l.next);
                        lemma_increasing_concat(
                            defs(r.insts) + defs(l.insts),
                            seq![l.next],
                            n,
                            l.next,
                            l.next + 1,
                        );
                    }
                }
            }
        },
        Expr::Call { callee, args } => {
            lemma_args_ids_increase(args@, n);
            if let Ok(a) = lower_args_spec(args@, n) {
                if let Expr::Ident(name) = *callee {
                    crate::lower::lemma_lower_args_counts(args@, n);
                    let last = InstV::Call { dst: a.next, callee: name@, args: a.vals };
                    lemma_defs_push(a.insts, last);
                    lemma_increasing_concat(defs(a.insts), seq![a.next], n, a.next, a.next + 1);
                }
            }
        },
        Expr::If { cond, body, else_branch } => {
            lemma_lowered_ids_increase(*cond, n);
            if let Ok(c) = lower_spec(*cond, n) {
                crate::lower::lemma_lower_counts(*cond, n);
                lemma_lowered_ids_increase(*body, c.next);
                if let Ok(t) = lower_spec(*body, c.next) {
                    crate::lower::lemma_lower_counts(*body, c.next);
                    let dst = t.next;
                    let then_insts = t.insts.push(InstV::Store { name: SlotKey::Temp(dst), src: t.val });
                    lemma_defs_push(t.insts, InstV::Store { name: SlotKey::Temp(dst), src: t.val });
                    assert(defs(then_insts) =~= defs(t.insts));
                    lemma_increasing_concat(defs(t.insts), seq![dst], c.next, dst, dst + 1);
                    match else_branch {
                        Some(b) => {
                            lemma_lowered_ids_increase(*b, dst + 1);
                            if let Ok(el) = lower_spec(*b, dst + 1) {
                                crate::lower::lemma_lower_counts(*b, dst + 1);
                                let st = InstV::Store { name: SlotKey::Temp(dst), src: el.val };
                                lemma_defs_push(el.insts, st);
                                assert(defs(el.insts.push(st)) =~= defs(el.insts));
                                lemma_increasing_concat(
                                    defs(t.insts) + seq![dst],
                                    defs(el.insts),
                                    c.next,
                                    dst + 1,
                                    el.next,
                                );
                                let ci = InstV::Conditional {
                                    cond: c.val,
                                    then_insts,
                                    else_insts: el.insts.push(st),
                                    dst,
                                };
                                lemma_defs_push(c.insts, ci);
                                lemma_increasing_concat(
                                    defs(c.insts),
                                    defs_inst(ci),
                                    n,
                                    c.next,
                                    el.next,
                                );
                            }
                        },
                        None => {
                            let else_insts = seq![
                                InstV::Const { dst: dst + 1, value: 0 },
                                InstV::Store { name: SlotKey::Temp(dst), src: dst + 1 },
                            ];
                            lemma_defs_pair(else_insts[0], else_insts[1]);
                            assert(else_insts =~= seq![else_insts[0], else_insts[1]]);
                            assert(defs(else_insts) =~= seq![dst + 1]);
                            lemma_increasing_concat(
                                defs(t.insts) + seq![dst],
                                seq![dst + 1],
                                c.next,
                                dst + 1,
                                dst + 2,
                            );
                            let ci = InstV::Conditional { cond: c.val, then_insts, else_insts, dst };
                            lemma_defs_push(c.insts, ci);
                            lemma_increasing_concat(defs(c.insts), defs_inst(ci), n, c.next, dst + 2);
                        },
                    }
                }
            }
        },
    }
}

proof fn lemma_args_ids_increase(args: Seq<Expr>, n: nat)
    ensures
        lower_args_spec(args, n) matches Ok(a) ==> increasing_within(defs(a.insts), n, a.next) && defs(
            a.insts,
        ).len() == a.next - n,
    decreases args,
{
    if args.len() == 0 {
        assert(defs(Seq::<InstV>::empty()) =~= Seq::<nat>::empty());
    } else {
        lemma_lowered_ids_increase(args[0], n);
        if let Ok(first) = lower_spec(args[0], n) {
            crate::lower::lemma_lower_counts(args[0], n);
            let rest_args = args.subrange(1, args.len() as int);
            lemma_args_ids_increase(rest_args, first.next);
            if let Ok(rest) = lower_args_spec(rest_args, first.next) {
                crate::lower::lemma_lower_args_counts(rest_args, first.next);
                lemma_defs_append(first.insts, rest.insts);
                lemma_increasing_concat(defs(first.insts), defs(rest.insts), n, first.next, rest.next);
            }
        }
    }
}

proof fn lemma_seq_ids_increase(es: Seq<Expr>)
    ensures
        lower_seq_spec(es) matches Ok(p) ==> increasing_within(defs(p.insts), 0, p.next),
    decreases es.len(),
{
    if es.len() == 0 {
        assert(defs(Seq::<InstV>::empty()) =~= Seq::<nat>::empty());
    } else {
        lemma_seq_ids_increase(es.drop_last());
        if let Ok(p) = lower_seq_spec(es.drop_last()) {
            lemma_lowered_ids_increase(es.last(), p.next);
            crate::lower::lemma_lower_counts(es.last(), p.next);
            if let Ok(l) = lower_spec(es.last(), p.next) {
                lemma_defs_append(p.insts, l.insts);
                lemma_increasing_concat(defs(p.insts), defs(l.insts), 0, p.next, l.next);
            }
        }
    }
}

/// The values written by the body that lowering gives a program are issued
/// in strictly increasing order, each one once.
pub proof fn lemma_program_ids_increase(es: Seq<Expr>)
    ensures
        program_spec(es) matches Ok(body) ==> forall|i: int, j: int|
            0 <= i < j < defs(body).len() ==> defs(body)[i] < defs(body)[j],
{
    lemma_seq_ids_increase(es);
    if let Ok(p) = lower_seq_spec(es) {
        match p.last {
            Some(v) => {
                lemma_defs_push(p.insts, InstV::Return { src: v });
                assert(defs(p.insts.push(InstV::Return { src: v })) =~= defs(p.insts));
            },
            None => {
                let c = InstV::Const { dst: 0, value: 0 };
                lemma_defs_pair(c, InstV::Return { src: 0 });
                assert(defs(seq![c, InstV::Return { src: 0 }]) =~= seq![0nat]);
            },
        }
    }
}

/// Folding a function body from no known constants leaves its result
/// unchanged.
pub proof fn lemma_fold_body_sound(s: Seq<InstV>)
    ensures
        run_body(fold_body(s)) == run_body(s),
{
    let env = Env { vals: Map::empty(), slots: Map::empty() };
    lemma_fold_seq_sound(s, Map::empty(), env);
}

/// A conditional shaped as lowering builds it, each branch ending with a
/// store into the conditional's temporary slot, runs exactly one branch: with
/// a nonzero condition the `then` branch, whose stores are the only ones
/// seen afterwards, and the conditional's value is the one that branch
/// stored last.
pub proof fn lemma_if_then_taken(
    cond: nat,
    t: Seq<InstV>,
    tv: nat,
    e: Seq<InstV>,
    ev: nat,
    dst: nat,
    env: Env,
    env1: Env,
)
    requires
        env.vals.contains_key(cond),
        env.vals[cond] != 0,
        run_insts(t, env) == Flow::Next(env1),
        env1.vals.contains_key(tv),
    ensures
        run_inst(
            InstV::Conditional {
                cond,
                then_insts: t.push(InstV::Store { name: SlotKey::Temp(dst), src: tv }),
                else_insts: e.push(InstV::Store { name: SlotKey::Temp(dst), src: ev }),
                dst,
            },
            env,
        ) == Flow::Next(
            Env {
                vals: env1.vals.insert(dst, env1.vals[tv]),
                slots: env1.slots.insert(SlotKey::Temp(dst), env1.vals[tv]),
            },
        ),
{
    let st = InstV::Store { name: SlotKey::Temp(dst), src: tv };
    crate::opt::lemma_run_snoc(t, st, env);
}

/// The mirror image: with a zero condition only the `else` branch runs.
pub proof fn lemma_if_else_taken(
    cond: nat,
    t: Seq<InstV>,
    tv: nat,
    e: Seq<InstV>,
    ev: nat,
    dst: nat,
    env: Env,
    env1: Env,
)
    requires
        env.vals.contains_key(cond),
        env.vals[cond] == 0,
        run_insts(e, env) == Flow::Next(env1),
        env1.vals.contains_key(ev),
    ensures
        run_inst(
            InstV::Conditional {
                cond,
                then_insts: t.push(InstV::Store { name: SlotKey::Temp(dst), src: tv }),
                else_insts: e.push(InstV::Store { name: SlotKey::Temp(dst), src: ev }),
                dst,
            },
            env,
        ) == Flow::Next(
            Env {
                vals: env1.vals.insert(dst, env1.vals[ev]),
                slots: env1.slots.insert(SlotKey::Temp(dst), env1.vals[ev]),
            },
        ),
{
    let st = InstV::Store { name: SlotKey::Temp(dst), src: ev };
    crate::opt::lemma_run_snoc(e, st, env);
}

pub proof fn lemma_check_append(a: Seq<InstV>, b: Seq<InstV>, st: GenState)
    ensures
        check_seq(a + b, st) == match check_seq(a, st) {
            Ok(st1) => check_seq(b, st1),
            Err(e) => Err(e),
        },
    decreases a.len(),
{
    if a.len() > 0 {
        assert((a + b).subrange(1, (a + b).len() as int) =~= a.subrange(1, a.len() as int) + b);
        assert((a + b)[0] == a[0]);
        if let Ok(st1) = check_inst(a[0], st) {
            lemma_check_append(a.subrange(1, a.len() as int), b, st1);
        }
    } else {
        assert(a + b =~= b);
    }
}

pub proof fn lemma_gen_append(a: Seq<InstV>, b: Seq<InstV>, st: GenState)
    ensures
        gen_seq(a + b, st) == match gen_seq(a, st) {
            Ok((st1, false)) => gen_seq(b, st1),
            Ok((st1, true)) => match check_seq(b, st1) {
                Ok(st2) => Ok((st2, true)),
                Err(e) => Err(e),
            },
            Err(e) => Err(e),
        },
    decreases a.len(),
{
    if a.len() > 0 {
        let rest = a.subrange(1, a.len() as int);
        assert((a + b).subrange(1, (a + b).len() as int) =~= rest + b);
        assert((a + b)[0] == a[0]);
        match gen_inst(a[0], st) {
            Ok((st1, false)) => {
                lemma_gen_append(rest, b, st1);
            },
            Ok((st1, true)) => {
                lemma_check_append(rest, b, st1);
            },
            Err(_) => {},
        }
    } else {
        assert(a + b =~= b);
    }
}

/// The instruction is a call, or a conditional with a call in a branch.
pub open spec fn has_call_inst(i: InstV) -> bool
    decreases i,
{
    match i {
        InstV::Call { .. } => true,
        InstV::Conditional { then_insts, else_insts, .. } => has_call(then_insts) || has_call(
            else_insts,
        ),
        _ => false,
    }
}

/// Some instruction of the sequence, at any depth, is a call.
pub open spec fn has_call(s: Seq<InstV>) -> bool
    decreases s,
{
    s.len() > 0 && (has_call_inst(s[0]) || has_call(s.subrange(1, s.len() as int)))
}

proof fn lemma_check_call_inst(i: InstV, st: GenState)
    requires
        has_call_inst(i),
    ensures
        check_inst(i, st) is Err,
    decreases i,
{
    if let InstV::Conditional { then_insts, else_insts, dst, .. } = i {
        let st1 = crate::codegen::with_slot(st, SlotKey::Temp(dst)).0;
        lemma_check_call(then_insts, st1);
        if let Ok(st2) = check_seq(then_insts, st1) {
            lemma_check_call(else_insts, st2);
        }
    }
}

proof fn lemma_check_call(s: Seq<InstV>, st: GenState)
    ensures
        has_call(s) ==> check_seq(s, st) is Err,
    decreases s,
{
    if s.len() > 0 && has_call(s) {
        if has_call_inst(s[0]) {
            lemma_check_call_inst(s[0], st);
        } else if let Ok(st1) = check_inst(s[0], st) {
            lemma_check_call(s.subrange(1, s.len() as int), st1);
        }
    }
}

proof fn lemma_gen_call_inst(i: InstV, st: GenState)
    requires
        has_call_inst(i),
    ensures
        gen_inst(i, st) is Err,
    decreases i,
{
    if let InstV::Conditional { cond, then_insts, else_insts, dst } = i {
        if let Ok((st9, _)) = gen_inst(i, st) {
            let (st1, temp) = crate::codegen::with_slot(st, SlotKey::Temp(dst));
            let t = st1.cfg.blocks.len();
            let st2 = crate::codegen::set_term(st1, crate::codegen::Terminator::Branch {
                cond: crate::codegen::vid(cond),
                then_block: t as usize,
                else_block: (t + 1) as usize,
            });
            let e = crate::codegen::empty_block();
            let st3 = GenState {
                cfg: crate::codegen::CfgV { blocks: st2.cfg.blocks.push(e).push(e).push(e), ..st2.cfg },
                cur: t,
                ..st2
            };
            lemma_gen_call(then_insts, st3);
            let (st4, ret_then) = gen_seq(then_insts, st3)->Ok_0;
            let st5 = GenState { cur: t + 1, ..crate::codegen::close(st4, ret_then, t + 2) };
            lemma_gen_call(else_insts, st5);
        }
    }
}

proof fn lemma_gen_call(s: Seq<InstV>, st: GenState)
    ensures
        has_call(s) ==> gen_seq(s, st) is Err,
    decreases s,
{
    if s.len() > 0 && has_call(s) {
        let rest = s.subrange(1, s.len() as int);
        if has_call_inst(s[0]) {
            lemma_gen_call_inst(s[0], st);
        } else {
            match gen_inst(s[0], st) {
                Ok((st1, true)) => lemma_check_call(rest, st1),
                Ok((st1, false)) => lemma_gen_call(rest, st1),
                Err(_) => {},
            }
        }
    }
}

/// A body with a call anywhere, at any depth and even where it can never
/// run, is rejected by code generation: it never yields a block graph.
pub proof fn lemma_call_rejected(s: Seq<InstV>)
    requires
        has_call(s),
    ensures
        gen_body(s) is Err,
{
    lemma_gen_call(s, initial_state());
}

/// A load of a variable that nothing before it has stored makes code
/// generation fail with `UndefinedVariable` naming it: it never reads a
/// default. This holds from any point code generation has reached, so at
/// any depth of nesting.
pub proof fn lemma_undefined_variable(
    st: GenState,
    p: Seq<InstV>,
    dst: nat,
    name: SlotKey,
    rest: Seq<InstV>,
)
    requires
        gen_seq(p, st) matches Ok((st1, false)) && slot_index(st1.cfg.slots, name) is None,
    ensures
        gen_seq(p + seq![InstV::Load { dst, name }] + rest, st) == Err::<(GenState, bool), Failure>(
            Failure::UndefinedVariable(name),
        ),
{
    let ld = seq![InstV::Load { dst, name }];
    lemma_gen_append(p + ld, rest, st);
    lemma_gen_append(p, ld, st);
    let st1 = gen_seq(p, st)->Ok_0.0;
    assert(ld[0] == InstV::Load { dst, name });
    assert(gen_inst(ld[0], st1) == Err::<(GenState, bool), Failure>(Failure::UndefinedVariable(name)));
    assert(gen_seq(ld, st1) == Err::<(GenState, bool), Failure>(Failure::UndefinedVariable(name)));
}

/// The same for code that can never run, after a return: the load is still
/// rejected.
pub proof fn lemma_undefined_variable_unreachable(
    st: GenState,
    p: Seq<InstV>,
    dst: nat,
    name: SlotKey,
    rest: Seq<InstV>,
)
    requires
        check_seq(p, st) matches Ok(st1) && slot_index(st1.cfg.slots, name) is None,
    ensures
        check_seq(p + seq![InstV::Load { dst, name }] + rest, st) == Err::<GenState, Failure>(
            Failure::UndefinedVariable(name),
        ),
{
    let ld = seq![InstV::Load { dst, name }];
    lemma_check_append(p + ld, rest, st);
    lemma_check_append(p, ld, st);
    let st1 = check_seq(p, st)->Ok_0;
    assert(ld[0] == InstV::Load { dst, name });
    assert(check_inst(ld[0], st1) == Err::<GenState, Failure>(Failure::UndefinedVariable(name)));
    assert(check_seq(ld, st1) == Err::<GenState, Failure>(Failure::UndefinedVariable(name)));
}

/// For a whole body: a load at top level of a variable that nothing before
/// it has stored makes code generation fail.
pub proof fn lemma_undefined_variable_body(p: Seq<InstV>, dst: nat, name: SlotKey, rest: Seq<InstV>)
    requires
        gen_seq(p, initial_state()) matches Ok((st, false)) && slot_index(st.cfg.slots, name) is None,
    ensures
        gen_body(p + seq![InstV::Load { dst, name }] + rest) == Err::<crate::codegen::CfgV, Failure>(
            Failure::UndefinedVariable(name),
        ),
{
    lemma_undefined_variable(initial_state(), p, dst, name, rest);
}

/// Where code generation of a conditional starts its `then` branch: the
/// temporary slot allocated, the block being written closed with the
/// branch, and three new blocks, the first of them being written.
pub open spec fn then_entry(st: GenState, cond: nat, dst: nat) -> GenState {
    let st1 = crate::codegen::with_slot(st, SlotKey::Temp(dst)).0;
    let t = st1.cfg.blocks.len();
    let st2 = crate::codegen::set_term(st1, crate::codegen::Terminator::Branch {
        cond: crate::codegen::vid(cond),
        then_block: t as usize,
        else_block: (t + 1) as usize,
    });
    let e = crate::codegen::empty_block();
    GenState {
        cfg: crate::codegen::CfgV { blocks: st2.cfg.blocks.push(e).push(e).push(e), ..st2.cfg },
        cur: t,
        ..st2
    }
}

/// A failure inside either branch of a conditional is the conditional's
/// failure, so failures at any depth of nesting reach the body.
pub proof fn lemma_branch_failure(cond: nat, t: Seq<InstV>, e: Seq<InstV>, dst: nat, st: GenState)
    requires
        st.vals.contains(cond),
        st.cfg.slots.len() < usize::MAX,
        st.cfg.blocks.len() + 3 <= usize::MAX,
    ensures
        ({
            let c = InstV::Conditional { cond, then_insts: t, else_insts: e, dst };
            let st3 = then_entry(st, cond, dst);
            let tb = crate::codegen::with_slot(st, SlotKey::Temp(dst)).0.cfg.blocks.len();
            &&& gen_seq(t, st3) matches Err(f) ==> gen_inst(c, st) == Err::<(GenState, bool), Failure>(f)
            &&& gen_seq(t, st3) matches Ok((st4, r)) ==> (gen_seq(
                e,
                GenState { cur: tb + 1, ..crate::codegen::close(st4, r, tb + 2) },
            ) matches Err(f) ==> gen_inst(c, st) == Err::<(GenState, bool), Failure>(f))
        }),
{
}

/// Every value the instruction writes, at any depth, is in `w`.
pub open spec fn writes_within_inst(i: InstV, w: Set<nat>) -> bool
    decreases i,
{
    match i {
        InstV::Conditional { then_insts, else_insts, dst, .. } => w.contains(dst) && writes_within(
            then_insts,
            w,
        ) && writes_within(else_insts, w),
        InstV::Store { .. } => true,
        InstV::Return { .. } => true,
        InstV::Const { dst, .. } => w.contains(dst),
        InstV::Boolean { dst, .. } => w.contains(dst),
        InstV::Arith { dst, .. } => w.contains(dst),
        InstV::Call { dst, .. } => w.contains(dst),
        InstV::Load { dst, .. } => w.contains(dst),
    }
}

pub open spec fn writes_within(s: Seq<InstV>, w: Set<nat>) -> bool
    decreases s,
{
    s.len() == 0 || (writes_within_inst(s[0], w) && writes_within(s.subrange(1, s.len() as int), w))
}

/// The instruction, at any depth, reads a value outside `w`.
pub open spec fn reads_outside_inst(i: InstV, w: Set<nat>) -> bool
    decreases i,
{
    match i {
        InstV::Arith { lhs, rhs, .. } => !w.contains(lhs) || !w.contains(rhs),
        InstV::Store { src, .. } => !w.contains(src),
        InstV::Return { src } => !w.contains(src),
        InstV::Conditional { cond, then_insts, else_insts, .. } => !w.contains(cond) || reads_outside(
            then_insts,
            w,
        ) || reads_outside(else_insts, w),
        _ => false,
    }
}

pub open spec fn reads_outside(s: Seq<InstV>, w: Set<nat>) -> bool
    decreases s,
{
    s.len() > 0 && (reads_outside_inst(s[0], w) || reads_outside(s.subrange(1, s.len() as int), w))
}

proof fn lemma_check_reads(i: InstV, st: GenState, w: Set<nat>)
    requires
        st.vals.subset_of(w),
        writes_within_inst(i, w),
    ensures
        check_inst(i, st) matches Ok(st1) ==> st1.vals.subset_of(w),
        reads_outside_inst(i, w) ==> check_inst(i, st) is Err,
    decreases i,
{
    if let InstV::Conditional { then_insts, else_insts, dst, .. } = i {
        let st1 = crate::codegen::with_slot(st, SlotKey::Temp(dst)).0;
        lemma_check_reads_seq(then_insts, st1, w);
        if let Ok(st2) = check_seq(then_insts, st1) {
            lemma_check_reads_seq(else_insts, st2, w);
        }
    }
}

proof fn lemma_check_reads_seq(s: Seq<InstV>, st: GenState, w: Set<nat>)
    requires
        st.vals.subset_of(w),
        writes_within(s, w),
    ensures
        check_seq(s, st) matches Ok(st1) ==> st1.vals.subset_of(w),
        reads_outside(s, w) ==> check_seq(s, st) is Err,
    decreases s,
{
    if s.len() > 0 {
        lemma_check_reads(s[0], st, w);
        if let Ok(st1) = check_inst(s[0], st) {
            lemma_check_reads_seq(s.subrange(1, s.len() as int), st1, w);
        }
    }
}

proof fn lemma_gen_reads(i: InstV, st: GenState, w: Set<nat>)
    requires
        st.vals.subset_of(w),
        writes_within_inst(i, w),
    ensures
        gen_inst(i, st) matches Ok((st1, _)) ==> st1.vals.subset_of(w),
        reads_outside_inst(i, w) ==> gen_inst(i, st) is Err,
    decreases i,
{
    if let InstV::Conditional { cond, then_insts, else_insts, dst } = i {
        if st.vals.contains(cond) && st.cfg.slots.len() < usize::MAX && st.cfg.blocks.len() + 3
            <= usize::MAX {
            let st3 = then_entry(st, cond, dst);
            let tb = crate::codegen::with_slot(st, SlotKey::Temp(dst)).0.cfg.blocks.len();
            lemma_gen_reads_seq(then_insts, st3, w);
            if let Ok((st4, r)) = gen_seq(then_insts, st3) {
                let st5 = GenState { cur: tb + 1, ..crate::codegen::close(st4, r, tb + 2) };
                lemma_gen_reads_seq(else_insts, st5, w);
            }
        }
    }
}

proof fn lemma_gen_reads_seq(s: Seq<InstV>, st: GenState, w: Set<nat>)
    requires
        st.vals.subset_of(w),
        writes_within(s, w),
    ensures
        gen_seq(s, st) matches Ok((st1, _)) ==> st1.vals.subset_of(w),
        reads_outside(s, w) ==> gen_seq(s, st) is Err,
    decreases s,
{
    if s.len() > 0 {
        let rest = s.subrange(1, s.len() as int);
        lemma_gen_reads(s[0], st, w);
        match gen_inst(s[0], st) {
            Ok((st1, true)) => lemma_check_reads_seq(rest, st1, w),
            Ok((st1, false)) => lemma_gen_reads_seq(rest, st1, w),
            Err(_) => {},
        }
    }
}

/// A body that reads, anywhere and at any depth, even where it can never
/// run, a value that none of its instructions writes is rejected by code
/// generation: `w` holds every value the body writes.
pub proof fn lemma_undefined_value_rejected(s: Seq<InstV>, w: Set<nat>)
    requires
        writes_within(s, w),
        reads_outside(s, w),
    ensures
        gen_body(s) is Err,
{
    lemma_gen_reads_seq(s, initial_state(), w);
}

/// Running a load of a slot that holds nothing faults with
/// `UndefinedVariable`.
pub proof fn lemma_undefined_variable_runs(dst: nat, name: SlotKey, env: Env)
    requires
        !env.slots.contains_key(name),
    ensures
        run_inst(InstV::Load { dst, name }, env) == Flow::Fail(crate::sem::Fault::UndefinedVariable(name)),
{
}

} // verus!
