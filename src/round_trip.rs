//! The whole pipeline on programs without variables or conditionals:
//! lowering, folding, code generation and running give the value of the
//! program itself.
use vstd::prelude::*;
use crate::ast::{BinaryOp, Expr};
use crate::codegen::{
    BlockV, GenState, Op, Terminator, add_op, define, gen_body, gen_inst, gen_seq, initial_state, vid,
};
use crate::laws::lemma_gen_append;
use crate::lower::{
    lemma_lower_counts, lower_seq_spec, lower_spec, op_arith, program_spec, seq_used,
    word_false, word_true,
};
use crate::opt::{
    fold_body, fold_inst, fold_seq, kept_or_folded, lemma_fold_seq_shape, lemma_fold_seq_sound,
    lemma_run_append, lemma_run_snoc,
};
use crate::run::{Machine, empty_machine, run_cfg_spec, run_from, run_op, run_ops};
use crate::ir::SlotKey;
use crate::sem::{ArithOp, Env, Flow, InstV, arith, run_inst, run_insts};

verus! {

/// An expression without variables, assignments, calls or conditionals.
pub open spec fn pure_expr(e: Expr) -> bool
    decreases e,
{
    match e {
        Expr::Number(_) => true,
        Expr::Ident(name) => name@ == word_true() || name@ == word_false(),
        Expr::Unary { expr, .. } => pure_expr(*expr),
        Expr::Binary { left, op, right } => op != BinaryOp::Assign && pure_expr(*left) && pure_expr(
            *right,
        ),
        _ => false,
    }
}

/// The value of such an expression, evaluated directly: `None` where a
/// division has no result.
pub open spec fn eval_pure(e: Expr) -> Option<i64>
    decreases e,
{
    match e {
        Expr::Number(v) => Some(v),
        Expr::Ident(name) => Some(if name@ == word_true() { 1i64 } else { 0i64 }),
        Expr::Unary { expr, .. } => match eval_pure(*expr) {
            Some(v) => Some(0i64.wrapping_sub(v)),
            None => None,
        },
        Expr::Binary { left, op, right } => match eval_pure(*right) {
            Some(r) => match eval_pure(*left) {
                Some(l) => arith(op_arith(op), l, r),
                None => None,
            },
            None => None,
        },
        _ => None,
    }
}

/// The value of a program of such expressions: that of the last one, or 0
/// for an empty program; `None` where any of them has none.
pub open spec fn eval_program(es: Seq<Expr>) -> Option<i64>
    decreases es.len(),
{
    if es.len() == 0 {
        Some(0)
    } else {
        match eval_program(es.drop_last()) {
            Some(_) => eval_pure(es.last()),
            None => None,
        }
    }
}

/// Straight-line code of constants and arithmetic, with values that fit the
/// counter.
pub open spec fn plain_inst(i: InstV) -> bool {
    match i {
        InstV::Const { dst, .. } => dst <= u32::MAX,
        InstV::Boolean { dst, .. } => dst <= u32::MAX,
        InstV::Arith { dst, lhs, rhs, .. } => dst <= u32::MAX && lhs <= u32::MAX && rhs <= u32::MAX,
        _ => false,
    }
}

pub open spec fn plain(s: Seq<InstV>) -> bool {
    forall|i: int| 0 <= i < s.len() ==> plain_inst(#[trigger] s[i])
}

/// The block operation that code generation emits for a plain instruction.
pub open spec fn trans_inst(i: InstV) -> Op {
    match i {
        InstV::Const { dst, value } => Op::Const { dst: vid(dst), value },
        InstV::Boolean { dst, value } => Op::Const { dst: vid(dst), value: if value { 1 } else { 0 } },
        InstV::Arith { op, dst, lhs, rhs } => Op::Arith { op, dst: vid(dst), lhs: vid(lhs), rhs: vid(rhs) },
        _ => Op::Const { dst: vid(0), value: 0 },
    }
}

pub open spec fn trans(s: Seq<InstV>) -> Seq<Op> {
    s.map_values(|i: InstV| trans_inst(i))
}

/// Code generation went on in the same block, only adding `ops` to it.
pub open spec fn appended(st: GenState, st2: GenState, ops: Seq<Op>) -> bool {
    let b = st.cfg.blocks[st.cur as int];
    &&& st2.cfg.slots == st.cfg.slots
    &&& st2.cur == st.cur
    &&& st2.cfg.blocks == st.cfg.blocks.update(st.cur as int, BlockV { ops: b.ops + ops, term: b.term })
}

/// A machine and an environment hold the same values.
pub open spec fn corr(m: Machine, env: Env) -> bool {
    forall|x: nat|
        x <= u32::MAX ==> (#[trigger] env.vals.contains_key(x) <==> m.vals.contains_key(x as u32))
            && (env.vals.contains_key(x) ==> env.vals[x] == m.vals[x as u32])
}

proof fn lemma_appended_trans(st: GenState, st2: GenState, st3: GenState, a: Seq<InstV>, b: Seq<InstV>)
    requires
        st.cur < st.cfg.blocks.len(),
        appended(st, st2, trans(a)),
        appended(st2, st3, trans(b)),
    ensures
        appended(st, st3, trans(a + b)),
{
    let blk = st.cfg.blocks[st.cur as int];
    assert(trans(a + b) =~= trans(a) + trans(b));
    assert(blk.ops + trans(a) + trans(b) =~= blk.ops + (trans(a) + trans(b)));
    assert(st3.cfg.blocks =~= st.cfg.blocks.update(
        st.cur as int,
        BlockV { ops: blk.ops + trans(a + b), term: blk.term },
    ));
}

proof fn lemma_appended_refl(st: GenState)
    requires
        st.cur < st.cfg.blocks.len(),
    ensures
        appended(st, st, trans(Seq::<InstV>::empty())),
{
    let blk = st.cfg.blocks[st.cur as int];
    assert(blk.ops + trans(Seq::<InstV>::empty()) =~= blk.ops);
    assert(st.cfg.blocks.update(st.cur as int, BlockV { ops: blk.ops, term: blk.term }) =~= st.cfg.blocks);
}

/// Code generation for one plain instruction whose operands are defined.
proof fn lemma_gen_one(x: InstV, st: GenState)
    requires
        plain_inst(x),
        st.cur < st.cfg.blocks.len(),
        x matches InstV::Arith { lhs, rhs, .. } ==> st.vals.contains(lhs) && st.vals.contains(rhs),
    ensures
        gen_seq(seq![x], st) matches Ok((st2, false)) && appended(st, st2, trans(seq![x]))
            && st2.vals == st.vals.insert(crate::opt::written(x)->Some_0),
{
    let one = seq![x];
    assert(one[0] == x);
    assert(one.subrange(1, 1) =~= Seq::<InstV>::empty());
    assert(trans(one) =~= seq![trans_inst(x)]);
    let blk = st.cfg.blocks[st.cur as int];
    assert(blk.ops.push(trans_inst(x)) =~= blk.ops + trans(one));
    let st2 = gen_inst(x, st)->Ok_0.0;
    match x {
        InstV::Const { dst, value } => {
            assert(st2 == define(add_op(st, trans_inst(x)), dst));
        },
        InstV::Boolean { dst, value } => {
            assert(st2 == define(add_op(st, trans_inst(x)), dst));
        },
        InstV::Arith { dst, .. } => {
            assert(st2 == define(add_op(st, trans_inst(x)), dst));
        },
        _ => {},
    }
    assert(st2.cfg.blocks =~= st.cfg.blocks.update(
        st.cur as int,
        BlockV { ops: blk.ops + trans(one), term: blk.term },
    ));
    assert(gen_seq(one.subrange(1, 1), st2) == Ok::<(GenState, bool), crate::codegen::Failure>((st2, false)));
}

/// Code generation of plain code that succeeds only adds its operations to
/// the block being written.
proof fn lemma_gen_plain(s: Seq<InstV>, st: GenState)
    requires
        plain(s),
        st.cur < st.cfg.blocks.len(),
        gen_seq(s, st) is Ok,
    ensures
        gen_seq(s, st) matches Ok((st2, false)) && appended(st, st2, trans(s)),
    decreases s.len(),
{
    if s.len() == 0 {
        lemma_appended_refl(st);
    } else {
        let init = s.subrange(0, s.len() - 1);
        let x = s[s.len() - 1];
        assert(init + seq![x] =~= s);
        lemma_gen_append(init, seq![x], st);
        assert(plain(init)) by {
            assert forall|i: int| 0 <= i < init.len() implies plain_inst(#[trigger] init[i]) by {
                assert(init[i] == s[i]);
            }
        }
        assert(plain_inst(x));
        if gen_seq(init, st) is Ok {
            lemma_gen_plain(init, st);
            let sti = gen_seq(init, st)->Ok_0.0;
            assert(seq![x][0] == x);
            assert(gen_inst(x, sti) is Ok);
            lemma_gen_one(x, sti);
            let st2 = gen_seq(seq![x], sti)->Ok_0.0;
            lemma_appended_trans(st, sti, st2, init, seq![x]);
        }
    }
}

/// Lowering a pure expression gives plain code that generates into the
/// block being written, defines the result value, and keeps every value
/// defined before.
proof fn lemma_lower_gen(e: Expr, n: nat, st: GenState)
    requires
        pure_expr(e),
        n + crate::lower::values_used(e) <= u32::MAX,
        st.cur < st.cfg.blocks.len(),
    ensures
        lower_spec(e, n) matches Ok(l) && plain(l.insts) && (gen_seq(l.insts, st) matches Ok((st2, false))
            && appended(st, st2, trans(l.insts)) && st.vals.subset_of(st2.vals) && st2.vals.contains(
            l.val,
        )),
    decreases e,
{
    lemma_lower_counts(e, n);
    match e {
        Expr::Number(v) => {
            lemma_gen_one(InstV::Const { dst: n, value: v }, st);
        },
        Expr::Ident(name) => {
            let l = lower_spec(e, n)->Ok_0;
            assert(l.insts =~= seq![l.insts[0]]);
            lemma_gen_one(l.insts[0], st);
        },
        Expr::Unary { expr, .. } => {
            lemma_lower_gen(*expr, n, st);
            let v = lower_spec(*expr, n)->Ok_0;
            lemma_lower_counts(*expr, n);
            let st2 = gen_seq(v.insts, st)->Ok_0.0;
            let c = InstV::Const { dst: v.next, value: 0 };
            let s = InstV::Arith { op: ArithOp::Sub, dst: v.next + 1, lhs: v.next, rhs: v.val };
            lemma_gen_one(c, st2);
            let st3 = gen_seq(seq![c], st2)->Ok_0.0;
            lemma_gen_one(s, st3);
            let st4 = gen_seq(seq![s], st3)->Ok_0.0;
            lemma_gen_append(v.insts, seq![c], st);
            lemma_gen_append(v.insts + seq![c], seq![s], st);
            assert(v.insts + seq![c] + seq![s] =~= v.insts + seq![c, s]);
            lemma_appended_trans(st, st2, st3, v.insts, seq![c]);
            lemma_appended_trans(st, st3, st4, v.insts + seq![c], seq![s]);
        },
        Expr::Binary { left, op, right } => {
            lemma_lower_gen(*right, n, st);
            let r = lower_spec(*right, n)->Ok_0;
            lemma_lower_counts(*right, n);
            let st2 = gen_seq(r.insts, st)->Ok_0.0;
            lemma_lower_gen(*left, r.next, st2);
            let l = lower_spec(*left, r.next)->Ok_0;
            lemma_lower_counts(*left, r.next);
            let st3 = gen_seq(l.insts, st2)->Ok_0.0;
            let a = InstV::Arith { op: op_arith(op), dst: l.next, lhs: l.val, rhs: r.val };
            lemma_gen_one(a, st3);
            let st4 = gen_seq(seq![a], st3)->Ok_0.0;
            lemma_gen_append(r.insts, l.insts, st);
            lemma_gen_append(r.insts + l.insts, seq![a], st);
            lemma_appended_trans(st, st2, st3, r.insts, l.insts);
            lemma_appended_trans(st, st3, st4, r.insts + l.insts, seq![a]);
        },
        _ => {},
    }
}

/// Folding plain code keeps it plain and keeps code generation succeeding,
/// with the same values defined.
proof fn lemma_fold_gen(s: Seq<InstV>, k: Map<nat, i64>, st: GenState)
    requires
        plain(s),
        st.cur < st.cfg.blocks.len(),
        gen_seq(s, st) matches Ok((st1, false)),
    ensures
        plain(fold_seq(s, k).0),
        gen_seq(fold_seq(s, k).0, st) matches Ok((st2, false)) && appended(st, st2, trans(fold_seq(s, k).0))
            && st2.vals == gen_seq(s, st)->Ok_0.0.vals,
    decreases s.len(),
{
    lemma_fold_seq_shape(s, k);
    if s.len() == 0 {
        lemma_appended_refl(st);
    } else {
        let init = s.subrange(0, s.len() - 1);
        let x = s[s.len() - 1];
        assert(init.push(x) =~= s);
        assert(init + seq![x] =~= s);
        lemma_gen_append(init, seq![x], st);
        assert(plain(init));
        let sti = gen_seq(init, st)->Ok_0.0;
        lemma_gen_plain(init, st);
        lemma_fold_gen(init, k, st);
        let p = fold_seq(init, k);
        let fx = fold_inst(x, p.1).0;
        let stf = gen_seq(p.0, st)->Ok_0.0;
        assert(fold_seq(s, k).0 == p.0.push(fx));
        assert(p.0.push(fx) =~= p.0 + seq![fx]);
        assert(plain_inst(x));
        assert(kept_or_folded(x, fx)) by {
            assert(fold_seq(s, k).0[s.len() - 1] == fx);
        }
        assert(seq![x][0] == x);
        assert(gen_inst(x, sti) is Ok);
        lemma_gen_one(x, sti);
        lemma_gen_one(fx, stf);
        lemma_gen_append(p.0, seq![fx], st);
        let st_end = gen_seq(seq![fx], stf)->Ok_0.0;
        lemma_appended_trans(st, stf, st_end, p.0, seq![fx]);
        assert forall|j: int| 0 <= j < fold_seq(s, k).0.len() implies plain_inst(
            #[trigger] fold_seq(s, k).0[j],
        ) by {
            assert(kept_or_folded(s[j], fold_seq(s, k).0[j]));
        }
    }
}

/// Running the operations of plain code on a machine matches running the
/// code itself.
proof fn lemma_sim(s: Seq<InstV>, m: Machine, env: Env)
    requires
        plain(s),
        corr(m, env),
    ensures
        match run_insts(s, env) {
            Flow::Next(env2) => run_ops(trans(s), m) matches Ok(m2) && corr(m2, env2),
            _ => run_ops(trans(s), m) is Err,
        },
    decreases s.len(),
{
    if s.len() > 0 {
        let x = s[0];
        assert(plain_inst(x));
        let rest = s.subrange(1, s.len() as int);
        assert(trans(s)[0] == trans_inst(x));
        assert(trans(s).subrange(1, trans(s).len() as int) =~= trans(rest));
        assert(plain(rest)) by {
            assert forall|i: int| 0 <= i < rest.len() implies plain_inst(#[trigger] rest[i]) by {
                assert(rest[i] == s[i + 1]);
            }
        }
        match x {
            InstV::Arith { op, dst, lhs, rhs } => {
                assert(env.vals.contains_key(lhs) <==> m.vals.contains_key(lhs as u32));
                assert(env.vals.contains_key(rhs) <==> m.vals.contains_key(rhs as u32));
            },
            _ => {},
        }
        if let Flow::Next(env1) = run_inst(x, env) {
            let m1 = run_op(trans_inst(x), m)->Ok_0;
            assert(corr(m1, env1)) by {
                assert forall|y: nat| y <= u32::MAX implies (#[trigger] env1.vals.contains_key(y)
                    <==> m1.vals.contains_key(y as u32)) && (env1.vals.contains_key(y)
                    ==> env1.vals[y] == m1.vals[y as u32]) by {
                    assert(env.vals.contains_key(y) <==> m.vals.contains_key(y as u32));
                }
            }
            lemma_sim(rest, m1, env1);
        }
    }
}

/// Running the code of a pure expression computes its value, keeping the
/// values computed before its first one.
pub open spec fn lower_runs(e: Expr, n: nat, env: Env) -> bool {
    lower_spec(e, n) matches Ok(l) && match eval_pure(e) {
        Some(v) => run_insts(l.insts, env) matches Flow::Next(env2) && env2.vals.contains_key(l.val)
            && env2.vals[l.val] == v && (forall|x: nat|
            x < n ==> (#[trigger] env2.vals.contains_key(x) == env.vals.contains_key(x)) && (
            env.vals.contains_key(x) ==> env2.vals[x] == env.vals[x])),
        None => run_insts(l.insts, env) is Fail,
    }
}

proof fn lemma_lower_run(e: Expr, n: nat, env: Env)
    requires
        pure_expr(e),
    ensures
        lower_runs(e, n, env),
    decreases e,
{
    lemma_lower_counts(e, n);
    match e {
        Expr::Number(v) => {
            let one = seq![InstV::Const { dst: n, value: v }];
            assert(one[0] == InstV::Const { dst: n, value: v });
            assert(one.subrange(1, 1) =~= Seq::<InstV>::empty());
            let env2 = crate::sem::set_val(env, n, v);
            assert(run_insts(one.subrange(1, 1), env2) == Flow::Next(env2));
            assert(run_inst(one[0], env) == Flow::Next(env2));
            assert(run_insts(one, env) == Flow::Next(env2));
            assert(lower_spec(e, n) == Ok::<crate::lower::Lowered, crate::lower::LowerError>(
                crate::lower::Lowered { insts: one, val: n, next: n + 1 },
            ));
            assert(eval_pure(e) == Some(v));
            assert(lower_runs(e, n, env));
        },
        Expr::Ident(name) => {
            let l = lower_spec(e, n)->Ok_0;
            assert(l.insts.subrange(1, 1) =~= Seq::<InstV>::empty());
            let env2 = crate::sem::set_val(env, n, if name@ == word_true() { 1i64 } else { 0i64 });
            assert(run_inst(l.insts[0], env) == Flow::Next(env2));
            assert(run_insts(l.insts.subrange(1, 1), env2) == Flow::Next(env2));
            assert(lower_runs(e, n, env));
        },
        Expr::Unary { expr, .. } => {
            lemma_lower_run(*expr, n, env);
            let v = lower_spec(*expr, n)->Ok_0;
            lemma_lower_counts(*expr, n);
            let tail = seq![
                InstV::Const { dst: v.next, value: 0 },
                InstV::Arith { op: ArithOp::Sub, dst: v.next + 1, lhs: v.next, rhs: v.val },
            ];
            lemma_run_append(v.insts, tail, env);
            if let Flow::Next(env2) = run_insts(v.insts, env) {
                let t1 = tail.subrange(1, 2);
                assert(t1.subrange(1, 1) =~= Seq::<InstV>::empty());
                assert(t1[0] == tail[1]);
                assert(tail[0] == InstV::Const { dst: v.next, value: 0 });
                let env3 = crate::sem::set_val(env2, v.next, 0);
                assert(run_inst(tail[0], env2) == Flow::Next(env3));
                let x = eval_pure(*expr)->Some_0;
                let env4 = crate::sem::set_val(env3, v.next + 1, 0i64.wrapping_sub(x));
                assert(run_inst(tail[1], env3) == Flow::Next(env4));
                assert(run_insts(t1.subrange(1, 1), env4) == Flow::Next(env4));
                assert(run_insts(t1, env3) == Flow::Next(env4));
                assert(run_insts(tail, env2) == Flow::Next(env4));
            }
            assert(lower_runs(e, n, env));
        },
        Expr::Binary { left, op, right } => {
            lemma_lower_run(*right, n, env);
            let r = lower_spec(*right, n)->Ok_0;
            lemma_lower_counts(*right, n);
            if let Flow::Next(env2) = run_insts(r.insts, env) {
                lemma_lower_run(*left, r.next, env2);
                let l = lower_spec(*left, r.next)->Ok_0;
                lemma_lower_counts(*left, r.next);
                let a = InstV::Arith { op: op_arith(op), dst: l.next, lhs: l.val, rhs: r.val };
                lemma_run_append(r.insts, l.insts, env);
                lemma_run_snoc(r.insts + l.insts, a, env);
                assert(r.insts + l.insts + seq![a] =~= (r.insts + l.insts).push(a));
                if let (Some(rv), Flow::Next(env3)) = (eval_pure(*right), run_insts(l.insts, env2)) {
                    assert(env2.vals.contains_key(r.val));
                    assert(env3.vals.contains_key(r.val));
                    assert(env3.vals[r.val] == rv);
                    if let Some(lv) = eval_pure(*left) {
                        assert(env3.vals[l.val] == lv);
                        if let Some(res) = arith(op_arith(op), lv, rv) {
                            let env4 = crate::sem::set_val(env3, l.next, res);
                            assert(run_inst(a, env3) == Flow::Next(env4));
                            assert(eval_pure(e) == Some(res));
                        }
                    }
                }
            } else {
                lemma_lower_run(*left, r.next, env);
                let l = lower_spec(*left, r.next)->Ok_0;
                let a = InstV::Arith { op: op_arith(op), dst: l.next, lhs: l.val, rhs: r.val };
                lemma_run_append(r.insts, l.insts + seq![a], env);
                assert(r.insts + l.insts + seq![a] =~= r.insts + (l.insts + seq![a]));
            }
            assert(lower_runs(e, n, env));
        },
        _ => {},
    }
}


proof fn lemma_plain_concat(a: Seq<InstV>, b: Seq<InstV>)
    requires
        plain(a),
        plain(b),
    ensures
        plain(a + b),
{
    assert forall|i: int| 0 <= i < (a + b).len() implies plain_inst(#[trigger] (a + b)[i]) by {
        if i < a.len() {
            assert((a + b)[i] == a[i]);
        } else {
            assert((a + b)[i] == b[i - a.len()]);
        }
    }
}

pub open spec fn all_pure(es: Seq<Expr>) -> bool {
    forall|i: int| 0 <= i < es.len() ==> pure_expr(#[trigger] es[i])
}

/// The code of a program of pure expressions is plain, and generates into
/// the block being written, defining the value of its last expression.
proof fn lemma_seq_gen(es: Seq<Expr>, st: GenState)
    requires
        all_pure(es),
        seq_used(es) <= u32::MAX,
        st.cur < st.cfg.blocks.len(),
    ensures
        lower_seq_spec(es) matches Ok(p) && plain(p.insts) && p.next == seq_used(es) && (gen_seq(
            p.insts,
            st,
        ) matches Ok((st2, false)) && appended(st, st2, trans(p.insts)) && st.vals.subset_of(st2.vals)
            && (p.last matches Some(v) ==> st2.vals.contains(v) && v <= u32::MAX)),
    decreases es.len(),
{
    if es.len() == 0 {
        lemma_appended_refl(st);
        assert(gen_seq(Seq::<InstV>::empty(), st) == Ok::<(GenState, bool), crate::codegen::Failure>((st, false)));
    } else {
        let init = es.drop_last();
        assert(all_pure(init)) by {
            assert forall|i: int| 0 <= i < init.len() implies pure_expr(#[trigger] init[i]) by {
                assert(init[i] == es[i]);
            }
        }
        assert(pure_expr(es.last()));
        lemma_seq_gen(init, st);
        let p = lower_seq_spec(init)->Ok_0;
        let st2 = gen_seq(p.insts, st)->Ok_0.0;
        lemma_lower_gen(es.last(), p.next, st2);
        lemma_lower_counts(es.last(), p.next);
        let l = lower_spec(es.last(), p.next)->Ok_0;
        let st3 = gen_seq(l.insts, st2)->Ok_0.0;
        lemma_gen_append(p.insts, l.insts, st);
        lemma_appended_trans(st, st2, st3, p.insts, l.insts);
        lemma_plain_concat(p.insts, l.insts);
    }
}

/// Running the code of a program of pure expressions gives the program's
/// value, held by the value of its last expression.
proof fn lemma_seq_run(es: Seq<Expr>, env: Env)
    requires
        all_pure(es),
    ensures
        lower_seq_spec(es) matches Ok(p) && match eval_program(es) {
            Some(v) => run_insts(p.insts, env) matches Flow::Next(env2) && (es.len() > 0 ==> (p.last matches Some(
                r,
            ) && env2.vals.contains_key(r) && env2.vals[r] == v)) && (es.len() == 0 ==> p.last is None),
            None => run_insts(p.insts, env) is Fail,
        },
    decreases es.len(),
{
    if es.len() == 0 {
        assert(run_insts(Seq::<InstV>::empty(), env) == Flow::Next(env));
    } else {
        let init = es.drop_last();
        assert(all_pure(init)) by {
            assert forall|i: int| 0 <= i < init.len() implies pure_expr(#[trigger] init[i]) by {
                assert(init[i] == es[i]);
            }
        }
        lemma_seq_run(init, env);
        let p = lower_seq_spec(init)->Ok_0;
        lemma_lower_run(es.last(), p.next, env);
        let l = lower_spec(es.last(), p.next)->Ok_0;
        lemma_run_append(p.insts, l.insts, env);
        if let Flow::Next(env2) = run_insts(p.insts, env) {
            lemma_lower_run(es.last(), p.next, env2);
        }
    }
}

/// A body of plain code followed by a return of one of its values, once
/// folded, generates a graph that returns what the body returns.
proof fn lemma_body_round_trip(s: Seq<InstV>, r: nat)
    requires
        plain(s),
        r <= u32::MAX,
        gen_seq(s, initial_state()) matches Ok((st, false)) && st.vals.contains(r),
    ensures
        gen_body(fold_body(s.push(InstV::Return { src: r }))) matches Ok(c) && match run_insts(
            s,
            Env { vals: Map::empty(), slots: Map::empty() },
        ) {
            Flow::Next(env2) => env2.vals.contains_key(r) ==> run_cfg_spec(c) == Ok::<i64, crate::run::RunError>(env2.vals[r]),
            _ => run_cfg_spec(c) is Err,
        },
{
    let ret = InstV::Return { src: r };
    let env0 = Env { vals: Map::empty(), slots: Map::empty() };
    let k0 = Map::<nat, i64>::empty();
    let st0 = initial_state();
    let sp = s.push(ret);
    assert(sp.subrange(0, sp.len() - 1) =~= s);
    assert(sp[sp.len() - 1] == ret);
    let f = fold_seq(s, k0).0;
    assert(fold_inst(ret, fold_seq(s, k0).1).0 == ret);
    assert(fold_body(s.push(ret)) == f.push(ret));
    lemma_fold_gen(s, k0, st0);
    let stf = gen_seq(f, st0)->Ok_0.0;
    assert(f.push(ret) =~= f + seq![ret]);
    lemma_gen_append(f, seq![ret], st0);
    assert(seq![ret][0] == ret);
    let str = crate::codegen::set_term(stf, Terminator::Return { src: vid(r) });
    assert(stf.vals.contains(r));
    assert(gen_inst(ret, stf) == Ok::<(GenState, bool), crate::codegen::Failure>((str, true)));
    assert(gen_seq(seq![ret], stf) == Ok::<(GenState, bool), crate::codegen::Failure>((str, true)));
    let c = str.cfg;
    assert(c.blocks.len() == 1);
    assert(c.blocks[0].ops == trans(f));
    assert(c.blocks[0].term == Some(Terminator::Return { src: vid(r) }));
    lemma_fold_seq_sound(s, k0, env0);
    lemma_fold_gen(s, k0, st0);
    lemma_sim(f, empty_machine(), env0);
    assert(run_cfg_spec(c) == run_from(c, 0, empty_machine(), 1));
    if let Flow::Next(env2) = run_insts(s, env0) {
        let m2 = run_ops(trans(f), empty_machine())->Ok_0;
        assert(env2.vals.contains_key(r) ==> m2.vals.contains_key(r as u32));
    }
}

/// For a program without variables, assignments, calls or conditionals,
/// lowering, folding, generating the block graph and running it gives what
/// evaluating the program directly gives: its value, or a failure where a
/// division has no result.
pub proof fn lemma_round_trip(es: Seq<Expr>)
    requires
        all_pure(es),
        seq_used(es) < u32::MAX,
    ensures
        program_spec(es) matches Ok(body) && gen_body(fold_body(body)) matches Ok(c) && match eval_program(es) {
            Some(v) => run_cfg_spec(c) == Ok::<i64, crate::run::RunError>(v),
            None => run_cfg_spec(c) is Err,
        },
{
    let st0 = initial_state();
    let env0 = Env { vals: Map::empty(), slots: Map::empty() };
    lemma_seq_gen(es, st0);
    lemma_seq_run(es, env0);
    let p = lower_seq_spec(es)->Ok_0;
    match p.last {
        Some(r) => {
            lemma_body_round_trip(p.insts, r);
        },
        None => {
            let c0 = InstV::Const { dst: 0, value: 0 };
            let s = seq![c0];
            assert(plain(s));
            lemma_gen_one(c0, st0);
            assert(s.push(InstV::Return { src: 0 }) =~= seq![c0, InstV::Return { src: 0 }]);
            lemma_body_round_trip(s, 0);
            assert(s[0] == c0);
            assert(s.subrange(1, 1) =~= Seq::<InstV>::empty());
            let env2 = crate::sem::set_val(env0, 0, 0);
            assert(run_inst(s[0], env0) == Flow::Next(env2));
            assert(run_insts(s.subrange(1, 1), env2) == Flow::Next(env2));
            assert(run_insts(s, env0) == Flow::Next(env2));
        },
    }
}


proof fn lemma_run_ops_append(a: Seq<Op>, b: Seq<Op>, m: Machine)
    ensures
        run_ops(a + b, m) == match run_ops(a, m) {
            Ok(m1) => run_ops(b, m1),
            Err(e) => Err(e),
        },
    decreases a.len(),
{
    if a.len() > 0 {
        assert((a + b).subrange(1, (a + b).len() as int) =~= a.subrange(1, a.len() as int) + b);
        assert((a + b)[0] == a[0]);
        if let Ok(m1) = run_op(a[0], m) {
            lemma_run_ops_append(a.subrange(1, a.len() as int), b, m1);
        }
    } else {
        assert(a + b =~= b);
    }
}

proof fn lemma_run_ops_one(op: Op, m: Machine)
    ensures
        run_ops(seq![op], m) == run_op(op, m),
{
    let one = seq![op];
    assert(one[0] == op);
    assert(one.subrange(1, 1) =~= Seq::<Op>::empty());
    if let Ok(m1) = run_op(op, m) {
        assert(run_ops(one.subrange(1, 1), m1) == Ok::<Machine, crate::run::RunError>(m1));
    }
}

/// Code generation for one branch of a lowered conditional: the branch's
/// plain code, then the store into the conditional's slot, all in the block
/// being written.
proof fn lemma_gen_branch(b: Expr, n: nat, dst: nat, st: GenState)
    requires
        pure_expr(b),
        n + crate::lower::values_used(b) <= u32::MAX,
        st.cur < st.cfg.blocks.len(),
        st.cfg.slots == seq![SlotKey::Temp(dst)],
    ensures
        ({
            let l = lower_spec(b, n)->Ok_0;
            let s = l.insts.push(InstV::Store { name: SlotKey::Temp(dst), src: l.val });
            let blk = st.cfg.blocks[st.cur as int];
            &&& lower_spec(b, n) is Ok
            &&& gen_seq(s, st) matches Ok((st2, false)) && st2.cur == st.cur && st2.cfg.slots
                == st.cfg.slots && st2.cfg.blocks == st.cfg.blocks.update(
                st.cur as int,
                BlockV {
                    ops: blk.ops + trans(l.insts) + seq![Op::Store { slot: 0, src: vid(l.val) }],
                    term: blk.term,
                },
            ) && st.vals.subset_of(st2.vals)
        }),
{
    lemma_lower_gen(b, n, st);
    lemma_lower_counts(b, n);
    let l = lower_spec(b, n)->Ok_0;
    let st2 = gen_seq(l.insts, st)->Ok_0.0;
    let store = InstV::Store { name: SlotKey::Temp(dst), src: l.val };
    lemma_gen_append(l.insts, seq![store], st);
    assert(l.insts.push(store) =~= l.insts + seq![store]);
    assert(seq![store][0] == store);
    assert(seq![store].subrange(1, 1) =~= Seq::<InstV>::empty());
    assert(crate::codegen::slot_index(st2.cfg.slots, SlotKey::Temp(dst)) == Some(0nat)) by {
        assert(st2.cfg.slots.last() == SlotKey::Temp(dst));
    }
    let st3 = add_op(st2, Op::Store { slot: 0, src: vid(l.val) });
    assert(gen_inst(store, st2) == Ok::<(GenState, bool), crate::codegen::Failure>((st3, false)));
    assert(gen_seq(seq![store].subrange(1, 1), st3) == Ok::<(GenState, bool), crate::codegen::Failure>((st3, false)));
    let blk = st.cfg.blocks[st.cur as int];
    assert(blk.ops + trans(l.insts) + seq![Op::Store { slot: 0, src: vid(l.val) }] =~= (blk.ops
        + trans(l.insts)).push(Op::Store { slot: 0, src: vid(l.val) }));
    assert(st3.cfg.blocks =~= st.cfg.blocks.update(
        st.cur as int,
        BlockV {
            ops: blk.ops + trans(l.insts) + seq![Op::Store { slot: 0, src: vid(l.val) }],
            term: blk.term,
        },
    ));
}


/// The block graph of a lowered if/else with pure parts: the condition's
/// code ending in a branch, one block for each side ending in a store into
/// the conditional's slot and a jump to the merge block, and the merge
/// block loading that slot and returning it.
pub open spec fn if_layout(c: crate::lower::Lowered, t: crate::lower::Lowered, el: crate::lower::Lowered) -> crate::codegen::CfgV {
    let dst = t.next;
    crate::codegen::CfgV {
        slots: seq![SlotKey::Temp(dst)],
        blocks: seq![
            BlockV {
                ops: trans(c.insts),
                term: Some(Terminator::Branch { cond: vid(c.val), then_block: 1, else_block: 2 }),
            },
            BlockV {
                ops: trans(t.insts) + seq![Op::Store { slot: 0, src: vid(t.val) }],
                term: Some(Terminator::Jump { target: 3 }),
            },
            BlockV {
                ops: trans(el.insts) + seq![Op::Store { slot: 0, src: vid(el.val) }],
                term: Some(Terminator::Jump { target: 3 }),
            },
            BlockV {
                ops: seq![Op::Load { dst: vid(dst), slot: 0 }],
                term: Some(Terminator::Return { src: vid(dst) }),
            },
        ],
    }
}

proof fn lemma_if_layout(e0: Expr)
    requires
        e0 matches Expr::If { cond, body, else_branch: Some(eb) } && pure_expr(*cond) && pure_expr(*body)
            && pure_expr(*eb),
        crate::lower::values_used(e0) < u32::MAX,
    ensures
        ({
            let (cond, body, eb) = match e0 {
                Expr::If { cond, body, else_branch: Some(eb) } => (*cond, *body, *eb),
                _ => (e0, e0, e0),
            };
            let c = lower_spec(cond, 0)->Ok_0;
            let t = lower_spec(body, c.next)->Ok_0;
            let el = lower_spec(eb, t.next + 1)->Ok_0;
            &&& lower_spec(cond, 0) is Ok
            &&& lower_spec(body, c.next) is Ok
            &&& lower_spec(eb, t.next + 1) is Ok
            &&& program_spec(seq![e0]) matches Ok(prog) && gen_body(prog) == Ok::<
                crate::codegen::CfgV,
                crate::codegen::Failure,
            >(if_layout(c, t, el))
        }),
{
    let (cond, body, eb) = match e0 {
        Expr::If { cond, body, else_branch: Some(eb) } => (*cond, *body, *eb),
        _ => (e0, e0, e0),
    };
    lemma_lower_counts(e0, 0);
    lemma_lower_counts(cond, 0);
    let c = lower_spec(cond, 0)->Ok_0;
    lemma_lower_gen(cond, 0, initial_state());
    lemma_lower_counts(body, c.next);
    let t = lower_spec(body, c.next)->Ok_0;
    lemma_lower_gen(body, c.next, initial_state());
    let dst = t.next;
    lemma_lower_counts(eb, dst + 1);
    lemma_lower_gen(eb, dst + 1, initial_state());
    let el = lower_spec(eb, dst + 1)->Ok_0;
    let then_insts = t.insts.push(InstV::Store { name: SlotKey::Temp(dst), src: t.val });
    let else_insts = el.insts.push(InstV::Store { name: SlotKey::Temp(dst), src: el.val });
    let ci = InstV::Conditional { cond: c.val, then_insts, else_insts, dst };
    let l = lower_spec(e0, 0)->Ok_0;
    assert(l.insts == c.insts.push(ci));
    let es = seq![e0];
    assert(es.drop_last() =~= Seq::<Expr>::empty());
    assert(es.last() == e0);
    assert(lower_seq_spec(es.drop_last()) == Ok::<crate::lower::LoweredSeq, crate::lower::LowerError>(
        crate::lower::LoweredSeq { insts: seq![], last: None, next: 0 },
    ));
    assert(lower_seq_spec(es) == Ok::<crate::lower::LoweredSeq, crate::lower::LowerError>(
        crate::lower::LoweredSeq { insts: Seq::<InstV>::empty() + l.insts, last: Some(l.val), next: l.next },
    ));
    let p = lower_seq_spec(es)->Ok_0;
    assert(p.insts =~= l.insts);
    let ret = InstV::Return { src: dst };
    let prog = p.insts.push(ret);
    assert(program_spec(es) == Ok::<Seq<InstV>, crate::lower::LowerError>(prog));
    // the condition's code, in the entry block
    let st0 = initial_state();
    let st1 = gen_seq(c.insts, st0)->Ok_0.0;
    assert(prog =~= c.insts + seq![ci] + seq![ret]);
    lemma_gen_append(c.insts + seq![ci], seq![ret], st0);
    lemma_gen_append(c.insts, seq![ci], st0);
    assert(seq![ci][0] == ci);
    assert(seq![ci].subrange(1, 1) =~= Seq::<InstV>::empty());
    assert(seq![ret][0] == ret);
    assert(seq![ret].subrange(1, 1) =~= Seq::<InstV>::empty());
    assert(st1.cfg.slots =~= Seq::<SlotKey>::empty());
    assert(crate::codegen::slot_index(st1.cfg.slots, SlotKey::Temp(dst)) is None);
    // the conditional
    let st1a = crate::codegen::with_slot(st1, SlotKey::Temp(dst)).0;
    assert(st1a.cfg.slots =~= seq![SlotKey::Temp(dst)]);
    let st2 = crate::codegen::set_term(st1a, Terminator::Branch { cond: vid(c.val), then_block: 1, else_block: 2 });
    let e3 = crate::codegen::empty_block();
    let st3 = GenState {
        cfg: crate::codegen::CfgV { blocks: st2.cfg.blocks.push(e3).push(e3).push(e3), ..st2.cfg },
        cur: 1,
        ..st2
    };
    lemma_gen_branch(body, c.next, dst, st3);
    let st4 = gen_seq(then_insts, st3)->Ok_0.0;
    let st5 = GenState { cur: 2, ..crate::codegen::close(st4, false, 3) };
    lemma_gen_branch(eb, dst + 1, dst, st5);
    let st6 = gen_seq(else_insts, st5)->Ok_0.0;
    let st7 = GenState { cur: 3, ..crate::codegen::close(st6, false, 3) };
    let st8 = define(add_op(st7, Op::Load { dst: vid(dst), slot: 0 }), dst);
    assert(gen_inst(ci, st1) == Ok::<(GenState, bool), crate::codegen::Failure>((st8, false)));
    let st9 = crate::codegen::set_term(st8, Terminator::Return { src: vid(dst) });
    assert(gen_inst(ret, st8) == Ok::<(GenState, bool), crate::codegen::Failure>((st9, true)));
    let lay = if_layout(c, t, el);
    assert(st9.cfg.slots == lay.slots);
    assert(st9.cfg.blocks[0].ops =~= lay.blocks[0].ops);
    assert(st9.cfg.blocks[1].ops =~= lay.blocks[1].ops);
    assert(st9.cfg.blocks[2].ops =~= lay.blocks[2].ops);
    assert(st9.cfg.blocks[3].ops =~= lay.blocks[3].ops);
    assert(st9.cfg.blocks =~= lay.blocks);
    assert(st9.cfg == lay);
    assert(gen_seq(seq![ci].subrange(1, 1), st8) == Ok::<(GenState, bool), crate::codegen::Failure>((st8, false)));
    assert(gen_seq(seq![ci], st1) == Ok::<(GenState, bool), crate::codegen::Failure>((st8, false)));
    assert(gen_seq(seq![ret], st8) == Ok::<(GenState, bool), crate::codegen::Failure>((st9, true)));
    assert(gen_seq(prog, st0) == Ok::<(GenState, bool), crate::codegen::Failure>((st9, true)));
}


/// Runs one side of a lowered conditional: its block computes the side's
/// value, stores it in the conditional's slot and jumps to the merge block,
/// which loads the slot and returns it.
proof fn lemma_if_side_runs(
    c: crate::lower::Lowered,
    t: crate::lower::Lowered,
    el: crate::lower::Lowered,
    side: Expr,
    n: nat,
    blk: nat,
    m1: Machine,
    env1: Env,
)
    requires
        blk == 1 || blk == 2,
        side_code(c, t, el, blk) == lower_spec(side, n)->Ok_0,
        lower_spec(side, n) is Ok,
        pure_expr(side),
        plain(lower_spec(side, n)->Ok_0.insts),
        lower_spec(side, n)->Ok_0.val <= u32::MAX,
        t.next <= u32::MAX,
        corr(m1, env1),
    ensures
        match eval_pure(side) {
            Some(v) => run_from(if_layout(c, t, el), blk, m1, 3) == Ok::<i64, crate::run::RunError>(v),
            None => run_from(if_layout(c, t, el), blk, m1, 3) is Err,
        },
{
    let lay = if_layout(c, t, el);
    let l = lower_spec(side, n)->Ok_0;
    let store = Op::Store { slot: 0, src: vid(l.val) };
    lemma_lower_run(side, n, env1);
    lemma_sim(l.insts, m1, env1);
    lemma_run_ops_append(trans(l.insts), seq![store], m1);
    assert(lay.blocks[blk as int].ops == trans(l.insts) + seq![store]);
    if let Flow::Next(env2) = run_insts(l.insts, env1) {
        let m2 = run_ops(trans(l.insts), m1)->Ok_0;
        lemma_run_ops_one(store, m2);
        assert(env2.vals.contains_key(l.val) ==> m2.vals.contains_key(l.val as u32));
        if eval_pure(side) is Some {
            let m3 = run_op(store, m2)->Ok_0;
            let load = Op::Load { dst: vid(t.next), slot: 0 };
            lemma_run_ops_one(load, m3);
            assert(lay.blocks[3].ops == seq![load]);
            let m4 = run_op(load, m3)->Ok_0;
            assert(run_from(lay, 3, m3, 2) == Ok::<i64, crate::run::RunError>(m4.vals[t.next as u32]));
        }
    }
}

/// The code of one side of a conditional, by block number.
pub open spec fn side_code(
    c: crate::lower::Lowered,
    t: crate::lower::Lowered,
    el: crate::lower::Lowered,
    blk: nat,
) -> crate::lower::Lowered {
    if blk == 1 {
        t
    } else {
        el
    }
}

/// If/else through lowering, code generation and running: where the
/// condition's value is not zero only the `then` side runs, and the value
/// of the whole expression, loaded at the merge from the slot both sides
/// store into, is the `then` side's; where it is zero, the `else` side's.
pub proof fn lemma_if_determinism(e0: Expr)
    requires
        e0 matches Expr::If { cond, body, else_branch: Some(eb) } && pure_expr(*cond) && pure_expr(*body)
            && pure_expr(*eb),
        crate::lower::values_used(e0) < u32::MAX,
    ensures
        program_spec(seq![e0]) matches Ok(prog) && gen_body(prog) matches Ok(cfg) && match e0 {
            Expr::If { cond, body, else_branch: Some(eb) } => match eval_pure(*cond) {
                Some(cv) => match (if cv != 0 {
                    eval_pure(*body)
                } else {
                    eval_pure(*eb)
                }) {
                    Some(v) => run_cfg_spec(cfg) == Ok::<i64, crate::run::RunError>(v),
                    None => run_cfg_spec(cfg) is Err,
                },
                None => run_cfg_spec(cfg) is Err,
            },
            _ => true,
        },
{
    let (cond, body, eb) = match e0 {
        Expr::If { cond, body, else_branch: Some(eb) } => (*cond, *body, *eb),
        _ => (e0, e0, e0),
    };
    lemma_if_layout(e0);
    lemma_lower_counts(e0, 0);
    lemma_lower_counts(cond, 0);
    let c = lower_spec(cond, 0)->Ok_0;
    lemma_lower_counts(body, c.next);
    let t = lower_spec(body, c.next)->Ok_0;
    lemma_lower_counts(eb, t.next + 1);
    let el = lower_spec(eb, t.next + 1)->Ok_0;
    lemma_lower_gen(cond, 0, initial_state());
    lemma_lower_gen(body, c.next, initial_state());
    lemma_lower_gen(eb, t.next + 1, initial_state());
    let lay = if_layout(c, t, el);
    let env0 = Env { vals: Map::empty(), slots: Map::empty() };
    let m0 = empty_machine();
    lemma_lower_run(cond, 0, env0);
    lemma_sim(c.insts, m0, env0);
    assert(run_cfg_spec(lay) == run_from(lay, 0, m0, 4));
    if let Flow::Next(env1) = run_insts(c.insts, env0) {
        let m1 = run_ops(trans(c.insts), m0)->Ok_0;
        assert(env1.vals.contains_key(c.val) ==> m1.vals.contains_key(c.val as u32));
        lemma_if_side_runs(c, t, el, body, c.next, 1, m1, env1);
        lemma_if_side_runs(c, t, el, eb, t.next + 1, 2, m1, env1);
    }
}


/// A body of straight-line code without a return gets the implicit return of
/// 0: its only block ends in `ReturnZero`, and running it returns 0 unless
/// its code faults.
pub proof fn lemma_implicit_return(s: Seq<InstV>)
    requires
        plain(s),
        gen_seq(s, initial_state()) is Ok,
    ensures
        gen_body(s) matches Ok(c) && c.blocks.len() == 1 && c.blocks[0].term == Some(Terminator::ReturnZero)
            && match run_insts(s, Env { vals: Map::empty(), slots: Map::empty() }) {
            Flow::Next(_) => run_cfg_spec(c) == Ok::<i64, crate::run::RunError>(0),
            _ => run_cfg_spec(c) is Err,
        },
{
    let st0 = initial_state();
    lemma_gen_plain(s, st0);
    let st1 = gen_seq(s, st0)->Ok_0.0;
    let c = crate::codegen::set_term(st1, Terminator::ReturnZero).cfg;
    assert(c.blocks[0].ops == Seq::<Op>::empty() + trans(s));
    assert(Seq::<Op>::empty() + trans(s) =~= trans(s));
    let env0 = Env { vals: Map::empty(), slots: Map::empty() };
    lemma_sim(s, empty_machine(), env0);
    assert(run_cfg_spec(c) == run_from(c, 0, empty_machine(), 1));
}

} // verus!
