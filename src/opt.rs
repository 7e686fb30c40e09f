//! Constant folding.
use vstd::prelude::*;
use std::collections::HashMap;
use crate::ir::{Function, Inst, Module, ValueId};
use crate::lower::emit;
use crate::sem::{
    ArithOp, Env, Flow, InstV, arith, eval_arith, inst_view, insts_view, lemma_insts_view,
    run_inst, run_insts,
};

verus! {

broadcast use vstd::std_specs::hash::group_hash_axioms;

/// The operations whose constant operands are folded.
pub open spec fn foldable(op: ArithOp) -> bool {
    op == ArithOp::Add || op == ArithOp::Sub || op == ArithOp::Mul || op == ArithOp::Div
}

/// The value an instruction writes, if it writes one.
pub open spec fn written(i: InstV) -> Option<nat> {
    match i {
        InstV::Const { dst, .. } => Some(dst),
        InstV::Boolean { dst, .. } => Some(dst),
        InstV::Arith { dst, .. } => Some(dst),
        InstV::Call { dst, .. } => Some(dst),
        InstV::Load { dst, .. } => Some(dst),
        InstV::Conditional { dst, .. } => Some(dst),
        _ => None,
    }
}

/// Folds one instruction, given the values known to be constant before it:
/// the instruction that takes its place, and the values known after it.
/// An addition, subtraction, multiplication or division of two known
/// constants becomes a `Const` of its result, unless the division has no
/// result; any other instruction stays as it is. The branches of a
/// conditional are folded from the constants known on entry, each on its
/// own; after a conditional nothing is taken as known.
pub open spec fn fold_inst(i: InstV, k: Map<nat, i64>) -> (InstV, Map<nat, i64>)
    decreases i,
{
    match i {
        InstV::Const { dst, value } => (i, k.insert(dst, value)),
        InstV::Arith { op, dst, lhs, rhs } => if foldable(op) && k.contains_key(lhs) && k.contains_key(
            rhs,
        ) && arith(op, k[lhs], k[rhs]) is Some {
            let v = arith(op, k[lhs], k[rhs])->Some_0;
            (InstV::Const { dst, value: v }, k.insert(dst, v))
        } else {
            (i, k.remove(dst))
        },
        InstV::Conditional { cond, then_insts, else_insts, dst } => (
            InstV::Conditional {
                cond,
                then_insts: fold_seq(then_insts, k).0,
                else_insts: fold_seq(else_insts, k).0,
                dst,
            },
            Map::empty(),
        ),
        _ => match written(i) {
            Some(d) => (i, k.remove(d)),
            None => (i, k),
        },
    }
}

/// Folds a sequence of instructions in one forward pass.
pub open spec fn fold_seq(s: Seq<InstV>, k: Map<nat, i64>) -> (Seq<InstV>, Map<nat, i64>)
    decreases s,
{
    if s.len() == 0 {
        (s, k)
    } else {
        let p = fold_seq(s.subrange(0, s.len() - 1), k);
        let x = fold_inst(s[s.len() - 1], p.1);
        (p.0.push(x.0), x.1)
    }
}

/// The constants known before a function's body: none.
pub open spec fn fold_body(s: Seq<InstV>) -> Seq<InstV> {
    fold_seq(s, Map::empty()).0
}

/// The known constants agree with what running code has computed.
pub open spec fn consistent(k: Map<nat, i64>, env: Env) -> bool {
    forall|x: nat| #[trigger]
        k.contains_key(x) ==> env.vals.contains_key(x) && env.vals[x] == k[x]
}

pub proof fn lemma_run_append(a: Seq<InstV>, b: Seq<InstV>, env: Env)
    ensures
        run_insts(a + b, env) == match run_insts(a, env) {
            Flow::Next(e) => run_insts(b, e),
            other => other,
        },
    decreases a.len(),
{
    if a.len() > 0 {
        assert((a + b).subrange(1, (a + b).len() as int) =~= a.subrange(1, a.len() as int) + b);
        assert((a + b)[0] == a[0]);
        if let Flow::Next(e) = run_inst(a[0], env) {
            lemma_run_append(a.subrange(1, a.len() as int), b, e);
        }
    } else {
        assert(a + b =~= b);
    }
}

pub proof fn lemma_run_snoc(a: Seq<InstV>, x: InstV, env: Env)
    ensures
        run_insts(a.push(x), env) == match run_insts(a, env) {
            Flow::Next(e) => run_inst(x, e),
            other => other,
        },
{
    lemma_run_append(a, seq![x], env);
    assert(a + seq![x] =~= a.push(x));
    if let Flow::Next(e) = run_insts(a, env) {
        let one = seq![x];
        assert(one[0] == x);
        assert(one.subrange(1, 1) =~= Seq::<InstV>::empty());
        if let Flow::Next(e2) = run_inst(x, e) {
            assert(run_insts(one.subrange(1, 1), e2) == Flow::Next(e2));
        }
    }
}

/// Folding one instruction does not change what running it does, and the
/// constants known after it stay true.
pub proof fn lemma_fold_inst_sound(i: InstV, k: Map<nat, i64>, env: Env)
    requires
        consistent(k, env),
    ensures
        run_inst(fold_inst(i, k).0, env) == run_inst(i, env),
        run_inst(i, env) matches Flow::Next(e) ==> consistent(fold_inst(i, k).1, e),
    decreases i,
{
    match i {
        InstV::Conditional { cond, then_insts, else_insts, dst } => {
            lemma_fold_seq_sound(then_insts, k, env);
            lemma_fold_seq_sound(else_insts, k, env);
        },
        _ => {},
    }
}

/// Constant folding preserves the meaning of a sequence of instructions,
/// whatever values and slots it starts from, as long as the constants it is
/// told of are the ones computed.
pub proof fn lemma_fold_seq_sound(s: Seq<InstV>, k: Map<nat, i64>, env: Env)
    requires
        consistent(k, env),
    ensures
        run_insts(fold_seq(s, k).0, env) == run_insts(s, env),
        run_insts(s, env) matches Flow::Next(e) ==> consistent(fold_seq(s, k).1, e),
    decreases s,
{
    if s.len() > 0 {
        let init = s.subrange(0, s.len() - 1);
        let last = s[s.len() - 1];
        let p = fold_seq(init, k);
        lemma_fold_seq_sound(init, k, env);
        lemma_run_snoc(p.0, fold_inst(last, p.1).0, env);
        assert(init.push(last) =~= s);
        lemma_run_snoc(init, last, env);
        if let Flow::Next(e) = run_insts(init, env) {
            lemma_fold_inst_sound(last, p.1, e);
        }
    }
}

/// What may stand in place of an instruction after folding: the instruction
/// itself; for a foldable operation, a `Const` writing the same value; for a
/// conditional, a conditional on the same condition writing the same value.
pub open spec fn kept_or_folded(orig: InstV, new: InstV) -> bool {
    match orig {
        InstV::Arith { op, dst, .. } => new == orig || (foldable(op) && (new matches InstV::Const {
            dst: d,
            ..
        } && d == dst)),
        InstV::Conditional { cond, dst, .. } => new matches InstV::Conditional { cond: c, dst: d, .. } && c
            == cond && d == dst,
        _ => new == orig,
    }
}

/// Folding keeps every instruction in place: nothing is dropped, and each
/// instruction is kept or replaced as `kept_or_folded` allows.
pub proof fn lemma_fold_seq_shape(s: Seq<InstV>, k: Map<nat, i64>)
    ensures
        fold_seq(s, k).0.len() == s.len(),
        forall|j: int| 0 <= j < s.len() ==> kept_or_folded(s[j], #[trigger] fold_seq(s, k).0[j]),
    decreases s.len(),
{
    if s.len() > 0 {
        let init = s.subrange(0, s.len() - 1);
        lemma_fold_seq_shape(init, k);
        let p = fold_seq(init, k);
        let last = s[s.len() - 1];
        assert(kept_or_folded(last, fold_inst(last, p.1).0));
        assert forall|j: int| 0 <= j < s.len() implies kept_or_folded(
            s[j],
            #[trigger] fold_seq(s, k).0[j],
        ) by {
            if j < s.len() - 1 {
                assert(s[j] == init[j]);
            }
        }
    }
}

/// A division whose divisor is known to be 0 is never folded.
pub proof fn lemma_fold_keeps_zero_division(dst: nat, lhs: nat, rhs: nat, k: Map<nat, i64>)
    requires
        k.contains_key(rhs),
        k[rhs] == 0,
    ensures
        fold_inst(InstV::Arith { op: ArithOp::Div, dst, lhs, rhs }, k).0 == (InstV::Arith {
            op: ArithOp::Div,
            dst,
            lhs,
            rhs,
        }),
{
}

/// Folding a folded instruction again, from the same known constants,
/// changes nothing.
pub proof fn lemma_fold_inst_idempotent(i: InstV, k: Map<nat, i64>)
    ensures
        fold_inst(fold_inst(i, k).0, k) == fold_inst(i, k),
    decreases i,
{
    if let InstV::Conditional { then_insts, else_insts, .. } = i {
        lemma_fold_idempotent(then_insts, k);
        lemma_fold_idempotent(else_insts, k);
    }
}

/// Folding is idempotent: a second pass over folded code changes nothing.
pub proof fn lemma_fold_idempotent(s: Seq<InstV>, k: Map<nat, i64>)
    ensures
        fold_seq(fold_seq(s, k).0, k) == fold_seq(s, k),
    decreases s,
{
    if s.len() > 0 {
        let init = s.subrange(0, s.len() - 1);
        lemma_fold_idempotent(init, k);
        lemma_fold_seq_shape(init, k);
        let p = fold_seq(init, k);
        let x = fold_inst(s[s.len() - 1], p.1);
        lemma_fold_inst_idempotent(s[s.len() - 1], p.1);
        let f = p.0.push(x.0);
        assert(f.subrange(0, f.len() - 1) =~= p.0);
        assert(f[f.len() - 1] == x.0);
    }
}

/// The constants known just before position `j` of a sequence folded from
/// `k`.
pub open spec fn known_before(s: Seq<InstV>, k: Map<nat, i64>, j: int) -> Map<nat, i64> {
    fold_seq(s.subrange(0, j), k).1
}

pub proof fn lemma_fold_prefix(s: Seq<InstV>, k: Map<nat, i64>, m: int)
    requires
        0 <= m <= s.len(),
    ensures
        fold_seq(s.subrange(0, m), k).0 == fold_seq(s, k).0.subrange(0, m),
    decreases s.len(),
{
    lemma_fold_seq_shape(s, k);
    if m == s.len() {
        assert(s.subrange(0, m) =~= s);
        assert(fold_seq(s, k).0.subrange(0, m) =~= fold_seq(s, k).0);
    } else {
        let init = s.subrange(0, s.len() - 1);
        lemma_fold_prefix(init, k, m);
        lemma_fold_seq_shape(init, k);
        assert(init.subrange(0, m) =~= s.subrange(0, m));
        assert(fold_seq(s, k).0.subrange(0, m) =~= fold_seq(init, k).0.subrange(0, m));
    }
}

/// Over a whole body: a division whose divisor is known to be 0 where it
/// stands is kept as it is, and its result is not taken as a known constant
/// by anything after it.
pub proof fn lemma_fold_body_keeps_zero_division(s: Seq<InstV>, k: Map<nat, i64>, j: int)
    requires
        0 <= j < s.len(),
        s[j] matches InstV::Arith { op, rhs, .. } && op == ArithOp::Div && known_before(s, k, j).contains_key(rhs)
            && known_before(s, k, j)[rhs] == 0,
    ensures
        fold_seq(s, k).0[j] == s[j],
        s[j] matches InstV::Arith { dst, .. } && !known_before(s, k, j + 1).contains_key(dst),
{
    lemma_fold_prefix(s, k, j + 1);
    lemma_fold_seq_shape(s, k);
    let pre = s.subrange(0, j + 1);
    assert(pre.subrange(0, j) =~= s.subrange(0, j));
    assert(pre[j] == s[j]);
    let kb = known_before(s, k, j);
    let x = fold_inst(s[j], kb);
    assert(pre.subrange(0, pre.len() - 1) =~= s.subrange(0, j));
    assert(fold_seq(pre, k) == (fold_seq(s.subrange(0, j), k).0.push(x.0), x.1));
    if let InstV::Arith { op, dst, lhs, rhs } = s[j] {
        assert(arith(op, kb[lhs], kb[rhs]) is None);
        assert(x == (s[j], kb.remove(dst)));
    }
    lemma_fold_seq_shape(s.subrange(0, j), k);
    assert(fold_seq(s.subrange(0, j), k).0.len() == j);
    assert(fold_seq(pre, k).0[j] == x.0);
    assert(fold_seq(pre, k).0[j] == fold_seq(s, k).0[j]);
}

/// The known constants as a map over all naturals.
pub open spec fn widen(m: Map<u32, i64>) -> Map<nat, i64> {
    Map::new(|x: nat| x <= u32::MAX && m.contains_key(x as u32), |x: nat| m[x as u32])
}

proof fn lemma_widen_insert(m: Map<u32, i64>, a: u32, v: i64)
    ensures
        widen(m.insert(a, v)) == widen(m).insert(a as nat, v),
{
    assert(widen(m.insert(a, v)) =~= widen(m).insert(a as nat, v));
}

proof fn lemma_widen_remove(m: Map<u32, i64>, a: u32)
    ensures
        widen(m.remove(a)) == widen(m).remove(a as nat),
{
    assert(widen(m.remove(a)) =~= widen(m).remove(a as nat));
}

proof fn lemma_widen_empty()
    ensures
        widen(Map::<u32, i64>::empty()) == Map::<nat, i64>::empty(),
{
    assert(widen(Map::<u32, i64>::empty()) =~= Map::<nat, i64>::empty());
}

/// Looks up a known constant.
fn lookup(known: &HashMap<u32, i64>, v: ValueId) -> (r: Option<i64>)
    ensures
        r == (if widen(known@).contains_key(v.0 as nat) {
            Some(widen(known@)[v.0 as nat])
        } else {
            None
        }),
{
    match known.get(&v.0) {
        Some(x) => Some(*x),
        None => None,
    }
}

fn forget(known: &mut HashMap<u32, i64>, v: ValueId)
    ensures
        widen(final(known)@) == widen(old(known)@).remove(v.0 as nat),
{
    proof {
        lemma_widen_remove(known@, v.0);
    }
    known.remove(&v.0);
}

fn remember(known: &mut HashMap<u32, i64>, v: ValueId, x: i64)
    ensures
        widen(final(known)@) == widen(old(known)@).insert(v.0 as nat, x),
{
    proof {
        lemma_widen_insert(known@, v.0, x);
    }
    known.insert(v.0, x);
}

/// A copy of a list of values.
fn copy_ids(v: &Vec<ValueId>) -> (r: Vec<ValueId>)
    ensures
        r@ == v@,
{
    let mut r: Vec<ValueId> = Vec::new();
    let mut i: usize = 0;
    while i < v.len()
        invariant
            i <= v@.len(),
            r@ == v@.subrange(0, i as int),
        decreases v@.len() - i,
    {
        r.push(v[i]);
        i = i + 1;
        proof {
            assert(r@ =~= v@.subrange(0, i as int));
        }
    }
    proof {
        assert(v@.subrange(0, v@.len() as int) =~= v@);
    }
    r
}

/// Folds an arithmetic instruction of operation `op`; `keep` is the
/// instruction itself.
fn fold_arith(op: ArithOp, dst: ValueId, lhs: ValueId, rhs: ValueId, keep: Inst, known: &mut HashMap<u32, i64>) -> (r: Inst)
    requires
        inst_view(keep) == (InstV::Arith {
            op,
            dst: dst.0 as nat,
            lhs: lhs.0 as nat,
            rhs: rhs.0 as nat,
        }),
    ensures
        (inst_view(r), widen(final(known)@)) == fold_inst(inst_view(keep), widen(old(known)@)),
{
    let l = lookup(known, lhs);
    let r = lookup(known, rhs);
    if let (Some(lv), Some(rv)) = (l, r) {
        if op == ArithOp::Add || op == ArithOp::Sub || op == ArithOp::Mul || op == ArithOp::Div {
            if let Some(v) = eval_arith(op, lv, rv) {
                remember(known, dst, v);
                return Inst::Const { dst, value: v };
            }
        }
    }
    forget(known, dst);
    keep
}

/// Folds a sequence of instructions, given the values known to be constant
/// before it; on return `known` holds the values known after it.
pub fn fold_insts(insts: &Vec<Inst>, known: &mut HashMap<u32, i64>) -> (r: Vec<Inst>)
    ensures
        (insts_view(r@), widen(final(known)@)) == fold_seq(insts_view(insts@), widen(old(known)@)),
    decreases *insts,
{
    let ghost k0 = widen(known@);
    let mut out: Vec<Inst> = Vec::new();
    let mut i: usize = 0;
    proof {
        lemma_insts_view(insts@);
        assert(insts_view(insts@).subrange(0, 0) =~= Seq::<InstV>::empty());
        assert(insts_view(out@) =~= Seq::<InstV>::empty());
    }
    while i < insts.len()
        invariant
            i <= insts@.len(),
            k0 == widen(old(known)@),
            insts_view(insts@).len() == insts@.len(),
            forall|j: int| 0 <= j < insts@.len() ==> #[trigger] insts_view(insts@)[j] == inst_view(insts@[j]),
            (insts_view(out@), widen(known@)) == fold_seq(insts_view(insts@).subrange(0, i as int), k0),
        decreases insts@.len() - i,
    {
        let ghost sv = insts_view(insts@).subrange(0, i + 1);
        let ghost kb = widen(known@);
        proof {
            assert(sv.subrange(0, i as int) =~= insts_view(insts@).subrange(0, i as int));
            assert(sv[i as int] == inst_view(insts@[i as int]));
        }
        let folded = match &insts[i] {
            Inst::Const { dst, value } => {
                remember(known, *dst, *value);
                Inst::Const { dst: *dst, value: *value }
            },
            Inst::Add { dst, lhs, rhs } => fold_arith(
                ArithOp::Add,
                *dst,
                *lhs,
                *rhs,
                Inst::Add { dst: *dst, lhs: *lhs, rhs: *rhs },
                known,
            ),
            Inst::Sub { dst, lhs, rhs } => fold_arith(
                ArithOp::Sub,
                *dst,
                *lhs,
                *rhs,
                Inst::Sub { dst: *dst, lhs: *lhs, rhs: *rhs },
                known,
            ),
            Inst::Mul { dst, lhs, rhs } => fold_arith(
                ArithOp::Mul,
                *dst,
                *lhs,
                *rhs,
                Inst::Mul { dst: *dst, lhs: *lhs, rhs: *rhs },
                known,
            ),
            Inst::Div { dst, lhs, rhs } => fold_arith(
                ArithOp::Div,
                *dst,
                *lhs,
                *rhs,
                Inst::Div { dst: *dst, lhs: *lhs, rhs: *rhs },
                known,
            ),
            Inst::Greater { dst, lhs, rhs } => {
                forget(known, *dst);
                Inst::Greater { dst: *dst, lhs: *lhs, rhs: *rhs }
            },
            Inst::Less { dst, lhs, rhs } => {
                forget(known, *dst);
                Inst::Less { dst: *dst, lhs: *lhs, rhs: *rhs }
            },
            Inst::Equal { dst, lhs, rhs } => {
                forget(known, *dst);
                Inst::Equal { dst: *dst, lhs: *lhs, rhs: *rhs }
            },
            Inst::Boolean { dst, value } => {
                forget(known, *dst);
                Inst::Boolean { dst: *dst, value: *value }
            },
            Inst::Call { dst, callee, args } => {
                forget(known, *dst);
                Inst::Call { dst: *dst, callee: callee.clone(), args: copy_ids(args) }
            },
            Inst::Load { dst, name } => {
                forget(known, *dst);
                Inst::Load { dst: *dst, name: name.duplicate() }
            },
            Inst::Store { name, src } => Inst::Store { name: name.duplicate(), src: *src },
            Inst::Return { src } => Inst::Return { src: *src },
            Inst::Conditional { cond, then_insts, else_insts, dst } => {
                proof {
                    assert(decreases_to!(*insts => insts@[i as int]));
                }
                let mut k_then = known.clone();
                let t = fold_insts(then_insts, &mut k_then);
                let mut k_else = known.clone();
                let e = fold_insts(else_insts, &mut k_else);
                *known = HashMap::new();
                proof {
                    lemma_widen_empty();
                }
                Inst::Conditional { cond: *cond, then_insts: t, else_insts: e, dst: *dst }
            },
        };
        proof {
            assert(fold_inst(inst_view(insts@[i as int]), kb) == (inst_view(folded), widen(known@)));
        }
        emit(&mut out, folded);
        i = i + 1;
        proof {
            assert(insts_view(out@) =~= fold_seq(insts_view(insts@).subrange(0, i as int), k0).0);
        }
    }
    proof {
        assert(insts_view(insts@).subrange(0, insts@.len() as int) =~= insts_view(insts@));
    }
    out
}

/// Folds the constants of one function's body in a single forward pass.
pub fn constant_folding(function: &mut Function)
    ensures
        final(function).name == old(function).name,
        final(function).counter() == old(function).counter(),
        insts_view(final(function).body@) == fold_body(insts_view(old(function).body@)),
{
    let mut known: HashMap<u32, i64> = HashMap::new();
    proof {
        lemma_widen_empty();
    }
    let body = fold_insts(&function.body, &mut known);
    function.body = body;
}

/// Folds the constants of every function of a module.
pub fn optimize_module(module: &mut Module)
    ensures
        final(module).functions@.len() == old(module).functions@.len(),
        forall|j: int|
            0 <= j < old(module).functions@.len() ==> {
                let f = #[trigger] final(module).functions@[j];
                let g = old(module).functions@[j];
                &&& f.name == g.name
                &&& f.counter() == g.counter()
                &&& insts_view(f.body@) == fold_body(insts_view(g.body@))
            },
{
    let mut fs: Vec<Function> = Vec::new();
    std::mem::swap(&mut fs, &mut module.functions);
    let ghost orig = fs@;
    let mut done: Vec<Function> = Vec::new();
    while fs.len() > 0
        invariant
            orig == old(module).functions@,
            done@.len() + fs@.len() == orig.len(),
            fs@ == orig.subrange(done@.len() as int, orig.len() as int),
            forall|j: int|
                0 <= j < done@.len() ==> {
                    let f = #[trigger] done@[j];
                    let g = orig[j];
                    &&& f.name == g.name
                    &&& f.counter() == g.counter()
                    &&& insts_view(f.body@) == fold_body(insts_view(g.body@))
                },
        decreases fs@.len(),
    {
        let mut f = fs.remove(0);
        constant_folding(&mut f);
        done.push(f);
        proof {
            assert(fs@ =~= orig.subrange(done@.len() as int, orig.len() as int));
        }
    }
    module.functions = done;
}

} // verus!
