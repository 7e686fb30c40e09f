//! The meaning of instructions: a mathematical picture of the instruction
//! tree and the result of running it.
use vstd::prelude::*;
use crate::ir::{Inst, SlotKey, ValueId};

verus! {

/// The binary operations shared by the instruction set and the block graph.
#[derive(Debug, Clone, Copy, PartialEq, Eq, Structural)]
pub enum ArithOp {
    Add,
    Sub,
    Mul,
    Div,
    Greater,
    Less,
    Equal,
}

/// The result of an operation on two 64-bit values: addition, subtraction and
/// multiplication wrap; division truncates toward zero and has no result for
/// a zero divisor or for `i64::MIN / -1`; comparisons give 1 or 0.
pub open spec fn arith(op: ArithOp, l: i64, r: i64) -> Option<i64> {
    match op {
        ArithOp::Add => Some(l.wrapping_add(r)),
        ArithOp::Sub => Some(l.wrapping_sub(r)),
        ArithOp::Mul => Some(l.wrapping_mul(r)),
        ArithOp::Div => l.checked_div(r),
        ArithOp::Greater => Some(if l > r { 1i64 } else { 0i64 }),
        ArithOp::Less => Some(if l < r { 1i64 } else { 0i64 }),
        ArithOp::Equal => Some(if l == r { 1i64 } else { 0i64 }),
    }
}

/// Computes `arith`.
pub fn eval_arith(op: ArithOp, l: i64, r: i64) -> (res: Option<i64>)
    ensures
        res == arith(op, l, r),
{
    match op {
        ArithOp::Add => Some(l.wrapping_add(r)),
        ArithOp::Sub => Some(l.wrapping_sub(r)),
        ArithOp::Mul => Some(l.wrapping_mul(r)),
        ArithOp::Div => l.checked_div(r),
        ArithOp::Greater => Some(if l > r { 1i64 } else { 0i64 }),
        ArithOp::Less => Some(if l < r { 1i64 } else { 0i64 }),
        ArithOp::Equal => Some(if l == r { 1i64 } else { 0i64 }),
    }
}

/// An instruction as a mathematical value.
pub enum InstV {
    Const { dst: nat, value: i64 },
    Boolean { dst: nat, value: bool },
    Arith { op: ArithOp, dst: nat, lhs: nat, rhs: nat },
    Call { dst: nat, callee: Seq<char>, args: Seq<nat> },
    Load { dst: nat, name: SlotKey },
    Store { name: SlotKey, src: nat },
    Return { src: nat },
    Conditional { cond: nat, then_insts: Seq<InstV>, else_insts: Seq<InstV>, dst: nat },
}

pub open spec fn ids(s: Seq<ValueId>) -> Seq<nat> {
    s.map_values(|v: ValueId| v.0 as nat)
}

pub open spec fn inst_view(i: Inst) -> InstV
    decreases i,
{
    match i {
        Inst::Const { dst, value } => InstV::Const { dst: dst.0 as nat, value },
        Inst::Boolean { dst, value } => InstV::Boolean { dst: dst.0 as nat, value },
        Inst::Call { dst, callee, args } => InstV::Call {
            dst: dst.0 as nat,
            callee: callee@,
            args: ids(args@),
        },
        Inst::Load { dst, name } => InstV::Load { dst: dst.0 as nat, name: name@ },
        Inst::Store { name, src } => InstV::Store { name: name@, src: src.0 as nat },
        Inst::Return { src } => InstV::Return { src: src.0 as nat },
        Inst::Conditional { cond, then_insts, else_insts, dst } => InstV::Conditional {
            cond: cond.0 as nat,
            then_insts: insts_view(then_insts@),
            else_insts: insts_view(else_insts@),
            dst: dst.0 as nat,
        },
        Inst::Add { dst, lhs, rhs } => InstV::Arith {
            op: ArithOp::Add,
            dst: dst.0 as nat,
            lhs: lhs.0 as nat,
            rhs: rhs.0 as nat,
        },
        Inst::Sub { dst, lhs, rhs } => InstV::Arith {
            op: ArithOp::Sub,
            dst: dst.0 as nat,
            lhs: lhs.0 as nat,
            rhs: rhs.0 as nat,
        },
        Inst::Mul { dst, lhs, rhs } => InstV::Arith {
            op: ArithOp::Mul,
            dst: dst.0 as nat,
            lhs: lhs.0 as nat,
            rhs: rhs.0 as nat,
        },
        Inst::Div { dst, lhs, rhs } => InstV::Arith {
            op: ArithOp::Div,
            dst: dst.0 as nat,
            lhs: lhs.0 as nat,
            rhs: rhs.0 as nat,
        },
        Inst::Greater { dst, lhs, rhs } => InstV::Arith {
            op: ArithOp::Greater,
            dst: dst.0 as nat,
            lhs: lhs.0 as nat,
            rhs: rhs.0 as nat,
        },
        Inst::Less { dst, lhs, rhs } => InstV::Arith {
            op: ArithOp::Less,
            dst: dst.0 as nat,
            lhs: lhs.0 as nat,
            rhs: rhs.0 as nat,
        },
        Inst::Equal { dst, lhs, rhs } => InstV::Arith {
            op: ArithOp::Equal,
            dst: dst.0 as nat,
            lhs: lhs.0 as nat,
            rhs: rhs.0 as nat,
        },
    }
}

/// A sequence of instructions as mathematical values, element by element.
pub open spec fn insts_view(s: Seq<Inst>) -> Seq<InstV>
    decreases s,
{
    if s.len() == 0 {
        Seq::empty()
    } else {
        insts_view(s.subrange(0, s.len() - 1)).push(inst_view(s[s.len() - 1]))
    }
}

pub proof fn lemma_insts_view(s: Seq<Inst>)
    ensures
        insts_view(s).len() == s.len(),
        forall|i: int| 0 <= i < s.len() ==> #[trigger] insts_view(s)[i] == inst_view(s[i]),
    decreases s.len(),
{
    if s.len() > 0 {
        lemma_insts_view(s.subrange(0, s.len() - 1));
    }
}

pub proof fn lemma_insts_view_push(s: Seq<Inst>, i: Inst)
    ensures
        insts_view(s.push(i)) == insts_view(s).push(inst_view(i)),
{
    assert(s.push(i).subrange(0, s.len() as int) == s);
}

/// What running code has built up: the values produced so far and the
/// contents of the slots written so far.
pub struct Env {
    pub vals: Map<nat, i64>,
    pub slots: Map<SlotKey, i64>,
}

/// Why running code stops without a result.
pub enum Fault {
    UndefinedValue(nat),
    UndefinedVariable(SlotKey),
    Unsupported,
    DivideByZero,
    Overflow,
}

/// How running code ends: it goes on with a new environment, returns a
/// value, or faults.
pub enum Flow {
    Next(Env),
    Ret(i64),
    Fail(Fault),
}

pub open spec fn div_fault(r: i64) -> Fault {
    if r == 0 {
        Fault::DivideByZero
    } else {
        Fault::Overflow
    }
}

pub open spec fn set_val(env: Env, dst: nat, v: i64) -> Env {
    Env { vals: env.vals.insert(dst, v), slots: env.slots }
}

/// Runs one instruction.
pub open spec fn run_inst(i: InstV, env: Env) -> Flow
    decreases i,
{
    match i {
        InstV::Const { dst, value } => Flow::Next(set_val(env, dst, value)),
        InstV::Boolean { dst, value } => Flow::Next(set_val(env, dst, if value { 1 } else { 0 })),
        InstV::Arith { op, dst, lhs, rhs } => if !env.vals.contains_key(lhs) {
            Flow::Fail(Fault::UndefinedValue(lhs))
        } else if !env.vals.contains_key(rhs) {
            Flow::Fail(Fault::UndefinedValue(rhs))
        } else {
            match arith(op, env.vals[lhs], env.vals[rhs]) {
                Some(v) => Flow::Next(set_val(env, dst, v)),
                None => Flow::Fail(div_fault(env.vals[rhs])),
            }
        },
        InstV::Call { .. } => Flow::Fail(Fault::Unsupported),
        InstV::Load { dst, name } => if env.slots.contains_key(name) {
            Flow::Next(set_val(env, dst, env.slots[name]))
        } else {
            Flow::Fail(Fault::UndefinedVariable(name))
        },
        InstV::Store { name, src } => if env.vals.contains_key(src) {
            Flow::Next(Env { vals: env.vals, slots: env.slots.insert(name, env.vals[src]) })
        } else {
            Flow::Fail(Fault::UndefinedValue(src))
        },
        InstV::Return { src } => if env.vals.contains_key(src) {
            Flow::Ret(env.vals[src])
        } else {
            Flow::Fail(Fault::UndefinedValue(src))
        },
        InstV::Conditional { cond, then_insts, else_insts, dst } => if !env.vals.contains_key(
            cond,
        ) {
            Flow::Fail(Fault::UndefinedValue(cond))
        } else {
            let branch = if env.vals[cond] != 0 {
                run_insts(then_insts, env)
            } else {
                run_insts(else_insts, env)
            };
            match branch {
                Flow::Next(e) => merge(e, dst),
                other => other,
            }
        },
    }
}

/// Binds the destination of a conditional to what its branch left in the
/// conditional's temporary slot.
pub open spec fn merge(e: Env, dst: nat) -> Flow {
    if e.slots.contains_key(SlotKey::Temp(dst)) {
        Flow::Next(set_val(e, dst, e.slots[SlotKey::Temp(dst)]))
    } else {
        Flow::Fail(Fault::UndefinedVariable(SlotKey::Temp(dst)))
    }
}

/// Runs a sequence of instructions in order, stopping at the first return
/// or fault.
pub open spec fn run_insts(s: Seq<InstV>, env: Env) -> Flow
    decreases s,
{
    if s.len() == 0 {
        Flow::Next(env)
    } else {
        match run_inst(s[0], env) {
            Flow::Next(e) => run_insts(s.subrange(1, s.len() as int), e),
            other => other,
        }
    }
}

/// The result of a function body: what it returns, with 0 where it runs to
/// its end without a return.
pub open spec fn run_body(s: Seq<InstV>) -> Result<i64, Fault> {
    match run_insts(s, Env { vals: Map::empty(), slots: Map::empty() }) {
        Flow::Next(_) => Ok(0),
        Flow::Ret(v) => Ok(v),
        Flow::Fail(f) => Err(f),
    }
}

} // verus!
