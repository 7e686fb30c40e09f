//! Running a block graph: the meaning of the code generator's output, and an
//! interpreter that computes it.
use vstd::prelude::*;
use std::collections::HashMap;
use crate::codegen::{BlockV, Cfg, CfgV, Op, Terminator};
use crate::ir::ValueId;
use crate::sem::{arith, eval_arith};

verus! {

broadcast use vstd::std_specs::hash::group_hash_axioms;

/// Why running a block graph stops without a result.
#[derive(Debug, Clone, Copy, PartialEq, Eq, Structural)]
pub enum RunError {
    /// An operand has not been computed on the path taken.
    UndefinedValue(ValueId),
    /// A slot is read before anything was stored in it.
    UninitializedSlot(usize),
    DivideByZero,
    /// `i64::MIN / -1`.
    Overflow,
    /// A block has no terminator.
    MissingTerminator,
    /// A jump or branch names a block that does not exist.
    BadTarget,
    /// More blocks were entered than the graph holds.
    OutOfSteps,
}

/// The values computed so far and the contents of the slots.
pub struct Machine {
    pub vals: Map<u32, i64>,
    pub mem: Map<usize, i64>,
}

pub open spec fn div_error(r: i64) -> RunError {
    if r == 0 {
        RunError::DivideByZero
    } else {
        RunError::Overflow
    }
}

pub open spec fn run_op(op: Op, m: Machine) -> Result<Machine, RunError> {
    match op {
        Op::Const { dst, value } => Ok(Machine { vals: m.vals.insert(dst.0, value), ..m }),
        Op::Arith { op, dst, lhs, rhs } => if !m.vals.contains_key(lhs.0) {
            Err(RunError::UndefinedValue(lhs))
        } else if !m.vals.contains_key(rhs.0) {
            Err(RunError::UndefinedValue(rhs))
        } else {
            match arith(op, m.vals[lhs.0], m.vals[rhs.0]) {
                Some(v) => Ok(Machine { vals: m.vals.insert(dst.0, v), ..m }),
                None => Err(div_error(m.vals[rhs.0])),
            }
        },
        Op::Load { dst, slot } => if m.mem.contains_key(slot) {
            Ok(Machine { vals: m.vals.insert(dst.0, m.mem[slot]), ..m })
        } else {
            Err(RunError::UninitializedSlot(slot))
        },
        Op::Store { slot, src } => if m.vals.contains_key(src.0) {
            Ok(Machine { mem: m.mem.insert(slot, m.vals[src.0]), ..m })
        } else {
            Err(RunError::UndefinedValue(src))
        },
    }
}

pub open spec fn run_ops(ops: Seq<Op>, m: Machine) -> Result<Machine, RunError>
    decreases ops.len(),
{
    if ops.len() == 0 {
        Ok(m)
    } else {
        match run_op(ops[0], m) {
            Ok(m1) => run_ops(ops.subrange(1, ops.len() as int), m1),
            Err(e) => Err(e),
        }
    }
}

/// Runs the graph from block `b`, entering at most `fuel` blocks.
pub open spec fn run_from(c: CfgV, b: nat, m: Machine, fuel: nat) -> Result<i64, RunError>
    decreases fuel,
{
    if fuel == 0 {
        Err(RunError::OutOfSteps)
    } else if b >= c.blocks.len() {
        Err(RunError::BadTarget)
    } else {
        let blk = c.blocks[b as int];
        match run_ops(blk.ops, m) {
            Err(e) => Err(e),
            Ok(m1) => match blk.term {
                None => Err(RunError::MissingTerminator),
                Some(Terminator::Return { src }) => if m1.vals.contains_key(src.0) {
                    Ok(m1.vals[src.0])
                } else {
                    Err(RunError::UndefinedValue(src))
                },
                Some(Terminator::ReturnZero) => Ok(0),
                Some(Terminator::Jump { target }) => run_from(c, target as nat, m1, (fuel - 1) as nat),
                Some(Terminator::Branch { cond, then_block, else_block }) => if m1.vals.contains_key(
                    cond.0,
                ) {
                    if m1.vals[cond.0] != 0 {
                        run_from(c, then_block as nat, m1, (fuel - 1) as nat)
                    } else {
                        run_from(c, else_block as nat, m1, (fuel - 1) as nat)
                    }
                } else {
                    Err(RunError::UndefinedValue(cond))
                },
            },
        }
    }
}

pub open spec fn empty_machine() -> Machine {
    Machine { vals: Map::empty(), mem: Map::empty() }
}

/// The result of running a graph from its entry block with nothing computed
/// and every slot empty; a run enters each block at most once.
pub open spec fn run_cfg_spec(c: CfgV) -> Result<i64, RunError> {
    run_from(c, 0, empty_machine(), c.blocks.len())
}

fn run_op_exec(op: Op, vals: &mut HashMap<u32, i64>, mem: &mut HashMap<usize, i64>) -> (r: Result<(), RunError>)
    ensures
        match run_op(op, Machine { vals: old(vals)@, mem: old(mem)@ }) {
            Ok(m) => r is Ok && final(vals)@ == m.vals && final(mem)@ == m.mem,
            Err(e) => r == Err::<(), RunError>(e),
        },
{
    match op {
        Op::Const { dst, value } => {
            vals.insert(dst.0, value);
            Ok(())
        },
        Op::Arith { op, dst, lhs, rhs } => {
            let l = match vals.get(&lhs.0) {
                Some(x) => *x,
                None => {
                    return Err(RunError::UndefinedValue(lhs));
                },
            };
            let r = match vals.get(&rhs.0) {
                Some(x) => *x,
                None => {
                    return Err(RunError::UndefinedValue(rhs));
                },
            };
            match eval_arith(op, l, r) {
                Some(v) => {
                    vals.insert(dst.0, v);
                    Ok(())
                },
                None => Err(if r == 0 {
                    RunError::DivideByZero
                } else {
                    RunError::Overflow
                }),
            }
        },
        Op::Load { dst, slot } => {
            let v = match mem.get(&slot) {
                Some(x) => *x,
                None => {
                    return Err(RunError::UninitializedSlot(slot));
                },
            };
            vals.insert(dst.0, v);
            Ok(())
        },
        Op::Store { slot, src } => {
            let v = match vals.get(&src.0) {
                Some(x) => *x,
                None => {
                    return Err(RunError::UndefinedValue(src));
                },
            };
            mem.insert(slot, v);
            Ok(())
        },
    }
}

/// Runs a block graph from its entry block and returns what it returns.
pub fn run_cfg(cfg: &Cfg) -> (r: Result<i64, RunError>)
    ensures
        r == run_cfg_spec(cfg@),
{
    let mut vals: HashMap<u32, i64> = HashMap::new();
    let mut mem: HashMap<usize, i64> = HashMap::new();
    let mut b: usize = 0;
    let mut fuel: usize = cfg.blocks.len();
    let ghost c = cfg@;
    loop
        invariant
            c == cfg@,
            c.blocks.len() == cfg.blocks@.len(),
            run_cfg_spec(c) == run_from(c, b as nat, Machine { vals: vals@, mem: mem@ }, fuel as nat),
        decreases fuel,
    {
        if fuel == 0 {
            return Err(RunError::OutOfSteps);
        }
        if b >= cfg.blocks.len() {
            return Err(RunError::BadTarget);
        }
        let blk = &cfg.blocks[b];
        let ghost bv: BlockV = c.blocks[b as int];
        let ghost m0 = Machine { vals: vals@, mem: mem@ };
        proof {
            assert(bv.ops == blk.ops@);
            assert(bv.term == blk.term);
        }
        let mut k: usize = 0;
        proof {
            assert(bv.ops.subrange(0, bv.ops.len() as int) =~= bv.ops);
        }
        while k < blk.ops.len()
            invariant
                k <= blk.ops@.len(),
                bv.ops == blk.ops@,
                bv.term == blk.term,
                c == cfg@,
                fuel > 0,
                b < c.blocks.len(),
                bv == c.blocks[b as int],
                run_cfg_spec(c) == run_from(c, b as nat, m0, fuel as nat),
                run_ops(bv.ops, m0) == run_ops(
                    bv.ops.subrange(k as int, bv.ops.len() as int),
                    Machine { vals: vals@, mem: mem@ },
                ),
            decreases blk.ops@.len() - k,
        {
            let ghost rest = bv.ops.subrange(k as int, bv.ops.len() as int);
            proof {
                assert(rest[0] == blk.ops@[k as int]);
                assert(rest.subrange(1, rest.len() as int) =~= bv.ops.subrange(k + 1, bv.ops.len() as int));
            }
            match run_op_exec(blk.ops[k], &mut vals, &mut mem) {
                Ok(()) => {},
                Err(e) => {
                    return Err(e);
                },
            }
            k = k + 1;
        }
        proof {
            assert(bv.ops.subrange(k as int, bv.ops.len() as int) =~= Seq::<Op>::empty());
        }
        match blk.term {
            None => {
                return Err(RunError::MissingTerminator);
            },
            Some(Terminator::Return { src }) => {
                return match vals.get(&src.0) {
                    Some(x) => Ok(*x),
                    None => Err(RunError::UndefinedValue(src)),
                };
            },
            Some(Terminator::ReturnZero) => {
                return Ok(0);
            },
            Some(Terminator::Jump { target }) => {
                b = target;
            },
            Some(Terminator::Branch { cond, then_block, else_block }) => {
                match vals.get(&cond.0) {
                    Some(x) => {
                        b = if *x != 0 {
                            then_block
                        } else {
                            else_block
                        };
                    },
                    None => {
                        return Err(RunError::UndefinedValue(cond));
                    },
                }
            },
        }
        fuel = fuel - 1;
    }
}

} // verus!
