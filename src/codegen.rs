//! Code generation: lays the instruction tree of a function out as a graph
//! of basic blocks, with one storage slot per variable allocated up front.
use vstd::prelude::*;
use vstd::string::*;
use crate::ir::{Function, Inst, Module, Slot, SlotKey, ValueId};
use crate::lower::main_name;
use crate::sem::{ArithOp, InstV, inst_view, insts_view, lemma_insts_view};

verus! {

broadcast use vstd::std_specs::hash::group_hash_axioms;

/// A straight-line operation inside a basic block. `slot` is an index into
/// the graph's slot table.
#[derive(Debug, Clone, Copy, PartialEq, Eq, Structural)]
pub enum Op {
    Const { dst: ValueId, value: i64 },
    Arith { op: ArithOp, dst: ValueId, lhs: ValueId, rhs: ValueId },
    Load { dst: ValueId, slot: usize },
    Store { slot: usize, src: ValueId },
}

/// How a basic block ends. `Branch` goes to `then_block` where `cond` is not
/// zero and to `else_block` where it is.
#[derive(Debug, Clone, Copy, PartialEq, Eq, Structural)]
pub enum Terminator {
    Return { src: ValueId },
    ReturnZero,
    Jump { target: usize },
    Branch { cond: ValueId, then_block: usize, else_block: usize },
}

/// A basic block: its operations and, once it is closed, its terminator.
#[derive(Debug)]
pub struct Block {
    pub ops: Vec<Op>,
    pub term: Option<Terminator>,
}

/// A function as a graph of basic blocks. Block 0 is the entry; `slots`
/// lists the storage slots that the entry block allocates, one per name.
#[derive(Debug)]
pub struct Cfg {
    pub slots: Vec<Slot>,
    pub blocks: Vec<Block>,
}

/// Why code generation fails.
#[derive(Debug)]
pub enum CodegenError {
    /// An operand refers to a value that no earlier instruction produced.
    UndefinedValue(ValueId),
    /// A load reads a variable that no earlier instruction stored.
    UndefinedVariable(Slot),
    /// Calls are not supported; the callee is named.
    UnsupportedOperation(String),
    /// The module has no function named "main".
    NoEntryPoint,
    /// The block graph would outgrow the address space.
    TooLarge,
}

/// A code generation failure as a mathematical value.
pub enum Failure {
    UndefinedValue(nat),
    UndefinedVariable(SlotKey),
    UnsupportedOperation(Seq<char>),
    NoEntryPoint,
    TooLarge,
}

impl View for CodegenError {
    type V = Failure;

    open spec fn view(&self) -> Failure {
        match self {
            CodegenError::UndefinedValue(v) => Failure::UndefinedValue(v.0 as nat),
            CodegenError::UndefinedVariable(s) => Failure::UndefinedVariable(s@),
            CodegenError::UnsupportedOperation(c) => Failure::UnsupportedOperation(c@),
            CodegenError::NoEntryPoint => Failure::NoEntryPoint,
            CodegenError::TooLarge => Failure::TooLarge,
        }
    }
}

pub struct BlockV {
    pub ops: Seq<Op>,
    pub term: Option<Terminator>,
}

pub struct CfgV {
    pub slots: Seq<SlotKey>,
    pub blocks: Seq<BlockV>,
}

impl View for Block {
    type V = BlockV;

    open spec fn view(&self) -> BlockV {
        BlockV { ops: self.ops@, term: self.term }
    }
}

pub open spec fn slots_view(s: Seq<Slot>) -> Seq<SlotKey> {
    s.map_values(|x: Slot| x@)
}

pub open spec fn blocks_view(s: Seq<Block>) -> Seq<BlockV> {
    s.map_values(|b: Block| b@)
}

impl View for Cfg {
    type V = CfgV;

    open spec fn view(&self) -> CfgV {
        CfgV { slots: slots_view(self.slots@), blocks: blocks_view(self.blocks@) }
    }
}

/// Where code generation stands: the graph so far, the values produced so
/// far in textual order, and the block being written.
pub struct GenState {
    pub cfg: CfgV,
    pub vals: Set<nat>,
    pub cur: nat,
}

/// The index of a slot in the slot table, if it has one.
pub open spec fn slot_index(slots: Seq<SlotKey>, k: SlotKey) -> Option<nat>
    decreases slots.len(),
{
    if slots.len() == 0 {
        None
    } else if slots.last() == k {
        Some((slots.len() - 1) as nat)
    } else {
        slot_index(slots.drop_last(), k)
    }
}

pub proof fn lemma_slot_index(slots: Seq<SlotKey>, k: SlotKey)
    ensures
        slot_index(slots, k) matches Some(i) ==> i < slots.len() && slots[i as int] == k,
        slot_index(slots, k) is None ==> !slots.contains(k),
    decreases slots.len(),
{
    if slots.len() > 0 {
        lemma_slot_index(slots.drop_last(), k);
        if slot_index(slots, k) is None {
            assert forall|j: int| 0 <= j < slots.len() implies slots[j] != k by {
                if j < slots.len() - 1 {
                    assert(slots[j] == slots.drop_last()[j]);
                }
            }
        }
    }
}

/// The slot of `k`, allocated in the entry block on first use.
pub open spec fn with_slot(st: GenState, k: SlotKey) -> (GenState, nat) {
    match slot_index(st.cfg.slots, k) {
        Some(i) => (st, i),
        None => (
            GenState { cfg: CfgV { slots: st.cfg.slots.push(k), ..st.cfg }, ..st },
            st.cfg.slots.len(),
        ),
    }
}

pub open spec fn add_op(st: GenState, op: Op) -> GenState {
    let b = st.cfg.blocks[st.cur as int];
    GenState {
        cfg: CfgV {
            blocks: st.cfg.blocks.update(st.cur as int, BlockV { ops: b.ops.push(op), ..b }),
            ..st.cfg
        },
        ..st
    }
}

pub open spec fn set_term(st: GenState, t: Terminator) -> GenState {
    let b = st.cfg.blocks[st.cur as int];
    GenState {
        cfg: CfgV {
            blocks: st.cfg.blocks.update(st.cur as int, BlockV { term: Some(t), ..b }),
            ..st.cfg
        },
        ..st
    }
}

pub open spec fn define(st: GenState, v: nat) -> GenState {
    GenState { vals: st.vals.insert(v), ..st }
}

pub open spec fn vid(v: nat) -> ValueId {
    ValueId(v as u32)
}

/// Closes the block being written with a jump to `target`, unless it ended
/// in a return.
pub open spec fn close(st: GenState, returned: bool, target: nat) -> GenState {
    if returned {
        st
    } else {
        set_term(st, Terminator::Jump { target: target as usize })
    }
}

pub open spec fn empty_block() -> BlockV {
    BlockV { ops: seq![], term: None }
}

/// Generates code for one instruction; `true` with the new state where the
/// instruction is a return, which ends the block.
pub open spec fn gen_inst(i: InstV, st: GenState) -> Result<(GenState, bool), Failure>
    decreases i,
{
    match i {
        InstV::Const { dst, value } => Ok(
            (define(add_op(st, Op::Const { dst: vid(dst), value }), dst), false),
        ),
        InstV::Boolean { dst, value } => Ok(
            (
                define(add_op(st, Op::Const { dst: vid(dst), value: if value { 1 } else { 0 } }), dst),
                false,
            ),
        ),
        InstV::Arith { op, dst, lhs, rhs } => if !st.vals.contains(lhs) {
            Err(Failure::UndefinedValue(lhs))
        } else if !st.vals.contains(rhs) {
            Err(Failure::UndefinedValue(rhs))
        } else {
            Ok(
                (
                    define(
                        add_op(st, Op::Arith { op, dst: vid(dst), lhs: vid(lhs), rhs: vid(rhs) }),
                        dst,
                    ),
                    false,
                ),
            )
        },
        InstV::Call { callee, .. } => Err(Failure::UnsupportedOperation(callee)),
        InstV::Load { dst, name } => match slot_index(st.cfg.slots, name) {
            Some(s) => Ok((define(add_op(st, Op::Load { dst: vid(dst), slot: s as usize }), dst), false)),
            None => Err(Failure::UndefinedVariable(name)),
        },
        InstV::Store { name, src } => if !st.vals.contains(src) {
            Err(Failure::UndefinedValue(src))
        } else if st.cfg.slots.len() >= usize::MAX {
            Err(Failure::TooLarge)
        } else {
            let (st1, s) = with_slot(st, name);
            Ok((add_op(st1, Op::Store { slot: s as usize, src: vid(src) }), false))
        },
        InstV::Return { src } => if !st.vals.contains(src) {
            Err(Failure::UndefinedValue(src))
        } else {
            Ok((set_term(st, Terminator::Return { src: vid(src) }), true))
        },
        InstV::Conditional { cond, then_insts, else_insts, dst } => if !st.vals.contains(cond) {
            Err(Failure::UndefinedValue(cond))
        } else if st.cfg.slots.len() >= usize::MAX || st.cfg.blocks.len() + 3 > usize::MAX {
            Err(Failure::TooLarge)
        } else {
            let (st1, temp) = with_slot(st, SlotKey::Temp(dst));
            let t = st1.cfg.blocks.len();
            let st2 = set_term(st1, Terminator::Branch {
                cond: vid(cond),
                then_block: t as usize,
                else_block: (t + 1) as usize,
            });
            let st3 = GenState {
                cfg: CfgV {
                    blocks: st2.cfg.blocks.push(empty_block()).push(empty_block()).push(
                        empty_block(),
                    ),
                    ..st2.cfg
                },
                cur: t,
                ..st2
            };
            match gen_seq(then_insts, st3) {
                Ok((st4, ret_then)) => {
                    let st5 = GenState { cur: t + 1, ..close(st4, ret_then, t + 2) };
                    match gen_seq(else_insts, st5) {
                        Ok((st6, ret_else)) => {
                            let st7 = GenState { cur: t + 2, ..close(st6, ret_else, t + 2) };
                            Ok(
                                (
                                    define(
                                        add_op(st7, Op::Load { dst: vid(dst), slot: temp as usize }),
                                        dst,
                                    ),
                                    false,
                                ),
                            )
                        },
                        Err(e) => Err(e),
                    }
                },
                Err(e) => Err(e),
            }
        },
    }
}

/// Generates code for a sequence of instructions into the block being
/// written; `true` where a return was met. What follows a return can never
/// run and is not emitted, but it is still checked, so that its errors are
/// reported as anywhere else.
pub open spec fn gen_seq(s: Seq<InstV>, st: GenState) -> Result<(GenState, bool), Failure>
    decreases s,
{
    if s.len() == 0 {
        Ok((st, false))
    } else {
        match gen_inst(s[0], st) {
            Ok((st1, true)) => match check_seq(s.subrange(1, s.len() as int), st1) {
                Ok(st2) => Ok((st2, true)),
                Err(e) => Err(e),
            },
            Ok((st1, false)) => gen_seq(s.subrange(1, s.len() as int), st1),
            Err(e) => Err(e),
        }
    }
}

/// Checks one instruction of unreachable code by the same rules as code
/// generation, without emitting anything: operands must have been
/// produced, loads must name a slot already in use, calls are refused.
/// Values it produces and slots it names are recorded as code generation
/// would record them.
pub open spec fn check_inst(i: InstV, st: GenState) -> Result<GenState, Failure>
    decreases i,
{
    match i {
        InstV::Const { dst, .. } => Ok(define(st, dst)),
        InstV::Boolean { dst, .. } => Ok(define(st, dst)),
        InstV::Arith { dst, lhs, rhs, .. } => if !st.vals.contains(lhs) {
            Err(Failure::UndefinedValue(lhs))
        } else if !st.vals.contains(rhs) {
            Err(Failure::UndefinedValue(rhs))
        } else {
            Ok(define(st, dst))
        },
        InstV::Call { callee, .. } => Err(Failure::UnsupportedOperation(callee)),
        InstV::Load { dst, name } => if slot_index(st.cfg.slots, name) is Some {
            Ok(define(st, dst))
        } else {
            Err(Failure::UndefinedVariable(name))
        },
        InstV::Store { name, src } => if !st.vals.contains(src) {
            Err(Failure::UndefinedValue(src))
        } else if st.cfg.slots.len() >= usize::MAX {
            Err(Failure::TooLarge)
        } else {
            Ok(with_slot(st, name).0)
        },
        InstV::Return { src } => if !st.vals.contains(src) {
            Err(Failure::UndefinedValue(src))
        } else {
            Ok(st)
        },
        InstV::Conditional { cond, then_insts, else_insts, dst } => if !st.vals.contains(cond) {
            Err(Failure::UndefinedValue(cond))
        } else if st.cfg.slots.len() >= usize::MAX {
            Err(Failure::TooLarge)
        } else {
            match check_seq(then_insts, with_slot(st, SlotKey::Temp(dst)).0) {
                Ok(st1) => match check_seq(else_insts, st1) {
                    Ok(st2) => Ok(define(st2, dst)),
                    Err(e) => Err(e),
                },
                Err(e) => Err(e),
            }
        },
    }
}

/// Checks a sequence of unreachable instructions, in order.
pub open spec fn check_seq(s: Seq<InstV>, st: GenState) -> Result<GenState, Failure>
    decreases s,
{
    if s.len() == 0 {
        Ok(st)
    } else {
        match check_inst(s[0], st) {
            Ok(st1) => check_seq(s.subrange(1, s.len() as int), st1),
            Err(e) => Err(e),
        }
    }
}

pub open spec fn initial_state() -> GenState {
    GenState { cfg: CfgV { slots: seq![], blocks: seq![empty_block()] }, vals: Set::empty(), cur: 0 }
}

/// The block graph of a function body: its code from the entry block on,
/// with a return of 0 closing the last block where the body does not return.
pub open spec fn gen_body(s: Seq<InstV>) -> Result<CfgV, Failure> {
    match gen_seq(s, initial_state()) {
        Ok((st, true)) => Ok(st.cfg),
        Ok((st, false)) => Ok(set_term(st, Terminator::ReturnZero).cfg),
        Err(e) => Err(e),
    }
}

/// The state of code generation, kept in executable form.
/// The values produced so far are kept in a growable array indexed by
/// value id, `defined[v]` being set once `v` is produced.
struct Builder {
    cfg: Cfg,
    defined: Vec<bool>,
    cur: usize,
}

impl Builder {
    spec fn state(&self) -> GenState {
        GenState {
            cfg: self.cfg@,
            vals: Set::new(|x: nat| x < self.defined@.len() && self.defined@[x as int]),
            cur: self.cur as nat,
        }
    }

    spec fn wf(&self) -> bool {
        &&& self.cur < self.cfg.blocks@.len()
    }

    fn defines(&self, v: ValueId) -> (r: bool)
        ensures
            r == self.state().vals.contains(v.0 as nat),
    {
        let i = v.0 as usize;
        i < self.defined.len() && self.defined[i]
    }

    fn define(&mut self, v: ValueId)
        ensures
            final(self).state() == define(old(self).state(), v.0 as nat),
            final(self).cur == old(self).cur,
            final(self).cfg.blocks@.len() == old(self).cfg.blocks@.len(),
    {
        let i = v.0 as usize;
        while self.defined.len() <= i
            invariant
                self.cfg == old(self).cfg,
                self.cur == old(self).cur,
                self.state().vals == old(self).state().vals,
            decreases i + 1 - self.defined@.len(),
        {
            let ghost before = self.state().vals;
            self.defined.push(false);
            proof {
                assert(self.state().vals =~= before);
            }
        }
        self.defined[i] = true;
        proof {
            assert(final(self).state().vals =~= old(self).state().vals.insert(v.0 as nat));
        }
    }

    fn add_op(&mut self, op: Op)
        requires
            old(self).wf(),
        ensures
            final(self).wf(),
            final(self).state() == add_op(old(self).state(), op),
            final(self).cur == old(self).cur,
            final(self).cfg.blocks@.len() == old(self).cfg.blocks@.len(),
    {
        let cur = self.cur;
        self.cfg.blocks[cur].ops.push(op);
        proof {
            assert(blocks_view(self.cfg.blocks@) =~= add_op(old(self).state(), op).cfg.blocks);
        }
    }

    fn set_term(&mut self, t: Terminator)
        requires
            old(self).wf(),
        ensures
            final(self).wf(),
            final(self).state() == set_term(old(self).state(), t),
            final(self).cur == old(self).cur,
            final(self).cfg.blocks@.len() == old(self).cfg.blocks@.len(),
    {
        let cur = self.cur;
        self.cfg.blocks[cur].term = Some(t);
        proof {
            assert(blocks_view(self.cfg.blocks@) =~= set_term(old(self).state(), t).cfg.blocks);
        }
    }

    fn find_slot(&self, k: &Slot) -> (r: Option<usize>)
        ensures
            match slot_index(self.state().cfg.slots, k@) {
                Some(i) => r == Some(i as usize),
                None => r is None,
            },
    {
        let mut i: usize = self.cfg.slots.len();
        proof {
            assert(self.state().cfg.slots.subrange(0, i as int) =~= self.state().cfg.slots);
        }
        while i > 0
            invariant
                i <= self.cfg.slots@.len(),
                slot_index(self.state().cfg.slots, k@) == slot_index(
                    self.state().cfg.slots.subrange(0, i as int),
                    k@,
                ),
            decreases i,
        {
            let ghost sub = self.state().cfg.slots.subrange(0, i as int);
            proof {
                assert(sub.last() == self.cfg.slots@[i - 1]@);
                assert(sub.drop_last() =~= self.state().cfg.slots.subrange(0, i - 1));
            }
            if self.cfg.slots[i - 1].same(k) {
                return Some(i - 1);
            }
            i = i - 1;
        }
        proof {
            assert(self.state().cfg.slots.subrange(0, 0) =~= Seq::<SlotKey>::empty());
        }
        None
    }

    fn slot_for(&mut self, k: &Slot) -> (r: usize)
        requires
            old(self).wf(),
            old(self).cfg.slots@.len() < usize::MAX,
        ensures
            final(self).wf(),
            (final(self).state(), r as nat) == with_slot(old(self).state(), k@),
            final(self).cur == old(self).cur,
            final(self).cfg.blocks@.len() == old(self).cfg.blocks@.len(),
    {
        proof {
            lemma_slot_index(self.state().cfg.slots, k@);
        }
        match self.find_slot(k) {
            Some(i) => i,
            None => {
                let n = self.cfg.slots.len();
                self.cfg.slots.push(k.duplicate());
                proof {
                    assert(slots_view(self.cfg.slots@) =~= old(self).state().cfg.slots.push(k@));
                }
                n
            },
        }
    }
}


fn empty_block_exec() -> (r: Block)
    ensures
        r@ == empty_block(),
{
    Block { ops: Vec::new(), term: None }
}

/// Generates code for one instruction.
fn gen_inst_exec(b: &mut Builder, i: &Inst) -> (r: Result<bool, CodegenError>)
    requires
        old(b).wf(),
    ensures
        match gen_inst(inst_view(*i), old(b).state()) {
            Ok((st, ret)) => r == Ok::<bool, CodegenError>(ret) && final(b).state() == st && final(b).wf()
                && final(b).cfg.blocks@.len() >= old(b).cfg.blocks@.len(),
            Err(e) => r matches Err(x) && x@ == e,
        },
    decreases *i,
{
    match i {
        Inst::Const { dst, value } => {
            b.add_op(Op::Const { dst: *dst, value: *value });
            b.define(*dst);
            Ok(false)
        },
        Inst::Boolean { dst, value } => {
            b.add_op(Op::Const { dst: *dst, value: if *value { 1 } else { 0 } });
            b.define(*dst);
            Ok(false)
        },
        Inst::Add { dst, lhs, rhs } => gen_arith(b, ArithOp::Add, *dst, *lhs, *rhs),
        Inst::Sub { dst, lhs, rhs } => gen_arith(b, ArithOp::Sub, *dst, *lhs, *rhs),
        Inst::Mul { dst, lhs, rhs } => gen_arith(b, ArithOp::Mul, *dst, *lhs, *rhs),
        Inst::Div { dst, lhs, rhs } => gen_arith(b, ArithOp::Div, *dst, *lhs, *rhs),
        Inst::Greater { dst, lhs, rhs } => gen_arith(b, ArithOp::Greater, *dst, *lhs, *rhs),
        Inst::Less { dst, lhs, rhs } => gen_arith(b, ArithOp::Less, *dst, *lhs, *rhs),
        Inst::Equal { dst, lhs, rhs } => gen_arith(b, ArithOp::Equal, *dst, *lhs, *rhs),
        Inst::Call { callee, .. } => Err(CodegenError::UnsupportedOperation(callee.clone())),
        Inst::Load { dst, name } => match b.find_slot(name) {
            Some(slot) => {
                proof {
                    lemma_slot_index(b.state().cfg.slots, name@);
                }
                b.add_op(Op::Load { dst: *dst, slot });
                b.define(*dst);
                Ok(false)
            },
            None => Err(CodegenError::UndefinedVariable(name.duplicate())),
        },
        Inst::Store { name, src } => {
            if !b.defines(*src) {
                return Err(CodegenError::UndefinedValue(*src));
            }
            if b.cfg.slots.len() == usize::MAX {
                return Err(CodegenError::TooLarge);
            }
            let slot = b.slot_for(name);
            b.add_op(Op::Store { slot, src: *src });
            Ok(false)
        },
        Inst::Return { src } => {
            if !b.defines(*src) {
                return Err(CodegenError::UndefinedValue(*src));
            }
            b.set_term(Terminator::Return { src: *src });
            Ok(true)
        },
        Inst::Conditional { cond, then_insts, else_insts, dst } => {
            if !b.defines(*cond) {
                return Err(CodegenError::UndefinedValue(*cond));
            }
            if b.cfg.slots.len() == usize::MAX || b.cfg.blocks.len() > usize::MAX - 3 {
                return Err(CodegenError::TooLarge);
            }
            let temp_slot = Slot::Temp(*dst);
            let temp = b.slot_for(&temp_slot);
            let t = b.cfg.blocks.len();
            b.set_term(Terminator::Branch { cond: *cond, then_block: t, else_block: t + 1 });
            b.cfg.blocks.push(empty_block_exec());
            b.cfg.blocks.push(empty_block_exec());
            b.cfg.blocks.push(empty_block_exec());
            b.cur = t;
            let ghost st1 = with_slot(old(b).state(), SlotKey::Temp(dst.0 as nat)).0;
            let ghost st2 = set_term(st1, Terminator::Branch {
                cond: *cond,
                then_block: t,
                else_block: (t + 1) as usize,
            });
            proof {
                assert(b.state().cfg.blocks =~= st2.cfg.blocks.push(empty_block()).push(
                    empty_block(),
                ).push(empty_block()));
                assert(b.state().vals =~= st2.vals);
                assert(decreases_to!(*i => *then_insts));
            }
            let ret_then = match gen_seq_exec(b, then_insts) {
                Ok(r) => r,
                Err(e) => {
                    return Err(e);
                },
            };
            if !ret_then {
                b.set_term(Terminator::Jump { target: t + 2 });
            }
            b.cur = t + 1;
            let ret_else = match gen_seq_exec(b, else_insts) {
                Ok(r) => r,
                Err(e) => {
                    return Err(e);
                },
            };
            if !ret_else {
                b.set_term(Terminator::Jump { target: t + 2 });
            }
            b.cur = t + 2;
            b.add_op(Op::Load { dst: *dst, slot: temp });
            b.define(*dst);
            Ok(false)
        },
    }
}


/// Generates code for an arithmetic or comparison instruction.
fn gen_arith(b: &mut Builder, op: ArithOp, dst: ValueId, lhs: ValueId, rhs: ValueId) -> (r: Result<bool, CodegenError>)
    requires
        old(b).wf(),
    ensures
        match gen_inst(
            InstV::Arith { op, dst: dst.0 as nat, lhs: lhs.0 as nat, rhs: rhs.0 as nat },
            old(b).state(),
        ) {
            Ok((st, ret)) => r == Ok::<bool, CodegenError>(ret) && final(b).state() == st && final(b).wf()
                && final(b).cfg.blocks@.len() >= old(b).cfg.blocks@.len(),
            Err(e) => r matches Err(x) && x@ == e,
        },
{
    if !b.defines(lhs) {
        return Err(CodegenError::UndefinedValue(lhs));
    }
    if !b.defines(rhs) {
        return Err(CodegenError::UndefinedValue(rhs));
    }
    b.add_op(Op::Arith { op, dst, lhs, rhs });
    b.define(dst);
    Ok(false)
}

/// Generates code for a sequence of instructions into the block being
/// written, stopping at the first return; `true` where one was met.
fn gen_seq_exec(b: &mut Builder, insts: &Vec<Inst>) -> (r: Result<bool, CodegenError>)
    requires
        old(b).wf(),
    ensures
        match gen_seq(insts_view(insts@), old(b).state()) {
            Ok((st, ret)) => r == Ok::<bool, CodegenError>(ret) && final(b).state() == st && final(b).wf()
                && final(b).cfg.blocks@.len() >= old(b).cfg.blocks@.len(),
            Err(e) => r matches Err(x) && x@ == e,
        },
    decreases *insts,
{
    let ghost sv = insts_view(insts@);
    let ghost st0 = b.state();
    let ghost len0 = b.cfg.blocks@.len();
    proof {
        lemma_insts_view(insts@);
        assert(sv.subrange(0, sv.len() as int) =~= sv);
    }
    let mut i: usize = 0;
    while i < insts.len()
        invariant
            i <= insts@.len(),
            sv == insts_view(insts@),
            sv.len() == insts@.len(),
            forall|j: int| 0 <= j < insts@.len() ==> #[trigger] sv[j] == inst_view(insts@[j]),
            st0 == old(b).state(),
            len0 == old(b).cfg.blocks@.len(),
            b.wf(),
            b.cfg.blocks@.len() >= len0,
            gen_seq(sv, st0) == gen_seq(sv.subrange(i as int, sv.len() as int), b.state()),
        decreases insts@.len() - i,
    {
        let ghost rest = sv.subrange(i as int, sv.len() as int);
        proof {
            assert(rest[0] == inst_view(insts@[i as int]));
            assert(rest.subrange(1, rest.len() as int) =~= sv.subrange(i + 1, sv.len() as int));
            assert(decreases_to!(*insts => insts@[i as int]));
        }
        let ret = match gen_inst_exec(b, &insts[i]) {
            Ok(r) => r,
            Err(e) => {
                return Err(e);
            },
        };
        if ret {
            proof {
                assert(sv.subrange(i + 1, sv.len() as int) =~= insts_view(insts@).subrange(
                    i + 1,
                    insts@.len() as int,
                ));
            }
            check_seq_exec(b, insts, i + 1)?;
            return Ok(true);
        }
        i = i + 1;
    }
    proof {
        assert(sv.subrange(i as int, sv.len() as int) =~= Seq::<InstV>::empty());
    }
    Ok(false)
}

/// Checks one unreachable instruction.
fn check_inst_exec(b: &mut Builder, i: &Inst) -> (r: Result<(), CodegenError>)
    requires
        old(b).wf(),
    ensures
        match check_inst(inst_view(*i), old(b).state()) {
            Ok(st) => r is Ok && final(b).state() == st && final(b).wf() && final(b).cfg.blocks@.len()
                == old(b).cfg.blocks@.len(),
            Err(e) => r matches Err(x) && x@ == e,
        },
    decreases *i,
{
    match i {
        Inst::Const { dst, .. } => {
            b.define(*dst);
            Ok(())
        },
        Inst::Boolean { dst, .. } => {
            b.define(*dst);
            Ok(())
        },
        Inst::Add { dst, lhs, rhs } => check_operands(b, *dst, *lhs, *rhs),
        Inst::Sub { dst, lhs, rhs } => check_operands(b, *dst, *lhs, *rhs),
        Inst::Mul { dst, lhs, rhs } => check_operands(b, *dst, *lhs, *rhs),
        Inst::Div { dst, lhs, rhs } => check_operands(b, *dst, *lhs, *rhs),
        Inst::Greater { dst, lhs, rhs } => check_operands(b, *dst, *lhs, *rhs),
        Inst::Less { dst, lhs, rhs } => check_operands(b, *dst, *lhs, *rhs),
        Inst::Equal { dst, lhs, rhs } => check_operands(b, *dst, *lhs, *rhs),
        Inst::Call { callee, .. } => Err(CodegenError::UnsupportedOperation(callee.clone())),
        Inst::Load { dst, name } => match b.find_slot(name) {
            Some(_) => {
                b.define(*dst);
                Ok(())
            },
            None => Err(CodegenError::UndefinedVariable(name.duplicate())),
        },
        Inst::Store { name, src } => {
            if !b.defines(*src) {
                return Err(CodegenError::UndefinedValue(*src));
            }
            if b.cfg.slots.len() == usize::MAX {
                return Err(CodegenError::TooLarge);
            }
            b.slot_for(name);
            Ok(())
        },
        Inst::Return { src } => {
            if !b.defines(*src) {
                return Err(CodegenError::UndefinedValue(*src));
            }
            Ok(())
        },
        Inst::Conditional { cond, then_insts, else_insts, dst } => {
            if !b.defines(*cond) {
                return Err(CodegenError::UndefinedValue(*cond));
            }
            if b.cfg.slots.len() == usize::MAX {
                return Err(CodegenError::TooLarge);
            }
            let temp_slot = Slot::Temp(*dst);
            b.slot_for(&temp_slot);
            proof {
                lemma_insts_view(then_insts@);
                lemma_insts_view(else_insts@);
                assert(insts_view(then_insts@).subrange(0, then_insts@.len() as int) =~= insts_view(
                    then_insts@,
                ));
                assert(insts_view(else_insts@).subrange(0, else_insts@.len() as int) =~= insts_view(
                    else_insts@,
                ));
                assert(decreases_to!(*i => *then_insts));
            }
            check_seq_exec(b, then_insts, 0)?;
            check_seq_exec(b, else_insts, 0)?;
            b.define(*dst);
            Ok(())
        },
    }
}

fn check_operands(b: &mut Builder, dst: ValueId, lhs: ValueId, rhs: ValueId) -> (r: Result<(), CodegenError>)
    requires
        old(b).wf(),
    ensures
        ({
            let st = old(b).state();
            if !st.vals.contains(lhs.0 as nat) {
                r matches Err(x) && x@ == Failure::UndefinedValue(lhs.0 as nat)
            } else if !st.vals.contains(rhs.0 as nat) {
                r matches Err(x) && x@ == Failure::UndefinedValue(rhs.0 as nat)
            } else {
                r is Ok && final(b).state() == define(st, dst.0 as nat) && final(b).wf()
                    && final(b).cfg.blocks@.len() == old(b).cfg.blocks@.len()
            }
        }),
{
    if !b.defines(lhs) {
        return Err(CodegenError::UndefinedValue(lhs));
    }
    if !b.defines(rhs) {
        return Err(CodegenError::UndefinedValue(rhs));
    }
    b.define(dst);
    Ok(())
}

/// Checks the unreachable instructions `insts[from..]`.
fn check_seq_exec(b: &mut Builder, insts: &Vec<Inst>, from: usize) -> (r: Result<(), CodegenError>)
    requires
        old(b).wf(),
        from <= insts@.len(),
    ensures
        match check_seq(insts_view(insts@).subrange(from as int, insts@.len() as int), old(b).state()) {
            Ok(st) => r is Ok && final(b).state() == st && final(b).wf() && final(b).cfg.blocks@.len()
                == old(b).cfg.blocks@.len(),
            Err(e) => r matches Err(x) && x@ == e,
        },
    decreases *insts,
{
    let ghost sv = insts_view(insts@);
    let ghost st0 = b.state();
    let ghost len0 = b.cfg.blocks@.len();
    proof {
        lemma_insts_view(insts@);
    }
    let mut i: usize = from;
    while i < insts.len()
        invariant
            from <= i <= insts@.len(),
            sv == insts_view(insts@),
            sv.len() == insts@.len(),
            forall|j: int| 0 <= j < insts@.len() ==> #[trigger] sv[j] == inst_view(insts@[j]),
            st0 == old(b).state(),
            len0 == old(b).cfg.blocks@.len(),
            b.wf(),
            b.cfg.blocks@.len() == len0,
            check_seq(sv.subrange(from as int, sv.len() as int), st0) == check_seq(
                sv.subrange(i as int, sv.len() as int),
                b.state(),
            ),
        decreases insts@.len() - i,
    {
        let ghost rest = sv.subrange(i as int, sv.len() as int);
        proof {
            assert(rest[0] == inst_view(insts@[i as int]));
            assert(rest.subrange(1, rest.len() as int) =~= sv.subrange(i + 1, sv.len() as int));
            assert(decreases_to!(*insts => insts@[i as int]));
        }
        check_inst_exec(b, &insts[i])?;
        i = i + 1;
    }
    proof {
        assert(sv.subrange(i as int, sv.len() as int) =~= Seq::<InstV>::empty());
    }
    Ok(())
}

/// Lays a function's body out as a graph of basic blocks: straight-line
/// code goes into the block being written, each conditional branches to a
/// block of its own for each side and continues in a merge block, and a
/// block left open at the end returns 0. Code after a return is checked by
/// the same rules but not emitted: any error anywhere in the body fails.
pub fn codegen_function(f: &Function) -> (r: Result<Cfg, CodegenError>)
    ensures
        match gen_body(insts_view(f.body@)) {
            Ok(c) => r matches Ok(cfg) && cfg@ == c,
            Err(e) => r matches Err(x) && x@ == e,
        },
{
    let mut blocks: Vec<Block> = Vec::new();
    blocks.push(empty_block_exec());
    let mut b = Builder {
        cfg: Cfg { slots: Vec::new(), blocks },
        defined: Vec::new(),
        cur: 0,
    };
    proof {
        assert(b.state().cfg.blocks =~= initial_state().cfg.blocks);
        assert(b.state().cfg.slots =~= initial_state().cfg.slots);
        assert(b.state().vals =~= initial_state().vals);
    }
    let ret = match gen_seq_exec(&mut b, &f.body) {
        Ok(r) => r,
        Err(e) => {
            return Err(e);
        },
    };
    if !ret {
        b.set_term(Terminator::ReturnZero);
    }
    Ok(b.cfg)
}

/// The position of the first function named "main".
pub open spec fn entry_index(fs: Seq<Function>) -> Option<nat>
    decreases fs.len(),
{
    if fs.len() == 0 {
        None
    } else {
        match entry_index(fs.drop_last()) {
            Some(i) => Some(i),
            None => if fs.last().name@ == main_name() {
                Some((fs.len() - 1) as nat)
            } else {
                None
            },
        }
    }
}

pub proof fn lemma_entry_index(fs: Seq<Function>)
    ensures
        entry_index(fs) matches Some(i) ==> i < fs.len() && fs[i as int].name@ == main_name(),
        entry_index(fs) is None ==> forall|j: int| 0 <= j < fs.len() ==> #[trigger] fs[j].name@ != main_name(),
    decreases fs.len(),
{
    if fs.len() > 0 {
        lemma_entry_index(fs.drop_last());
        assert forall|j: int| 0 <= j < fs.len() - 1 implies #[trigger] fs[j] == fs.drop_last()[j] by {}
    }
}

fn names_main(name: &String) -> (r: bool)
    ensures
        r == (name@ == main_name()),
{
    proof {
        reveal_strlit("main");
        assert("main"@ =~= main_name());
    }
    *name == String::from_str("main")
}

/// Generates the block graph of a module's entry point, the first function
/// named "main".
pub fn codegen_module(m: &Module) -> (r: Result<Cfg, CodegenError>)
    ensures
        match entry_index(m.functions@) {
            None => r matches Err(x) && x@ == Failure::NoEntryPoint,
            Some(j) => match gen_body(insts_view(m.functions@[j as int].body@)) {
                Ok(c) => r matches Ok(cfg) && cfg@ == c,
                Err(e) => r matches Err(x) && x@ == e,
            },
        },
{
    let mut i: usize = 0;
    proof {
        assert(m.functions@.subrange(0, 0) =~= Seq::<Function>::empty());
    }
    while i < m.functions.len()
        invariant
            i <= m.functions@.len(),
            entry_index(m.functions@.subrange(0, i as int)) is None,
        decreases m.functions@.len() - i,
    {
        let ghost s = m.functions@.subrange(0, i + 1);
        proof {
            assert(s.drop_last() =~= m.functions@.subrange(0, i as int));
        }
        if names_main(&m.functions[i].name) {
            proof {
                lemma_entry_prefix(m.functions@, i + 1);
            }
            return codegen_function(&m.functions[i]);
        }
        i = i + 1;
    }
    proof {
        assert(m.functions@.subrange(0, i as int) =~= m.functions@);
    }
    Err(CodegenError::NoEntryPoint)
}

proof fn lemma_entry_prefix(fs: Seq<Function>, i: int)
    requires
        0 <= i <= fs.len(),
        entry_index(fs.subrange(0, i)) is Some,
    ensures
        entry_index(fs) == entry_index(fs.subrange(0, i)),
    decreases fs.len(),
{
    if i < fs.len() {
        assert(fs.drop_last().subrange(0, i) =~= fs.subrange(0, i));
        lemma_entry_prefix(fs.drop_last(), i);
    } else {
        assert(fs.subrange(0, i) =~= fs);
    }
}

} // verus!
