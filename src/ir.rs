use vstd::prelude::*;

verus! {

/// Identifier of a single-assignment value inside one function.
#[derive(Debug, Clone, Copy, PartialEq, Eq, Structural, Hash)]
pub struct ValueId(pub u32);

impl ValueId {
    pub fn new(id: u32) -> (r: ValueId)
        ensures
            r.0 == id,
    {
        ValueId(id)
    }

    pub fn id(&self) -> (r: u32)
        ensures
            r == self.0,
    {
        self.0
    }

    pub fn from_usize(id: usize) -> (r: ValueId)
        requires
            id <= u32::MAX,
        ensures
            r.0 == id,
    {
        ValueId(id as u32)
    }

    pub fn get_usize(&self) -> (r: usize)
        ensures
            r == self.0,
    {
        self.0 as usize
    }
}

/// Named mutable storage. A user variable is keyed by its source name; the
/// merge temporary of a conditional is keyed by the conditional's own
/// destination, so the two can never collide.
#[derive(Debug)]
pub enum Slot {
    Var(String),
    Temp(ValueId),
}

/// What a slot stands for, as a mathematical value.
pub enum SlotKey {
    Var(Seq<char>),
    Temp(nat),
}

impl View for Slot {
    type V = SlotKey;

    open spec fn view(&self) -> SlotKey {
        match self {
            Slot::Var(s) => SlotKey::Var(s@),
            Slot::Temp(v) => SlotKey::Temp(v.0 as nat),
        }
    }
}

impl Slot {
    /// An independent copy of this slot.
    pub fn duplicate(&self) -> (r: Slot)
        ensures
            r@ == self@,
    {
        match self {
            Slot::Var(s) => Slot::Var(s.clone()),
            Slot::Temp(v) => Slot::Temp(*v),
        }
    }

    /// Whether two slots name the same storage.
    pub fn same(&self, other: &Slot) -> (r: bool)
        ensures
            r == (self@ == other@),
    {
        match self {
            Slot::Var(a) => match other {
                Slot::Var(b) => *a == *b,
                Slot::Temp(_) => false,
            },
            Slot::Temp(a) => match other {
                Slot::Var(_) => false,
                Slot::Temp(b) => a.0 == b.0,
            },
        }
    }
}

/// One instruction of the intermediate representation. `Conditional` is the
/// only one that carries nested instruction sequences; its `dst` is the value
/// of the whole if/else expression, taken from the slot `Slot::Temp(dst)`.
#[derive(Debug)]
#[allow(inconsistent_fields)]
pub enum Inst {
    Const { dst: ValueId, value: i64 },
    Boolean { dst: ValueId, value: bool },
    Add { dst: ValueId, lhs: ValueId, rhs: ValueId },
    Sub { dst: ValueId, lhs: ValueId, rhs: ValueId },
    Mul { dst: ValueId, lhs: ValueId, rhs: ValueId },
    Div { dst: ValueId, lhs: ValueId, rhs: ValueId },
    Greater { dst: ValueId, lhs: ValueId, rhs: ValueId },
    Less { dst: ValueId, lhs: ValueId, rhs: ValueId },
    Equal { dst: ValueId, lhs: ValueId, rhs: ValueId },
    Call { dst: ValueId, callee: String, args: Vec<ValueId> },
    Load { dst: ValueId, name: Slot },
    Store { name: Slot, src: ValueId },
    Return { src: ValueId },
    Conditional { cond: ValueId, then_insts: Vec<Inst>, else_insts: Vec<Inst>, dst: ValueId },
}

/// The counter that issues a function's values. Its count is private: it
/// starts at 0 and only moves forward, one step per issued value.
#[derive(Debug)]
pub struct ValueCounter {
    next: u32,
}

impl ValueCounter {
    /// The next value the counter will issue.
    pub closed spec fn value(&self) -> nat {
        self.next as nat
    }
}

/// A function: its name, its body, and the counter that issues its values.
#[derive(Debug)]
pub struct Function {
    pub name: String,
    pub body: Vec<Inst>,
    pub next_value: ValueCounter,
}

/// An ordered list of functions; the entry point is the one named "main".
#[derive(Debug)]
pub struct Module {
    pub functions: Vec<Function>,
}

impl Function {
    /// The next value that `fresh_value` will issue.
    pub open spec fn counter(&self) -> nat {
        self.next_value.value()
    }

    pub fn new(name: String) -> (r: Function)
        ensures
            r.name == name,
            r.body@ == Seq::<Inst>::empty(),
            r.counter() == 0,
    {
        Function { name, body: Vec::new(), next_value: ValueCounter { next: 0 } }
    }

    /// Issues a value that no earlier call on this function has issued: each
    /// result is one more than the one before.
    pub fn fresh_value(&mut self) -> (r: ValueId)
        requires
            old(self).counter() < u32::MAX,
        ensures
            r.0 == old(self).counter(),
            final(self).counter() == old(self).counter() + 1,
            final(self).name == old(self).name,
            final(self).body == old(self).body,
    {
        let id = ValueId(self.next_value.next);
        self.next_value = ValueCounter { next: self.next_value.next + 1 };
        id
    }

    /// The value counter as it stands.
    pub fn value_count(&self) -> (r: u32)
        ensures
            r == self.counter(),
    {
        self.next_value.next
    }
}

impl Module {
    pub fn new() -> (r: Module)
        ensures
            r.functions@ == Seq::<Function>::empty(),
    {
        Module { functions: Vec::new() }
    }

    pub fn add_function(&mut self, func: Function)
        ensures
            final(self).functions@ == old(self).functions@.push(func),
    {
        self.functions.push(func);
    }
}

} // verus!
