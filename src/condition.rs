//! The condition byte code of a rule and the stack machine that evaluates
//! it against what a scan found.
//!
//! Integer arithmetic wraps on overflow. A division by zero, a division
//! that overflows, a type mismatch or a missing operand is a fault: the
//! condition is then false.

use vstd::prelude::*;

verus! {

/// A value on the evaluation stack, or of a global variable.
#[derive(Debug, Clone, Copy, PartialEq, Eq, Structural)]
pub enum Value {
    Bool(bool),
    Int(i64),
}

/// An instruction of the condition stack machine.
#[derive(Debug, Clone, Copy, PartialEq, Eq, Structural)]
pub enum CondOp {
    /// Pushes a constant.
    Const(Value),
    /// Pushes the size of the scanned data.
    Filesize,
    /// Pushes the value of a global variable.
    Global(usize),
    /// Pushes whether a pattern matched at least once.
    PatternMatch(usize),
    /// Pushes how many times a pattern matched.
    PatternCount(usize),
    Not,
    And,
    Or,
    Add,
    Sub,
    Mul,
    Div,
    Eq,
    Ne,
    Lt,
    Le,
    Gt,
    Ge,
}

/// What a condition can read about the scanned data.
pub struct EvalContext {
    /// Whether each pattern matched.
    pub matched: Vec<bool>,
    /// How many matches each pattern has.
    pub counts: Vec<u64>,
    /// The size of the scanned data.
    pub filesize: i64,
    /// The value of each global variable.
    pub globals: Vec<Value>,
}

/// The mathematical view of an evaluation context.
pub struct ContextView {
    pub matched: Seq<bool>,
    pub counts: Seq<u64>,
    pub filesize: i64,
    pub globals: Seq<Value>,
}

impl View for EvalContext {
    type V = ContextView;

    open spec fn view(&self) -> ContextView {
        ContextView { matched: self.matched@, counts: self.counts@, filesize: self.filesize, globals: self.globals@ }
    }
}

/// The result of a binary operation, `None` for a fault.
pub open spec fn binary(op: CondOp, a: Value, b: Value) -> Option<Value> {
    match (a, b) {
        (Value::Bool(x), Value::Bool(y)) => match op {
            CondOp::And => Some(Value::Bool(x && y)),
            CondOp::Or => Some(Value::Bool(x || y)),
            CondOp::Eq => Some(Value::Bool(x == y)),
            CondOp::Ne => Some(Value::Bool(x != y)),
            _ => None,
        },
        (Value::Int(x), Value::Int(y)) => match op {
            CondOp::Add => Some(Value::Int(x.wrapping_add(y))),
            CondOp::Sub => Some(Value::Int(x.wrapping_sub(y))),
            CondOp::Mul => Some(Value::Int(x.wrapping_mul(y))),
            CondOp::Div => match x.checked_div(y) {
                Some(q) => Some(Value::Int(q)),
                None => None,
            },
            CondOp::Eq => Some(Value::Bool(x == y)),
            CondOp::Ne => Some(Value::Bool(x != y)),
            CondOp::Lt => Some(Value::Bool(x < y)),
            CondOp::Le => Some(Value::Bool(x <= y)),
            CondOp::Gt => Some(Value::Bool(x > y)),
            CondOp::Ge => Some(Value::Bool(x >= y)),
            _ => None,
        },
        _ => None,
    }
}

/// The stack after one instruction, `None` for a fault.
pub open spec fn step(op: CondOp, stack: Seq<Value>, ctx: ContextView) -> Option<Seq<Value>> {
    match op {
        CondOp::Const(v) => Some(stack.push(v)),
        CondOp::Filesize => Some(stack.push(Value::Int(ctx.filesize))),
        CondOp::Global(i) => if i < ctx.globals.len() { Some(stack.push(ctx.globals[i as int])) } else { None },
        CondOp::PatternMatch(i) => if i < ctx.matched.len() {
            Some(stack.push(Value::Bool(ctx.matched[i as int])))
        } else {
            None
        },
        CondOp::PatternCount(i) => if i < ctx.counts.len() && ctx.counts[i as int] <= i64::MAX {
            Some(stack.push(Value::Int(ctx.counts[i as int] as i64)))
        } else {
            None
        },
        CondOp::Not => if stack.len() >= 1 {
            match stack.last() {
                Value::Bool(b) => Some(stack.drop_last().push(Value::Bool(!b))),
                _ => None,
            }
        } else {
            None
        },
        _ => if stack.len() >= 2 {
            match binary(op, stack[stack.len() - 2], stack.last()) {
                Some(v) => Some(stack.drop_last().drop_last().push(v)),
                None => None,
            }
        } else {
            None
        },
    }
}

/// The stack after running `ops` from `stack`, `None` for a fault.
pub open spec fn run(ops: Seq<CondOp>, stack: Seq<Value>, ctx: ContextView) -> Option<Seq<Value>>
    decreases ops.len(),
{
    if ops.len() == 0 {
        Some(stack)
    } else {
        match step(ops[0], stack, ctx) {
            Some(s) => run(ops.drop_first(), s, ctx),
            None => None,
        }
    }
}

/// A value taken as a truth value: a true boolean or a non-zero integer.
pub open spec fn truthy(v: Value) -> bool {
    match v {
        Value::Bool(b) => b,
        Value::Int(i) => i != 0,
    }
}

/// The condition `ops` holds: it runs without fault and leaves a truthy
/// value on top of the stack.
pub open spec fn holds(ops: Seq<CondOp>, ctx: ContextView) -> bool {
    match run(ops, Seq::empty(), ctx) {
        Some(s) => s.len() > 0 && truthy(s.last()),
        None => false,
    }
}

fn eval_binary(op: CondOp, a: Value, b: Value) -> (r: Option<Value>)
    ensures
        r == binary(op, a, b),
{
    match (a, b) {
        (Value::Bool(x), Value::Bool(y)) => match op {
            CondOp::And => Some(Value::Bool(x && y)),
            CondOp::Or => Some(Value::Bool(x || y)),
            CondOp::Eq => Some(Value::Bool(x == y)),
            CondOp::Ne => Some(Value::Bool(x != y)),
            _ => None,
        },
        (Value::Int(x), Value::Int(y)) => match op {
            CondOp::Add => Some(Value::Int(x.wrapping_add(y))),
            CondOp::Sub => Some(Value::Int(x.wrapping_sub(y))),
            CondOp::Mul => Some(Value::Int(x.wrapping_mul(y))),
            CondOp::Div => match x.checked_div(y) {
                Some(q) => Some(Value::Int(q)),
                None => None,
            },
            CondOp::Eq => Some(Value::Bool(x == y)),
            CondOp::Ne => Some(Value::Bool(x != y)),
            CondOp::Lt => Some(Value::Bool(x < y)),
            CondOp::Le => Some(Value::Bool(x <= y)),
            CondOp::Gt => Some(Value::Bool(x > y)),
            CondOp::Ge => Some(Value::Bool(x >= y)),
            _ => None,
        },
        _ => None,
    }
}

/// Evaluates a condition.
pub fn eval_condition(ops: &Vec<CondOp>, ctx: &EvalContext) -> (r: bool)
    ensures
        r == holds(ops@, ctx@),
{
    let mut stack: Vec<Value> = Vec::new();
    let mut i: usize = 0;
    proof {
        assert(ops@.subrange(0, ops@.len() as int) =~= ops@);
    }
    while i < ops.len()
        invariant
            i <= ops@.len(),
            run(ops@, Seq::empty(), ctx@) == run(ops@.subrange(i as int, ops@.len() as int), stack@, ctx@),
        decreases ops@.len() - i,
    {
        let ghost rest = ops@.subrange(i as int, ops@.len() as int);
        proof {
            assert(rest.drop_first() =~= ops@.subrange(i + 1, ops@.len() as int));
            assert(rest[0] == ops@[i as int]);
        }
        let op = ops[i];
        match op {
            CondOp::Const(v) => stack.push(v),
            CondOp::Filesize => stack.push(Value::Int(ctx.filesize)),
            CondOp::Global(g) => {
                if g < ctx.globals.len() {
                    stack.push(ctx.globals[g]);
                } else {
                    return false;
                }
            },
            CondOp::PatternMatch(p) => {
                if p < ctx.matched.len() {
                    stack.push(Value::Bool(ctx.matched[p]));
                } else {
                    return false;
                }
            },
            CondOp::PatternCount(p) => {
                if p < ctx.counts.len() && ctx.counts[p] <= 0x7fff_ffff_ffff_ffff {
                    stack.push(Value::Int(ctx.counts[p] as i64));
                } else {
                    return false;
                }
            },
            CondOp::Not => {
                match stack.pop() {
                    Some(Value::Bool(b)) => stack.push(Value::Bool(!b)),
                    _ => return false,
                }
            },
            _ => {
                if stack.len() < 2 {
                    return false;
                }
                let b = stack.pop().unwrap();
                let a = stack.pop().unwrap();
                match eval_binary(op, a, b) {
                    Some(v) => stack.push(v),
                    None => return false,
                }
            },
        }
        i = i + 1;
    }
    if stack.len() == 0 {
        return false;
    }
    match stack[stack.len() - 1] {
        Value::Bool(b) => b,
        Value::Int(x) => x != 0,
    }
}

} // verus!
