//! What an expression resolves to: its arithmetic, step by step.

use crate::grammar::is_number;
use vstd::prelude::*;

verus! {

/// The four arithmetic operations.
#[derive(Clone, Copy, Debug, PartialEq, Eq)]
pub enum Operation {
    Add,
    Sub,
    Mul,
    Div,
}

/// An expression with the order of its operations settled and its
/// variables bound.
#[derive(Debug, PartialEq, Eq)]
pub enum Plan {
    /// The number written in bytes `start..end` of the source.
    Number { start: usize, end: usize },
    /// The variable whose name is entry `slot` of the table of names.
    Variable { slot: usize },
    /// `op` applied to the values of `lhs` and `rhs`, in that order.
    Apply { op: Operation, lhs: Box<Plan>, rhs: Box<Plan> },
}

/// Why an expression could not be resolved.
#[derive(Clone, Copy, Debug, PartialEq, Eq)]
pub enum EvalError {
    /// The variable named in bytes `start..end` of the source is not in the
    /// table.
    UndefinedVariable { start: usize, end: usize },
    /// The operators of the expression in bytes `start..end` of the source
    /// were grouped against their precedence.
    Grouping { start: usize, end: usize },
}

/// A plan that can be computed over the source bytes `s` with a table of
/// `slots` values: every number of it is written in `s` as a number, and
/// every variable of it has its slot in the table.
pub open spec fn computable(plan: Plan, s: Seq<u8>, slots: nat) -> bool
    decreases plan,
{
    match plan {
        Plan::Number { start, end } => start < end <= s.len() && is_number(
            s.subrange(start as int, end as int),
        ),
        Plan::Variable { slot } => slot < slots,
        Plan::Apply { lhs, rhs, .. } => computable(*lhs, s, slots) && computable(*rhs, s, slots),
    }
}

impl Plan {
    /// A copy of the plan.
    pub fn duplicate(&self) -> (copy: Plan)
        ensures
            copy == *self,
        decreases self,
    {
        match self {
            Plan::Number { start, end } => Plan::Number { start: *start, end: *end },
            Plan::Variable { slot } => Plan::Variable { slot: *slot },
            Plan::Apply { op, lhs, rhs } => Plan::Apply {
                op: *op,
                lhs: Box::new(lhs.duplicate()),
                rhs: Box::new(rhs.duplicate()),
            },
        }
    }
}

} // verus!
