//! Operator and declaration kinds of the circuit language.

use vstd::prelude::*;

verus! {

#[derive(Clone, Copy, Debug, PartialEq, Eq, Structural)]
pub enum ExpressionInfixOpcode {
    Mul,
    Div,
    Add,
    Sub,
    Pow,
    IntDiv,
    Mod,
    ShiftL,
    ShiftR,
    LesserEq,
    GreaterEq,
    Lesser,
    Greater,
    Eq,
    NotEq,
    BoolOr,
    BoolAnd,
    BitOr,
    BitAnd,
    BitXor,
}

#[derive(Clone, Copy, Debug, PartialEq, Eq, Structural)]
pub enum ExpressionPrefixOpcode {
    Sub,
    BoolNot,
    Complement,
}

#[derive(Clone, Copy, Debug, PartialEq, Eq, Structural, PartialOrd, Ord)]
pub enum SignalElementType {
    Empty,
    Binary,
    FieldElement,
}

#[derive(Clone, Copy, Debug, PartialEq, Eq, Structural, PartialOrd, Ord)]
pub enum SignalType {
    Output,
    Input,
    Intermediate,
}

#[derive(Clone, Copy, Debug, PartialEq, Eq, Structural, PartialOrd, Ord)]
pub enum VariableType {
    Var,
    Signal(SignalType, SignalElementType),
    Component,
}

/// The three assignment operators: to a variable, a value-only signal
/// assignment, and a signal assignment that also records a constraint.
#[derive(Clone, Copy, Debug, PartialEq, Eq, Structural)]
pub enum AssignOp {
    AssignVar,
    AssignSignal,
    AssignConstraintSignal,
}

impl AssignOp {
    /// Whether the operator assigns a signal (with or without a constraint).
    pub fn is_signal_operator(self) -> (r: bool)
        ensures
            r == (self is AssignConstraintSignal || self is AssignSignal),
    {
        match self {
            AssignOp::AssignConstraintSignal | AssignOp::AssignSignal => true,
            AssignOp::AssignVar => false,
        }
    }
}

} // verus!
