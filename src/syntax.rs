//! The syntax tree of templates and functions, as the later compiler passes
//! see it.

use vstd::prelude::*;
use crate::ast::{AssignOp, ExpressionInfixOpcode, ExpressionPrefixOpcode, VariableType};
use crate::knowledge::{MemoryKnowledge, TypeKnowledge, TypeReduction};

verus! {

/// Where a node comes from, and what has been inferred about it.
#[derive(Clone, Debug)]
pub struct Meta {
    pub elem_id: usize,
    pub start: usize,
    pub end: usize,
    pub file_id: Option<usize>,
    pub type_knowledge: TypeKnowledge,
    pub memory_knowledge: MemoryKnowledge,
}

#[derive(Debug)]
pub enum Access {
    ComponentAccess(String),
    ArrayAccess(Expression),
}

#[derive(Debug)]
pub enum Expression {
    InfixOp { meta: Meta, lhe: Box<Expression>, infix_op: ExpressionInfixOpcode, rhe: Box<Expression> },
    PrefixOp { meta: Meta, prefix_op: ExpressionPrefixOpcode, rhe: Box<Expression> },
    TernaryOp { meta: Meta, cond: Box<Expression>, if_true: Box<Expression>, if_false: Box<Expression> },
    Variable { meta: Meta, name: String, access: Vec<Access> },
    /// A field element, as decimal text.
    Number { meta: Meta, value: String },
    Call { meta: Meta, id: String, args: Vec<Expression> },
    ArrayInLine { meta: Meta, values: Vec<Expression> },
}

#[derive(Debug)]
pub enum Statement {
    IfThenElse { meta: Meta, cond: Expression, if_case: Box<Statement>, else_case: Option<Box<Statement>> },
    While { meta: Meta, cond: Expression, stmt: Box<Statement> },
    Return { meta: Meta, value: Expression },
    InitializationBlock { meta: Meta, xtype: VariableType, initializations: Vec<Statement> },
    Declaration { meta: Meta, xtype: VariableType, name: String, dimensions: Vec<Expression>, is_constant: bool },
    Substitution { meta: Meta, var: String, access: Vec<Access>, op: AssignOp, rhe: Expression },
    ConstraintEquality { meta: Meta, lhe: Expression, rhe: Expression },
    LogCall { meta: Meta, arg: Expression },
    Block { meta: Meta, stmts: Vec<Statement> },
    Assert { meta: Meta, arg: Expression },
}

/// A call, a conditional expression or an inline array: what desugaring
/// moves out of operand position.
pub open spec fn is_sugar(e: Expression) -> bool {
    e is Call || e is TernaryOp || e is ArrayInLine
}

/// No sugar node stands as an operand, argument, index, inline value or branch
/// anywhere below `e` (the condition of a conditional expression is left as written).
pub open spec fn sugar_free(e: Expression) -> bool
    decreases e,
{
    match e {
        Expression::InfixOp { lhe, rhe, .. } => !is_sugar(*lhe) && sugar_free(*lhe) && !is_sugar(*rhe)
            && sugar_free(*rhe),
        Expression::PrefixOp { rhe, .. } => !is_sugar(*rhe) && sugar_free(*rhe),
        Expression::TernaryOp { if_true, if_false, .. } => !is_sugar(*if_true) && sugar_free(*if_true)
            && !is_sugar(*if_false) && sugar_free(*if_false),
        Expression::Variable { access, .. } => forall|i: int|
            0 <= i < access@.len() ==> match #[trigger] access@[i] {
                Access::ComponentAccess(_) => true,
                Access::ArrayAccess(x) => !is_sugar(x) && sugar_free(x),
            },
        Expression::Number { .. } => true,
        Expression::Call { args, .. } => forall|i: int|
            0 <= i < args@.len() ==> !is_sugar(#[trigger] args@[i]) && sugar_free(args@[i]),
        Expression::ArrayInLine { values, .. } => forall|i: int|
            0 <= i < values@.len() ==> !is_sugar(#[trigger] values@[i]) && sugar_free(values@[i]),
    }
}

/// Number of nodes that desugaring may visit in `e`.
pub open spec fn expr_size(e: Expression) -> nat
    decreases e,
{
    match e {
        Expression::InfixOp { lhe, rhe, .. } => 1 + expr_size(*lhe) + expr_size(*rhe),
        Expression::PrefixOp { rhe, .. } => 1 + expr_size(*rhe),
        Expression::TernaryOp { if_true, if_false, .. } => 1 + expr_size(*if_true) + expr_size(*if_false),
        Expression::Variable { access, .. } => 1 + accesses_size(access@),
        Expression::Number { .. } => 1,
        Expression::Call { args, .. } => 1 + exprs_size(args@),
        Expression::ArrayInLine { values, .. } => 1 + exprs_size(values@),
    }
}

pub open spec fn exprs_size(s: Seq<Expression>) -> nat
    decreases s,
{
    if s.len() == 0 {
        0
    } else {
        exprs_size(s.drop_last()) + expr_size(s[s.len() - 1])
    }
}

pub open spec fn accesses_size(s: Seq<Access>) -> nat
    decreases s,
{
    if s.len() == 0 {
        0
    } else {
        accesses_size(s.drop_last()) + match s[s.len() - 1] {
            Access::ComponentAccess(_) => 0,
            Access::ArrayAccess(x) => expr_size(x),
        }
    }
}

/// The metadata of an expression's root.
pub open spec fn expr_meta(e: Expression) -> Meta {
    match e {
        Expression::InfixOp { meta, .. } => meta,
        Expression::PrefixOp { meta, .. } => meta,
        Expression::TernaryOp { meta, .. } => meta,
        Expression::Variable { meta, .. } => meta,
        Expression::Number { meta, .. } => meta,
        Expression::Call { meta, .. } => meta,
        Expression::ArrayInLine { meta, .. } => meta,
    }
}

/// Number of nodes that desugaring may visit in `s`, counting one more for a
/// returned value that may need its own temporary.
pub open spec fn stmt_size(s: Statement) -> nat
    decreases s,
{
    match s {
        Statement::IfThenElse { cond, if_case, else_case, .. } => 1 + expr_size(cond) + stmt_size(*if_case)
            + match else_case {
            Some(e) => stmt_size(*e),
            None => 0,
        },
        Statement::While { cond, stmt, .. } => 1 + expr_size(cond) + stmt_size(*stmt),
        Statement::Return { value, .. } => 1 + expr_size(value),
        Statement::InitializationBlock { initializations, .. } => 1 + stmts_size(initializations@),
        Statement::Declaration { .. } => 1,
        Statement::Substitution { rhe, .. } => 1 + expr_size(rhe),
        Statement::ConstraintEquality { lhe, rhe, .. } => 1 + expr_size(lhe) + expr_size(rhe),
        Statement::LogCall { arg, .. } => 1 + expr_size(arg),
        Statement::Block { stmts, .. } => 1 + stmts_size(stmts@),
        Statement::Assert { arg, .. } => 1 + expr_size(arg),
    }
}

pub open spec fn stmts_size(s: Seq<Statement>) -> nat
    decreases s,
{
    if s.len() == 0 {
        0
    } else {
        stmts_size(s.drop_last()) + stmt_size(s[s.len() - 1])
    }
}

/// Initialization blocks stand only directly inside blocks and hold only
/// declarations and substitutions; a returned conditional expression, call or
/// inline array carries its concrete dimensions.
pub open spec fn well_placed(s: Statement) -> bool
    decreases s,
{
    match s {
        Statement::IfThenElse { if_case, else_case, .. } => well_placed(*if_case) && match else_case {
            Some(e) => well_placed(*e),
            None => true,
        },
        Statement::While { stmt, .. } => well_placed(*stmt),
        Statement::Return { value, .. } => is_sugar(value) ==> expr_meta(value).memory_knowledge.concrete_dimensions is Some,
        Statement::InitializationBlock { .. } => false,
        Statement::Block { stmts, .. } => forall|i: int|
            0 <= i < stmts@.len() ==> match #[trigger] stmts@[i] {
                Statement::InitializationBlock { initializations, .. } => forall|j: int|
                    0 <= j < initializations@.len() ==> (#[trigger] initializations@[j] is Declaration
                        || initializations@[j] is Substitution),
                _ => well_placed(stmts@[i]),
            },
        _ => true,
    }
}

/// Desugared form of a statement found directly in a block: no initialization
/// block, no assignment of a conditional expression or inline array, and no
/// returned sugar.
pub open spec fn block_member(s: Statement) -> bool {
    match s {
        Statement::InitializationBlock { .. } => false,
        Statement::Substitution { rhe, .. } => !(rhe is TernaryOp) && !(rhe is ArrayInLine),
        Statement::Return { value, .. } => !is_sugar(value),
        _ => true,
    }
}

/// No sugar stands as an operand anywhere in `s`, and loop conditions are free
/// of sugar themselves; the condition of a conditional statement is not
/// constrained, since one made from a conditional expression keeps that
/// expression's condition as written.
pub open spec fn desugared(s: Statement) -> bool
    decreases s,
{
    match s {
        Statement::IfThenElse { if_case, else_case, .. } => desugared(*if_case) && match else_case {
            Some(e) => desugared(*e),
            None => true,
        },
        Statement::While { cond, stmt, .. } => !is_sugar(cond) && sugar_free(cond) && desugared(*stmt),
        Statement::Return { value, .. } => sugar_free(value),
        Statement::InitializationBlock { .. } => false,
        Statement::Declaration { .. } => true,
        Statement::Substitution { rhe, .. } => sugar_free(rhe),
        Statement::ConstraintEquality { lhe, rhe, .. } => sugar_free(lhe) && sugar_free(rhe),
        Statement::LogCall { arg, .. } => sugar_free(arg),
        Statement::Block { stmts, .. } => forall|i: int|
            0 <= i < stmts@.len() ==> desugared(#[trigger] stmts@[i]) && block_member(stmts@[i]),
        Statement::Assert { arg, .. } => sugar_free(arg),
    }
}

/// A metadata value as plain values.
pub open spec fn meta_view(m: Meta) -> (usize, usize, usize, Option<usize>, TypeKnowledge, Option<Seq<usize>>, Option<usize>, Option<usize>) {
    (
        m.elem_id,
        m.start,
        m.end,
        m.file_id,
        m.type_knowledge,
        match m.memory_knowledge.concrete_dimensions {
            Some(v) => Some(v@),
            None => None,
        },
        m.memory_knowledge.full_length,
        m.memory_knowledge.abstract_memory_address,
    )
}

/// `b` is `a` with every metadata value copied: equal up to the views of the metadata.
pub open spec fn same_expr(a: Expression, b: Expression) -> bool
    decreases a,
{
    match a {
        Expression::InfixOp { meta, lhe, infix_op, rhe } => match b {
            Expression::InfixOp { meta: m2, lhe: l2, infix_op: o2, rhe: r2 } => meta_view(meta) == meta_view(m2)
                && infix_op == o2 && same_expr(*lhe, *l2) && same_expr(*rhe, *r2),
            _ => false,
        },
        Expression::PrefixOp { meta, prefix_op, rhe } => match b {
            Expression::PrefixOp { meta: m2, prefix_op: o2, rhe: r2 } => meta_view(meta) == meta_view(m2)
                && prefix_op == o2 && same_expr(*rhe, *r2),
            _ => false,
        },
        Expression::TernaryOp { meta, cond, if_true, if_false } => match b {
            Expression::TernaryOp { meta: m2, cond: c2, if_true: t2, if_false: f2 } => meta_view(meta)
                == meta_view(m2) && same_expr(*cond, *c2) && same_expr(*if_true, *t2) && same_expr(*if_false, *f2),
            _ => false,
        },
        Expression::Variable { meta, name, access } => match b {
            Expression::Variable { meta: m2, name: n2, access: a2 } => meta_view(meta) == meta_view(m2)
                && name@ == n2@ && access@.len() == a2@.len() && forall|i: int|
                0 <= i < access@.len() ==> match #[trigger] access@[i] {
                    Access::ComponentAccess(x) => match a2@[i] {
                        Access::ComponentAccess(y) => x@ == y@,
                        _ => false,
                    },
                    Access::ArrayAccess(x) => match a2@[i] {
                        Access::ArrayAccess(y) => same_expr(x, y),
                        _ => false,
                    },
                },
            _ => false,
        },
        Expression::Number { meta, value } => match b {
            Expression::Number { meta: m2, value: v2 } => meta_view(meta) == meta_view(m2) && value@ == v2@,
            _ => false,
        },
        Expression::Call { meta, id, args } => match b {
            Expression::Call { meta: m2, id: i2, args: a2 } => meta_view(meta) == meta_view(m2) && id@ == i2@
                && args@.len() == a2@.len() && forall|i: int| 0 <= i < args@.len() ==> same_expr(#[trigger] args@[i], a2@[i]),
            _ => false,
        },
        Expression::ArrayInLine { meta, values } => match b {
            Expression::ArrayInLine { meta: m2, values: v2 } => meta_view(meta) == meta_view(m2)
                && values@.len() == v2@.len() && forall|i: int| 0 <= i < values@.len() ==> same_expr(#[trigger] values@[i], v2@[i]),
            _ => false,
        },
    }
}

/// `b` is a copy of the access list `a`.
pub open spec fn same_accesses(a: Seq<Access>, b: Seq<Access>) -> bool {
    a.len() == b.len() && forall|i: int| 0 <= i < a.len() ==> match #[trigger] a[i] {
        Access::ComponentAccess(x) => match b[i] {
            Access::ComponentAccess(y) => x@ == y@,
            _ => false,
        },
        Access::ArrayAccess(x) => match b[i] {
            Access::ArrayAccess(y) => same_expr(x, y),
            _ => false,
        },
    }
}

/// A copy of a list of dimensions.
pub fn copy_dims(v: &Vec<usize>) -> (r: Vec<usize>)
    ensures
        r@ == v@,
{
    let mut r: Vec<usize> = Vec::new();
    let mut i: usize = 0;
    while i < v.len()
        invariant
            0 <= i <= v@.len(),
            r@ == v@.subrange(0, i as int),
        decreases v@.len() - i,
    {
        r.push(v[i]);
        i = i + 1;
        proof {
            assert(r@ =~= v@.subrange(0, i as int));
        }
    }
    proof {
        assert(v@.subrange(0, v@.len() as int) =~= v@);
    }
    r
}

/// A copy of a metadata value.
pub fn copy_meta(m: &Meta) -> (r: Meta)
    ensures
        meta_view(r) == meta_view(*m),
{
    let dims = match &m.memory_knowledge.concrete_dimensions {
        Some(v) => Some(copy_dims(v)),
        None => None,
    };
    Meta {
        elem_id: m.elem_id,
        start: m.start,
        end: m.end,
        file_id: m.file_id,
        type_knowledge: m.type_knowledge,
        memory_knowledge: MemoryKnowledge {
            concrete_dimensions: dims,
            full_length: m.memory_knowledge.full_length,
            abstract_memory_address: m.memory_knowledge.abstract_memory_address,
        },
    }
}

/// A copy of an expression.
pub fn copy_expression(e: &Expression) -> (r: Expression)
    ensures
        same_expr(*e, r),
    decreases e,
{
    match e {
        Expression::InfixOp { meta, lhe, infix_op, rhe } => Expression::InfixOp {
            meta: copy_meta(meta),
            lhe: Box::new(copy_expression(lhe)),
            infix_op: *infix_op,
            rhe: Box::new(copy_expression(rhe)),
        },
        Expression::PrefixOp { meta, prefix_op, rhe } => Expression::PrefixOp {
            meta: copy_meta(meta),
            prefix_op: *prefix_op,
            rhe: Box::new(copy_expression(rhe)),
        },
        Expression::TernaryOp { meta, cond, if_true, if_false } => Expression::TernaryOp {
            meta: copy_meta(meta),
            cond: Box::new(copy_expression(cond)),
            if_true: Box::new(copy_expression(if_true)),
            if_false: Box::new(copy_expression(if_false)),
        },
        Expression::Variable { meta, name, access } => {
            let a2 = copy_accesses(access);
            Expression::Variable { meta: copy_meta(meta), name: name.clone(), access: a2 }
        },
        Expression::Number { meta, value } => Expression::Number { meta: copy_meta(meta), value: value.clone() },
        Expression::Call { meta, id, args } => {
            let a2 = copy_expressions(args);
            Expression::Call { meta: copy_meta(meta), id: id.clone(), args: a2 }
        },
        Expression::ArrayInLine { meta, values } => {
            let v2 = copy_expressions(values);
            Expression::ArrayInLine { meta: copy_meta(meta), values: v2 }
        },
    }
}

/// A copy of a list of expressions.
pub fn copy_expressions(v: &Vec<Expression>) -> (r: Vec<Expression>)
    ensures
        r@.len() == v@.len(),
        forall|i: int| 0 <= i < v@.len() ==> same_expr(#[trigger] v@[i], r@[i]),
    decreases v,
{
    let mut r: Vec<Expression> = Vec::new();
    let mut i: usize = 0;
    while i < v.len()
        invariant
            0 <= i <= v@.len(),
            r@.len() == i,
            forall|j: int| 0 <= j < i ==> same_expr(#[trigger] v@[j], r@[j]),
        decreases v@.len() - i,
    {
        proof {
            assert(decreases_to!(v => v@[i as int]));
        }
        r.push(copy_expression(&v[i]));
        i = i + 1;
    }
    r
}

/// A copy of an access list.
pub fn copy_accesses(v: &Vec<Access>) -> (r: Vec<Access>)
    ensures
        same_accesses(v@, r@),
    decreases v,
{
    let mut r: Vec<Access> = Vec::new();
    let mut i: usize = 0;
    while i < v.len()
        invariant
            0 <= i <= v@.len(),
            r@.len() == i,
            forall|j: int| 0 <= j < i ==> match #[trigger] v@[j] {
                Access::ComponentAccess(x) => match r@[j] {
                    Access::ComponentAccess(y) => x@ == y@,
                    _ => false,
                },
                Access::ArrayAccess(x) => match r@[j] {
                    Access::ArrayAccess(y) => same_expr(x, y),
                    _ => false,
                },
            },
        decreases v@.len() - i,
    {
        match &v[i] {
            Access::ComponentAccess(name) => r.push(Access::ComponentAccess(name.clone())),
            Access::ArrayAccess(x) => {
                proof {
                    assert(decreases_to!(v => v@[i as int]));
                }
                r.push(Access::ArrayAccess(copy_expression(x)));
            },
        }
        i = i + 1;
    }
    r
}

} // verus!
