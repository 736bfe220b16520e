//! Removal of component declarations and component assignments from
//! template code, once components have been instantiated.

use vstd::prelude::*;
use crate::ast::VariableType;
use crate::knowledge::TypeReduction;
use crate::syntax::{Meta, Statement};

verus! {

/// A statement that initializes a component: a component initialization
/// block, or an assignment whose target reduces to a component.
pub open spec fn is_component_ci(s: Statement) -> bool {
    match s {
        Statement::InitializationBlock { xtype, .. } => xtype == VariableType::Component,
        Statement::Substitution { meta, .. } => meta.type_knowledge.reduces_to == Some(TypeReduction::Component),
        _ => false,
    }
}

/// Every assignment reachable through loops, conditionals and blocks knows
/// what its target reduces to.
pub open spec fn substitutions_typed(s: Statement) -> bool
    decreases s,
{
    match s {
        Statement::While { stmt, .. } => substitutions_typed(*stmt),
        Statement::IfThenElse { if_case, else_case, .. } => substitutions_typed(*if_case) && match else_case {
            Some(e) => substitutions_typed(*e),
            None => true,
        },
        Statement::Block { stmts, .. } => forall|i: int|
            0 <= i < stmts@.len() ==> substitutions_typed(#[trigger] stmts@[i]),
        Statement::Substitution { meta, .. } => meta.type_knowledge.reduces_to is Some,
        _ => true,
    }
}

/// No component initialization remains: none stands in a block or as a
/// loop or branch body, and signal initialization blocks keep only their
/// assignments.
pub open spec fn without_component_ci(s: Statement) -> bool
    decreases s,
{
    match s {
        Statement::While { stmt, .. } => without_component_ci(*stmt),
        Statement::IfThenElse { if_case, else_case, .. } => without_component_ci(*if_case) && match else_case {
            Some(e) => without_component_ci(*e),
            None => true,
        },
        Statement::Block { stmts, .. } => forall|i: int|
            0 <= i < stmts@.len() ==> !is_component_ci(#[trigger] stmts@[i]) && without_component_ci(stmts@[i]),
        Statement::InitializationBlock { xtype, initializations, .. } => xtype is Signal ==> forall|j: int|
            0 <= j < initializations@.len() ==> #[trigger] initializations@[j] is Substitution,
        Statement::Substitution { .. } => !is_component_ci(s),
        _ => true,
    }
}

/// A statement dropped from its block: a component initialization block.
pub open spec fn dropped(s: Statement) -> bool {
    match s {
        Statement::InitializationBlock { xtype, .. } => xtype == VariableType::Component,
        _ => false,
    }
}

/// `news` is `olds` with every statement that is not an assignment removed.
pub open spec fn assignments_of(olds: Seq<Statement>, news: Seq<Statement>) -> bool
    decreases olds.len(),
{
    if olds.len() == 0 {
        news.len() == 0
    } else if olds.last() is Substitution {
        news.len() > 0 && news.last() == olds.last() && assignments_of(olds.drop_last(), news.drop_last())
    } else {
        assignments_of(olds.drop_last(), news)
    }
}

/// `news` holds, in order, the cleaned form of each statement of `olds` that
/// is not dropped.
pub open spec fn kept_rel(olds: Seq<Statement>, news: Seq<Statement>) -> bool
    decreases olds,
{
    if olds.len() == 0 {
        news.len() == 0
    } else if dropped(olds[olds.len() - 1]) {
        kept_rel(olds.drop_last(), news)
    } else {
        news.len() > 0 && kept_rel(olds.drop_last(), news.drop_last()) && rm_rel(olds[olds.len() - 1], news.last())
    }
}

/// `n` is `o` with component initializations removed: a component
/// assignment becomes an empty block with the same metadata, blocks drop
/// component initialization blocks and clean the rest in order, signal
/// initialization blocks keep only their assignments, in order, and loops
/// and conditionals are cleaned inside; anything else is kept.
pub open spec fn rm_rel(o: Statement, n: Statement) -> bool
    decreases o,
{
    match o {
        Statement::While { meta, cond, stmt } => match n {
            Statement::While { meta: m2, cond: c2, stmt: s2 } => m2 == meta && c2 == cond && rm_rel(*stmt, *s2),
            _ => false,
        },
        Statement::IfThenElse { meta, cond, if_case, else_case } => match n {
            Statement::IfThenElse { meta: m2, cond: c2, if_case: i2, else_case: e2 } => m2 == meta && c2 == cond
                && rm_rel(*if_case, *i2) && match else_case {
                Some(e) => match e2 {
                    Some(f) => rm_rel(*e, *f),
                    None => false,
                },
                None => e2 is None,
            },
            _ => false,
        },
        Statement::Block { meta, stmts } => match n {
            Statement::Block { meta: m2, stmts: s2 } => m2 == meta && kept_rel(stmts@, s2@),
            _ => false,
        },
        Statement::InitializationBlock { meta, xtype, initializations } => match xtype {
            VariableType::Signal(..) => match n {
                Statement::InitializationBlock { meta: m2, xtype: x2, initializations: i2 } => m2 == meta && x2 == xtype
                    && assignments_of(initializations@, i2@),
                _ => false,
            },
            _ => n == o,
        },
        Statement::Substitution { meta, .. } => if meta.type_knowledge.reduces_to == Some(TypeReduction::Component) {
            match n {
                Statement::Block { meta: m2, stmts } => m2 == meta && stmts@.len() == 0,
                _ => false,
            }
        } else {
            n == o
        },
        _ => n == o,
    }
}

fn is_component_type(meta: &Meta) -> (r: bool)
    requires
        meta.type_knowledge.reduces_to is Some,
    ensures
        r == (meta.type_knowledge.reduces_to == Some(TypeReduction::Component)),
{
    meta.type_knowledge.is_component()
}

/// Whether `stmt` initializes a component.
fn should_be_removed(stmt: &Statement) -> (r: bool)
    requires
        stmt is Substitution ==> substitutions_typed(*stmt),
    ensures
        r == is_component_ci(*stmt),
{
    match stmt {
        Statement::InitializationBlock { xtype, .. } => *xtype == VariableType::Component,
        Statement::Substitution { meta, .. } => is_component_type(meta),
        _ => false,
    }
}

/// Removes component initializations from `stmt`: from blocks they are
/// dropped, a component assignment elsewhere becomes an empty block, and
/// signal initialization blocks keep only their assignments.
pub fn rm_statement(stmt: Statement) -> (r: Statement)
    requires
        substitutions_typed(stmt),
    ensures
        without_component_ci(r),
        substitutions_typed(r),
        !(stmt is Substitution) ==> (r is Block) == (stmt is Block) && (r is InitializationBlock) == (
        stmt is InitializationBlock),
        stmt is InitializationBlock ==> is_component_ci(r) == is_component_ci(stmt),
        is_component_ci(r) == dropped(stmt),
        rm_rel(stmt, r),
    decreases stmt,
{
    match stmt {
        Statement::While { meta, cond, stmt } => {
            let body = rm_statement(*stmt);
            Statement::While { meta, cond, stmt: Box::new(body) }
        },
        Statement::IfThenElse { meta, cond, if_case, else_case } => {
            let i = rm_statement(*if_case);
            let e = match else_case {
                Some(x) => Some(Box::new(rm_statement(*x))),
                None => None,
            };
            Statement::IfThenElse { meta, cond, if_case: Box::new(i), else_case: e }
        },
        Statement::Block { meta, stmts } => {
            let ghost all = stmts@;
            let mut rest = stmts;
            let mut kept: Vec<Statement> = Vec::new();
            let mut k: usize = 0;
            proof {
                assert(all.len() == rest.len());
                assert(all.subrange(0, 0) =~= Seq::<Statement>::empty());
            }
            while rest.len() > 0
                invariant
                    0 <= k <= all.len(),
                    all.len() <= usize::MAX,
                    rest@ == all.subrange(k as int, all.len() as int),
                    forall|i: int| 0 <= i < all.len() ==> substitutions_typed(#[trigger] all[i]),
                    forall|i: int| 0 <= i < all.len() ==> decreases_to!(stmt => #[trigger] all[i]),
                    forall|i: int| 0 <= i < kept@.len() ==> !is_component_ci(#[trigger] kept@[i])
                        && without_component_ci(kept@[i]) && substitutions_typed(kept@[i]),
                    kept_rel(all.subrange(0, k as int), kept@),
                decreases rest@.len(),
            {
                let s = rest.remove(0);
                proof {
                    assert(s == all[k as int]);
                    assert(rest@ =~= all.subrange(k as int + 1, all.len() as int));
                }
                let ghost sg = s;
                let ghost before = kept@;
                let t = rm_statement(s);
                if !should_be_removed(&t) {
                    kept.push(t);
                }
                proof {
                    let p = all.subrange(0, k as int + 1);
                    assert(p.drop_last() =~= all.subrange(0, k as int));
                    assert(p[p.len() - 1] == sg);
                    if !dropped(sg) {
                        assert(kept@.drop_last() =~= before);
                    }
                }
                k = k + 1;
            }
            proof {
                assert(all.subrange(0, k as int) =~= all);
            }
            Statement::Block { meta, stmts: kept }
        },
        Statement::InitializationBlock { meta, xtype, initializations } => {
            match xtype {
                VariableType::Signal(..) => {
                    let ghost all = initializations@;
                    let mut work = initializations;
                    let mut kept: Vec<Statement> = Vec::new();
                    let mut k: usize = 0;
                    proof {
                        assert(all.len() == work.len());
                        assert(all.subrange(0, 0) =~= Seq::<Statement>::empty());
                    }
                    while work.len() > 0
                        invariant
                            0 <= k <= all.len(),
                            all.len() <= usize::MAX,
                            work@ == all.subrange(k as int, all.len() as int),
                            forall|j: int| 0 <= j < kept@.len() ==> #[trigger] kept@[j] is Substitution,
                            assignments_of(all.subrange(0, k as int), kept@),
                        decreases work@.len(),
                    {
                        let i = work.remove(0);
                        proof {
                            assert(i == all[k as int]);
                            assert(work@ =~= all.subrange(k as int + 1, all.len() as int));
                        }
                        let ghost ig = i;
                        let ghost before = kept@;
                        if let Statement::Substitution { .. } = &i {
                            kept.push(i);
                        }
                        proof {
                            let p = all.subrange(0, k as int + 1);
                            assert(p.drop_last() =~= all.subrange(0, k as int));
                            assert(p.last() == ig);
                            if ig is Substitution {
                                assert(kept@.drop_last() =~= before);
                            }
                        }
                        k = k + 1;
                    }
                    proof {
                        assert(all.subrange(0, k as int) =~= all);
                    }
                    Statement::InitializationBlock { meta, xtype, initializations: kept }
                },
                _ => Statement::InitializationBlock { meta, xtype, initializations },
            }
        },
        Statement::Substitution { meta, var, access, op, rhe } => {
            if is_component_type(&meta) {
                Statement::Block { meta, stmts: Vec::new() }
            } else {
                Statement::Substitution { meta, var, access, op, rhe }
            }
        },
        other => other,
    }
}

/// Removes component initializations from the code of every template.
pub fn rm_component_ci(templates: &mut Vec<Statement>)
    requires
        forall|i: int| 0 <= i < old(templates)@.len() ==> substitutions_typed(#[trigger] old(templates)@[i]),
    ensures
        final(templates)@.len() == old(templates)@.len(),
        forall|i: int| 0 <= i < final(templates)@.len() ==> without_component_ci(#[trigger] final(templates)@[i]),
        forall|i: int| 0 <= i < final(templates)@.len() ==> rm_rel(old(templates)@[i], #[trigger] final(templates)@[i]),
{
    let ghost orig = templates@;
    let mut i: usize = 0;
    while i < templates.len()
        invariant
            0 <= i <= templates@.len(),
            templates@.len() == orig.len(),
            forall|j: int| i <= j < orig.len() ==> #[trigger] templates@[j] == orig[j],
            forall|j: int| 0 <= j < orig.len() ==> substitutions_typed(#[trigger] orig[j]),
            forall|j: int| 0 <= j < i ==> without_component_ci(#[trigger] templates@[j]),
            forall|j: int| 0 <= j < i ==> rm_rel(orig[j], #[trigger] templates@[j]),
        decreases templates@.len() - i,
    {
        let code = templates.remove(i);
        proof {
            assert(code == orig[i as int]);
        }
        let cleaned = rm_statement(code);
        templates.insert(i, cleaned);
        proof {
            assert forall|j: int| i < j < orig.len() implies #[trigger] templates@[j] == orig[j] by {
            }
        }
        i = i + 1;
    }
}

} // verus!
