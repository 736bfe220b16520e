//! Desugaring: calls, conditional expressions and inline arrays that stand as
//! operands are moved into fresh temporaries declared and assigned just
//! before the statement that used them.

use vstd::prelude::*;
use crate::ast::{AssignOp, VariableType};
use crate::fresh_names::{auto_name, State};
use crate::knowledge::TypeReduction;
use crate::export::usize_text;
use crate::knowledge::MemoryKnowledge;
use crate::syntax::{
    accesses_size, block_member, copy_accesses, copy_meta, desugared, expr_meta, expr_size, exprs_size,
    is_sugar, meta_view, same_accesses, same_expr, stmt_size, stmts_size, sugar_free, well_placed, Access, Expression,
    Meta, Statement,
};

verus! {

/// `d` declares the temporary `k` and `a` assigns an extracted expression to it.
pub open spec fn temporary_pair(d: Statement, a: Statement, k: nat) -> bool {
    &&& match d {
        Statement::Declaration { name, xtype, dimensions, .. } => name@ == auto_name(k) && xtype
            == VariableType::Var && dimensions@.len() == 0,
        _ => false,
    }
    &&& match a {
        Statement::Substitution { var, access, op, rhe, .. } => var@ == auto_name(k) && access@.len()
            == 0 && op == AssignOp::AssignVar && is_sugar(rhe) && sugar_free(rhe),
        _ => false,
    }
}

/// `s` is `n` temporary pairs, numbered from `base`, in order.
pub open spec fn hoisted(s: Seq<Statement>, base: nat, n: nat) -> bool
    decreases n,
{
    &&& s.len() == 2 * n
    &&& n > 0 ==> hoisted(s.subrange(0, 2 * n - 2), base, (n - 1) as nat) && temporary_pair(
        s[2 * n - 2],
        s[2 * n - 1],
        (base + n - 1) as nat,
    )
}

proof fn lemma_hoisted_push(s: Seq<Statement>, base: nat, n: nat, d: Statement, a: Statement)
    requires
        hoisted(s, base, n),
        temporary_pair(d, a, base + n),
    ensures
        hoisted(s.push(d).push(a), base, n + 1),
{
    let t = s.push(d).push(a);
    assert(t.subrange(0, 2 * n as int) =~= s);
}

/// A copy of `m` that records the node as a variable.
fn variable_meta(m: &Meta) -> (r: Meta) {
    let mut r = m.clone();
    r.type_knowledge.set_reduces_to(TypeReduction::Variable);
    r
}

/// Declares `fresh_variable`, assigns `expr` to it at the end of `buffer`, and
/// returns the variable that now stands for `expr`.
pub fn rmv_sugar(fresh_variable: &String, expr: Expression, buffer: &mut Vec<Statement>) -> (r:
    Expression)
    ensures
        final(buffer)@.len() == old(buffer)@.len() + 2,
        final(buffer)@.subrange(0, old(buffer)@.len() as int) == old(buffer)@,
        match final(buffer)@[old(buffer)@.len() as int] {
            Statement::Declaration { name, xtype, dimensions, is_constant, .. } => name@
                == fresh_variable@ && xtype == VariableType::Var && dimensions@.len() == 0 && is_constant,
            _ => false,
        },
        match final(buffer)@[old(buffer)@.len() as int + 1] {
            Statement::Substitution { var, access, op, rhe, .. } => var@ == fresh_variable@
                && access@.len() == 0 && op == AssignOp::AssignVar && rhe == expr,
            _ => false,
        },
        match r {
            Expression::Variable { name, access, .. } => name@ == fresh_variable@ && access@.len() == 0,
            _ => false,
        },
{
    let declaration_meta = variable_meta(meta_ref(&expr));
    let initialization_meta = variable_meta(meta_ref(&expr));
    let var_meta = variable_meta(meta_ref(&expr));
    let declaration = Statement::Declaration {
        meta: declaration_meta,
        is_constant: true,
        xtype: VariableType::Var,
        name: fresh_variable.clone(),
        dimensions: Vec::new(),
    };
    let initialization = Statement::Substitution {
        meta: initialization_meta,
        var: fresh_variable.clone(),
        access: Vec::new(),
        op: AssignOp::AssignVar,
        rhe: expr,
    };
    let new_arg = Expression::Variable { meta: var_meta, name: fresh_variable.clone(), access: Vec::new() };
    let ghost before = buffer@;
    buffer.push(declaration);
    buffer.push(initialization);
    proof {
        assert(buffer@.subrange(0, before.len() as int) =~= before);
    }
    new_arg
}

fn is_sugar_node(e: &Expression) -> (r: bool)
    ensures
        r == is_sugar(*e),
{
    match e {
        Expression::Call { .. } | Expression::TernaryOp { .. } | Expression::ArrayInLine { .. } => true,
        _ => false,
    }
}

/// `inits` holds the temporaries numbered from `base` up to, not including, `fresh`.
pub open spec fn numbered(inits: Seq<Statement>, base: nat, fresh: usize) -> bool {
    &&& inits.len() % 2 == 0
    &&& base + inits.len() / 2 == fresh
    &&& hoisted(inits, base, (inits.len() / 2) as nat)
}

/// Moves `e` into the next temporary when it is sugar; otherwise keeps it.
fn sugar_filter_one(e: Expression, state: &mut State, inits: &mut Vec<Statement>, Ghost(base): Ghost<nat>) -> (r: Expression)
    requires
        sugar_free(e),
        old(state).fresh_id < usize::MAX,
        numbered(old(inits)@, base, old(state).fresh_id),
    ensures
        !is_sugar(r) && sugar_free(r),
        !is_sugar(e) ==> r == e && final(state).fresh_id == old(state).fresh_id && final(inits)@ == old(inits)@,
        is_sugar(e) ==> final(state).fresh_id == old(state).fresh_id + 1,
        numbered(final(inits)@, base, final(state).fresh_id),
        is_sugar(e) ==> final(inits)@.len() == old(inits)@.len() + 2 && final(inits)@.subrange(0, old(inits)@.len() as int) == old(inits)@
            && pair_at(final(inits)@, old(inits)@.len() as int, old(state).fresh_id as int, e) && is_temp(r, old(state).fresh_id as int),
{
    if is_sugar_node(&e) {
        let ghost before = inits@;
        let id = state.produce_id();
        let r = rmv_sugar(&id, e, inits);
        proof {
            let n = (before.len() / 2) as nat;
            assert(inits@ =~= before.push(inits@[before.len() as int]).push(inits@[before.len() as int + 1]));
            lemma_hoisted_push(before, base, n, inits@[before.len() as int], inits@[before.len() as int + 1]);
        }
        r
    } else {
        e
    }
}

proof fn lemma_hoisted_concat(s: Seq<Statement>, t: Seq<Statement>, base: nat, n: nat, m: nat)
    requires
        hoisted(s, base, n),
        hoisted(t, base + n, m),
    ensures
        hoisted(s + t, base, n + m),
    decreases m,
{
    if m > 0 {
        let tp = t.subrange(0, 2 * m - 2);
        lemma_hoisted_concat(s, tp, base, n, (m - 1) as nat);
        assert((s + t).subrange(0, 2 * (n + m) - 2) =~= s + tp);
        assert((s + t)[2 * (n + m) - 2] == t[2 * m - 2]);
        assert((s + t)[2 * (n + m) - 1] == t[2 * m - 1]);
    } else {
        assert(t =~= Seq::<Statement>::empty());
        assert(s + t =~= s);
    }
}

proof fn lemma_numbered_concat(s: Seq<Statement>, t: Seq<Statement>, base: nat, f1: usize, f2: usize)
    requires
        numbered(s, base, f1),
        numbered(t, f1 as nat, f2),
    ensures
        numbered(s + t, base, f2),
{
    lemma_hoisted_concat(s, t, base, (s.len() / 2) as nat, (t.len() / 2) as nat);
    assert((s + t).len() / 2 == s.len() / 2 + t.len() / 2);
}

proof fn lemma_size_positive(e: Expression)
    ensures
        expr_size(e) >= 1,
{
}

proof fn lemma_exprs_size_elem(s: Seq<Expression>, k: int)
    requires
        0 <= k < s.len(),
    ensures
        expr_size(s[k]) <= exprs_size(s),
    decreases s.len(),
{
    if k < s.len() - 1 {
        lemma_exprs_size_elem(s.drop_last(), k);
    }
}

proof fn lemma_exprs_size_prefix(s: Seq<Expression>, k: int)
    requires
        0 <= k < s.len(),
    ensures
        exprs_size(s.subrange(0, k + 1)) == exprs_size(s.subrange(0, k)) + expr_size(s[k]),
{
    assert(s.subrange(0, k + 1).drop_last() =~= s.subrange(0, k));
}

proof fn lemma_accesses_size_prefix(s: Seq<Access>, k: int)
    requires
        0 <= k < s.len(),
    ensures
        accesses_size(s.subrange(0, k + 1)) == accesses_size(s.subrange(0, k)) + match s[k] {
            Access::ComponentAccess(_) => 0,
            Access::ArrayAccess(x) => expr_size(x),
        },
{
    assert(s.subrange(0, k + 1).drop_last() =~= s.subrange(0, k));
}

proof fn lemma_accesses_size_elem(s: Seq<Access>, k: int)
    requires
        0 <= k < s.len(),
    ensures
        match s[k] {
            Access::ComponentAccess(_) => true,
            Access::ArrayAccess(x) => expr_size(x) <= accesses_size(s),
        },
    decreases s.len(),
{
    if k < s.len() - 1 {
        lemma_accesses_size_elem(s.drop_last(), k);
    }
}

/// 1 for an operand that desugaring moves into a temporary, else 0.
pub open spec fn sug(e: Expression) -> nat {
    if is_sugar(e) {
        1
    } else {
        0
    }
}

/// Number of temporaries desugaring creates below the root of `e`.
pub open spec fn hcount(e: Expression) -> nat
    decreases e,
{
    match e {
        Expression::InfixOp { lhe, rhe, .. } => hcount(*lhe) + hcount(*rhe) + sug(*lhe) + sug(*rhe),
        Expression::PrefixOp { rhe, .. } => hcount(*rhe) + sug(*rhe),
        Expression::TernaryOp { if_true, if_false, .. } => hcount(*if_true) + hcount(*if_false) + sug(*if_true)
            + sug(*if_false),
        Expression::Variable { access, .. } => acc_count(access@),
        Expression::Number { .. } => 0,
        Expression::Call { args, .. } => list_h(args@) + list_s(args@),
        Expression::ArrayInLine { values, .. } => list_h(values@) + list_s(values@),
    }
}

/// Temporaries created inside the elements of a list.
pub open spec fn list_h(s: Seq<Expression>) -> nat
    decreases s,
{
    if s.len() == 0 {
        0
    } else {
        list_h(s.drop_last()) + hcount(s[s.len() - 1])
    }
}

/// Elements of a list that are themselves moved into temporaries.
pub open spec fn list_s(s: Seq<Expression>) -> nat
    decreases s.len(),
{
    if s.len() == 0 {
        0
    } else {
        list_s(s.drop_last()) + sug(s[s.len() - 1])
    }
}

/// Temporaries created for an access list, index by index.
pub open spec fn acc_count(s: Seq<Access>) -> nat
    decreases s,
{
    if s.len() == 0 {
        0
    } else {
        acc_count(s.drop_last()) + match s[s.len() - 1] {
            Access::ComponentAccess(_) => 0,
            Access::ArrayAccess(x) => hcount(x) + sug(x),
        }
    }
}

/// Integer forms of the counts.
pub open spec fn hc(e: Expression) -> int {
    hcount(e) as int
}

pub open spec fn sg(e: Expression) -> int {
    sug(e) as int
}

pub open spec fn lh(s: Seq<Expression>) -> int {
    list_h(s) as int
}

pub open spec fn ls(s: Seq<Expression>) -> int {
    list_s(s) as int
}

pub open spec fn ac(s: Seq<Access>) -> int {
    acc_count(s) as int
}

/// `h[pos]` declares temporary `k` and `h[pos + 1]` assigns `rhe` to it.
pub open spec fn pair_at(h: Seq<Statement>, pos: int, k: int, rhe: Expression) -> bool {
    &&& 0 <= pos && pos + 1 < h.len()
    &&& match h[pos] {
        Statement::Declaration { name, xtype, dimensions, is_constant, .. } => name@ == auto_name(k as nat) && xtype
            == VariableType::Var && dimensions@.len() == 0 && is_constant,
        _ => false,
    }
    &&& match h[pos + 1] {
        Statement::Substitution { var, access, op, rhe: r, .. } => var@ == auto_name(k as nat) && access@.len() == 0
            && op == AssignOp::AssignVar && r == rhe,
        _ => false,
    }
}

/// `x` is the temporary `k`.
pub open spec fn is_temp(x: Expression, k: int) -> bool {
    match x {
        Expression::Variable { name, access, .. } => name@ == auto_name(k as nat) && access@.len() == 0,
        _ => false,
    }
}

/// Operand `o` of an expression became `n`: when `o` is sugar, `n` is the
/// temporary `k` and the pair at `pos` assigns to it the desugared `o`, whose
/// own temporaries are `inner`, numbered from `b`; otherwise `n` is the
/// desugared `o`.
pub open spec fn operand_rel(o: Expression, n: Expression, h: Seq<Statement>, inner: Seq<Statement>, b: int, pos: int, k: int) -> bool
    decreases o, 1nat,
{
    if is_sugar(o) {
        is_temp(n, k) && pair_at(h, pos, k, pair_rhe(h, pos)) && hoist_rel(o, pair_rhe(h, pos), inner, b)
    } else {
        hoist_rel(o, n, inner, b)
    }
}

/// The right side of the assignment at `h[pos + 1]`.
pub open spec fn pair_rhe(h: Seq<Statement>, pos: int) -> Expression {
    match h[pos + 1] {
        Statement::Substitution { rhe, .. } => rhe,
        _ => arbitrary(),
    }
}

/// Desugaring turned `o` into `n`, creating the temporaries `h` numbered from
/// `b`: each operand, argument, index, inline value or branch that is sugar
/// became a temporary at its place, declared and assigned that operand
/// (itself desugared) in `h`, in the order desugaring visits them; everything
/// else is kept.
pub open spec fn hoist_rel(o: Expression, n: Expression, h: Seq<Statement>, b: int) -> bool
    decreases o, 0nat,
{
    &&& h.len() == 2 * hc(o) as int
    &&& match o {
        Expression::InfixOp { meta, lhe, infix_op, rhe } => match n {
            Expression::InfixOp { meta: m2, lhe: l2, infix_op: o2, rhe: r2 } => {
                let a = hc(*lhe);
                let c = hc(*rhe);
                &&& m2 == meta && o2 == infix_op
                &&& operand_rel(*lhe, *l2, h, h.subrange(0, 2 * a), b, 2 * (a + c), b + a + c)
                &&& operand_rel(*rhe, *r2, h, h.subrange(2 * a, 2 * (a + c)), b + a, 2 * (a + c + sg(*lhe)), b + a + c + sg(*lhe))
            },
            _ => false,
        },
        Expression::PrefixOp { meta, prefix_op, rhe } => match n {
            Expression::PrefixOp { meta: m2, prefix_op: o2, rhe: r2 } => {
                let a = hc(*rhe);
                &&& m2 == meta && o2 == prefix_op
                &&& operand_rel(*rhe, *r2, h, h.subrange(0, 2 * a), b, 2 * a, b + a)
            },
            _ => false,
        },
        Expression::TernaryOp { meta, cond, if_true, if_false } => match n {
            Expression::TernaryOp { meta: m2, cond: c2, if_true: t2, if_false: f2 } => {
                let a = hc(*if_true);
                let c = hc(*if_false);
                &&& m2 == meta && c2 == cond
                &&& operand_rel(*if_true, *t2, h, h.subrange(0, 2 * a), b, 2 * (a + c), b + a + c)
                &&& operand_rel(*if_false, *f2, h, h.subrange(2 * a, 2 * (a + c)), b + a, 2 * (a + c + sg(*if_true)), b + a + c + sg(*if_true))
            },
            _ => false,
        },
        Expression::Variable { meta, name, access } => match n {
            Expression::Variable { meta: m2, name: n2, access: a2 } => {
                &&& m2 == meta && n2 == name && a2@.len() == access@.len()
                &&& forall|i: int| 0 <= i < access@.len() ==> match #[trigger] access@[i] {
                    Access::ComponentAccess(x) => a2@[i] == Access::ComponentAccess(x),
                    Access::ArrayAccess(x) => match a2@[i] {
                        Access::ArrayAccess(y) => {
                            let off = ac(access@.subrange(0, i));
                            operand_rel(x, y, h, h.subrange(2 * off, 2 * (off + hc(x))), b + off, 2 * (off + hc(x)), b + off + hc(x))
                        },
                        _ => false,
                    },
                }
            },
            _ => false,
        },
        Expression::Number { .. } => n == o,
        Expression::Call { meta, id, args } => match n {
            Expression::Call { meta: m2, id: i2, args: a2 } => m2 == meta && i2 == id && a2@.len() == args@.len()
                && forall|i: int| 0 <= i < args@.len() ==> operand_rel(#[trigger] args@[i], a2@[i], h,
                    h.subrange(2 * lh(args@.subrange(0, i)), 2 * lh(args@.subrange(0, i + 1))),
                    b + lh(args@.subrange(0, i)), 2 * (lh(args@) + ls(args@.subrange(0, i))),
                    b + lh(args@) + ls(args@.subrange(0, i))),
            _ => false,
        },
        Expression::ArrayInLine { meta, values } => match n {
            Expression::ArrayInLine { meta: m2, values: v2 } => m2 == meta && v2@.len() == values@.len()
                && forall|i: int| 0 <= i < values@.len() ==> operand_rel(#[trigger] values@[i], v2@[i], h,
                    h.subrange(2 * lh(values@.subrange(0, i)), 2 * lh(values@.subrange(0, i + 1))),
                    b + lh(values@.subrange(0, i)), 2 * (lh(values@) + ls(values@.subrange(0, i))),
                    b + lh(values@) + ls(values@.subrange(0, i))),
            _ => false,
        },
    }
}

proof fn lemma_sub_prefix(h2: Seq<Statement>, h: Seq<Statement>, a: int, b: int)
    requires
        h2.len() >= h.len(),
        h2.subrange(0, h.len() as int) == h,
        0 <= a <= b <= h.len(),
    ensures
        h2.subrange(a, b) == h.subrange(a, b),
{
    assert forall|i: int| 0 <= i < b - a implies h2.subrange(a, b)[i] == h.subrange(a, b)[i] by {
        assert(h2[a + i] == h2.subrange(0, h.len() as int)[a + i]);
    }
    assert(h2.subrange(a, b) =~= h.subrange(a, b));
}

proof fn lemma_operand_rel_extend(o: Expression, n: Expression, h: Seq<Statement>, h2: Seq<Statement>, inner: Seq<Statement>, b: int, pos: int, k: int)
    requires
        operand_rel(o, n, h, inner, b, pos, k),
        h2.len() >= h.len(),
        h2.subrange(0, h.len() as int) == h,
    ensures
        operand_rel(o, n, h2, inner, b, pos, k),
{
    if is_sugar(o) {
        assert(h2[pos] == h2.subrange(0, h.len() as int)[pos]);
        assert(h2[pos + 1] == h2.subrange(0, h.len() as int)[pos + 1]);
    }
}

proof fn lemma_lh_step(s: Seq<Expression>, k: int)
    requires
        0 <= k < s.len(),
    ensures
        lh(s.subrange(0, k + 1)) == lh(s.subrange(0, k)) + hc(s[k]),
        ls(s.subrange(0, k + 1)) == ls(s.subrange(0, k)) + sg(s[k]),
{
    assert(s.subrange(0, k + 1).drop_last() =~= s.subrange(0, k));
}

proof fn lemma_lh_mono(s: Seq<Expression>, j: int, k: int)
    requires
        0 <= j <= k <= s.len(),
    ensures
        lh(s.subrange(0, j)) <= lh(s.subrange(0, k)),
        ls(s.subrange(0, j)) <= ls(s.subrange(0, k)),
    decreases k - j,
{
    if j < k {
        lemma_lh_mono(s, j, k - 1);
        lemma_lh_step(s, k - 1);
    }
}

proof fn lemma_ac_step(s: Seq<Access>, k: int)
    requires
        0 <= k < s.len(),
    ensures
        ac(s.subrange(0, k + 1)) == ac(s.subrange(0, k)) + match s[k] {
            Access::ComponentAccess(_) => 0,
            Access::ArrayAccess(x) => hc(x) + sg(x),
        },
{
    assert(s.subrange(0, k + 1).drop_last() =~= s.subrange(0, k));
}

/// Desugars every expression of the list, then moves each one that is itself
/// sugar into a temporary, in order; returns the new list and its temporaries.
#[verifier::rlimit(100)]
#[verifier::spinoff_prover]
fn extend_all(v: Vec<Expression>, state: &mut State) -> (r: (Vec<Expression>, Vec<Statement>))
    requires
        old(state).fresh_id + exprs_size(v@) <= usize::MAX,
    ensures
        r.0@.len() == v@.len(),
        forall|i: int| 0 <= i < r.0@.len() ==> !is_sugar(#[trigger] r.0@[i]) && sugar_free(r.0@[i]),
        numbered(r.1@, old(state).fresh_id as nat, final(state).fresh_id),
        final(state).fresh_id == old(state).fresh_id + lh(v@) + ls(v@),
        final(state).fresh_id <= old(state).fresh_id + exprs_size(v@),
        r.1@.len() == 2 * (lh(v@) + ls(v@)),
        forall|i: int| 0 <= i < v@.len() ==> operand_rel(#[trigger] v@[i], r.0@[i], r.1@,
            r.1@.subrange(2 * lh(v@.subrange(0, i)), 2 * lh(v@.subrange(0, i + 1))),
            old(state).fresh_id + lh(v@.subrange(0, i)), 2 * (lh(v@) + ls(v@.subrange(0, i))),
            old(state).fresh_id + lh(v@) + ls(v@.subrange(0, i))),
    decreases exprs_size(v@), 1nat,
{
    let ghost all = v@;
    let ghost f0 = state.fresh_id as int;
    let mut rest = v;
    let mut extended: Vec<Expression> = Vec::new();
    let mut out: Vec<Statement> = Vec::new();
    let mut k: usize = 0;
    proof {
        assert(all.subrange(0, 0) =~= Seq::<Expression>::empty());
        assert(all.len() == v.len());
        assert(hoisted(out@, f0 as nat, 0));
    }
    while rest.len() > 0
        invariant
            0 <= k <= all.len(),
            all.len() <= usize::MAX,
            all == v@,
            rest@ == all.subrange(k as int, all.len() as int),
            extended@.len() == k,
            forall|j: int| 0 <= j < k ==> sugar_free(#[trigger] extended@[j]) && is_sugar(extended@[j]) == is_sugar(all[j])
                && hoist_rel(all[j], extended@[j], out@.subrange(2 * lh(all.subrange(0, j)), 2 * lh(all.subrange(0, j + 1))), f0 + lh(all.subrange(0, j))),
            out@.len() == 2 * lh(all.subrange(0, k as int)),
            numbered(out@, f0 as nat, state.fresh_id),
            state.fresh_id == f0 + lh(all.subrange(0, k as int)),
            state.fresh_id + k <= f0 + exprs_size(all.subrange(0, k as int)),
            f0 + exprs_size(all) <= usize::MAX,
        decreases rest@.len(),
    {
        let x = rest.remove(0);
        proof {
            assert(x == all[k as int]);
            assert(rest@ =~= all.subrange(k as int + 1, all.len() as int));
            lemma_exprs_size_elem(all, k as int);
            lemma_exprs_size_prefix(all, k as int);
            lemma_size_positive(x);
            lemma_exprs_prefix_le(all, k as int + 1);
            lemma_lh_step(all, k as int);
        }
        let ghost fb = state.fresh_id;
        let (y, sy) = extend_expr(x, state);
        let ghost old_out = out@;
        let ghost syg = sy@;
        let mut sy = sy;
        out.append(&mut sy);
        proof {
            assert(out@ == old_out + syg);
            lemma_numbered_concat(old_out, syg, f0 as nat, fb, state.fresh_id);
            assert(out@.subrange(0, old_out.len() as int) =~= old_out);
            assert forall|j: int| 0 <= j < k + 1 implies sugar_free(#[trigger] extended@.push(y)[j]) && is_sugar(extended@.push(y)[j]) == is_sugar(all[j])
                && hoist_rel(all[j], extended@.push(y)[j], out@.subrange(2 * lh(all.subrange(0, j)), 2 * lh(all.subrange(0, j + 1))), f0 + lh(all.subrange(0, j))) by {
                if j < k {
                    lemma_lh_mono(all, j + 1, k as int);
                    lemma_lh_mono(all, j, j + 1);
                    lemma_sub_prefix(out@, old_out, 2 * lh(all.subrange(0, j)), 2 * lh(all.subrange(0, j + 1)));
                    assert(extended@.push(y)[j] == extended@[j]);
                } else {
                    assert(out@.subrange(old_out.len() as int, out@.len() as int) =~= syg);
                }
            }
        }
        extended.push(y);
        k = k + 1;
    }
    proof {
        assert(all.subrange(0, k as int) =~= all);
    }
    let ghost f1 = state.fresh_id as int;
    let ghost out1 = out@;
    let ghost l1 = out1.len() as int;
    let mut work = extended;
    let mut filtered: Vec<Expression> = Vec::new();
    let ghost ext = work@;
    let mut j: usize = 0;
    proof {
        assert(all.subrange(0, 0) =~= Seq::<Expression>::empty());
        assert(out@.subrange(0, l1) =~= out1);
    }
    while work.len() > 0
        invariant
            0 <= j <= ext.len(),
            ext.len() == all.len(),
            all.len() <= usize::MAX,
            work@ == ext.subrange(j as int, ext.len() as int),
            forall|i: int| 0 <= i < ext.len() ==> sugar_free(#[trigger] ext[i]) && is_sugar(ext[i]) == is_sugar(all[i])
                && hoist_rel(all[i], ext[i], out1.subrange(2 * lh(all.subrange(0, i)), 2 * lh(all.subrange(0, i + 1))), f0 + lh(all.subrange(0, i))),
            filtered@.len() == j,
            out@.len() >= l1,
            out@.subrange(0, l1) == out1,
            l1 == 2 * lh(all),
            out@.len() == l1 + 2 * ls(all.subrange(0, j as int)),
            numbered(out@, f0 as nat, state.fresh_id),
            state.fresh_id == f1 + ls(all.subrange(0, j as int)),
            f1 == f0 + lh(all),
            f0 <= f1 <= state.fresh_id <= f1 + j,
            f1 + all.len() <= f0 + exprs_size(all),
            f0 + exprs_size(all) <= usize::MAX,
            forall|t: int| 0 <= t < j ==> !is_sugar(#[trigger] filtered@[t]) && sugar_free(filtered@[t]) && if is_sugar(all[t]) {
                is_temp(filtered@[t], f1 + ls(all.subrange(0, t))) && pair_at(out@, l1 + 2 * ls(all.subrange(0, t)), f1 + ls(all.subrange(0, t)), ext[t])
            } else {
                filtered@[t] == ext[t]
            },
        decreases work@.len(),
    {
        let x = work.remove(0);
        proof {
            assert(x == ext[j as int]);
            assert(work@ =~= ext.subrange(j as int + 1, ext.len() as int));
            lemma_lh_step(all, j as int);
            lemma_lh_mono(all, j as int + 1, all.len() as int);
            assert(all.subrange(0, all.len() as int) =~= all);
        }
        let ghost old_out = out@;
        let y = sugar_filter_one(x, state, &mut out, Ghost(f0 as nat));
        proof {
            if is_sugar(ext[j as int]) {
                lemma_sub_prefix(out@, old_out, 0, l1);
                assert(old_out.subrange(0, l1) == out1);
            } else {
                assert(out@ == old_out);
            }
            assert forall|t: int| 0 <= t < j + 1 implies !is_sugar(#[trigger] filtered@.push(y)[t]) && sugar_free(filtered@.push(y)[t]) && if is_sugar(all[t]) {
                is_temp(filtered@.push(y)[t], f1 + ls(all.subrange(0, t))) && pair_at(out@, l1 + 2 * ls(all.subrange(0, t)), f1 + ls(all.subrange(0, t)), ext[t])
            } else {
                filtered@.push(y)[t] == ext[t]
            } by {
                if t < j {
                    assert(filtered@.push(y)[t] == filtered@[t]);
                    if is_sugar(all[t]) && is_sugar(ext[j as int]) {
                        let pos = l1 + 2 * ls(all.subrange(0, t));
                        lemma_lh_mono(all, t, j as int);
                        lemma_lh_step(all, t);
                        assert(out@[pos] == out@.subrange(0, old_out.len() as int)[pos]);
                        assert(out@[pos + 1] == out@.subrange(0, old_out.len() as int)[pos + 1]);
                    }
                }
            }
        }
        filtered.push(y);
        j = j + 1;
    }
    proof {
        assert(all.subrange(0, j as int) =~= all);
        let h = out@;
        assert forall|i: int| 0 <= i < all.len() implies operand_rel(#[trigger] all[i], filtered@[i], h,
            h.subrange(2 * lh(all.subrange(0, i)), 2 * lh(all.subrange(0, i + 1))),
            f0 + lh(all.subrange(0, i)), 2 * (lh(all) + ls(all.subrange(0, i))),
            f0 + lh(all) + ls(all.subrange(0, i))) by {
            lemma_lh_mono(all, i + 1, all.len() as int);
            lemma_lh_mono(all, i, i + 1);
            lemma_sub_prefix(h, out1, 2 * lh(all.subrange(0, i)), 2 * lh(all.subrange(0, i + 1)));
            assert(!is_sugar(filtered@[i]));
            if is_sugar(all[i]) {
                let pos = 2 * (lh(all) + ls(all.subrange(0, i)));
                assert(pair_at(h, pos, f1 + ls(all.subrange(0, i)), ext[i]));
                assert(pair_rhe(h, pos) == ext[i]);
            }
        }
    }
    (filtered, out)
}

proof fn lemma_exprs_prefix_le(s: Seq<Expression>, k: int)
    requires
        0 <= k <= s.len(),
    ensures
        exprs_size(s.subrange(0, k)) <= exprs_size(s),
    decreases s.len() - k,
{
    if k < s.len() {
        lemma_exprs_prefix_le(s, k + 1);
        lemma_exprs_size_prefix(s, k);
    } else {
        assert(s.subrange(0, k) =~= s);
    }
}

proof fn lemma_accesses_prefix_le(s: Seq<Access>, k: int)
    requires
        0 <= k <= s.len(),
    ensures
        accesses_size(s.subrange(0, k)) <= accesses_size(s),
    decreases s.len() - k,
{
    if k < s.len() {
        lemma_accesses_prefix_le(s, k + 1);
        lemma_accesses_size_prefix(s, k);
    } else {
        assert(s.subrange(0, k) =~= s);
    }
}

/// Desugars each array index of an access list, moving any index that is
/// itself sugar into a temporary right after desugaring it.
#[verifier::rlimit(100)]
#[verifier::spinoff_prover]
fn extend_accesses(v: Vec<Access>, state: &mut State) -> (r: (Vec<Access>, Vec<Statement>))
    requires
        old(state).fresh_id + accesses_size(v@) <= usize::MAX,
    ensures
        r.0@.len() == v@.len(),
        forall|i: int| 0 <= i < r.0@.len() ==> match #[trigger] r.0@[i] {
            Access::ComponentAccess(_) => true,
            Access::ArrayAccess(x) => !is_sugar(x) && sugar_free(x),
        },
        numbered(r.1@, old(state).fresh_id as nat, final(state).fresh_id),
        final(state).fresh_id == old(state).fresh_id + ac(v@),
        final(state).fresh_id <= old(state).fresh_id + accesses_size(v@),
        r.1@.len() == 2 * ac(v@),
        forall|i: int| 0 <= i < v@.len() ==> match #[trigger] v@[i] {
            Access::ComponentAccess(x) => r.0@[i] == Access::ComponentAccess(x),
            Access::ArrayAccess(x) => match r.0@[i] {
                Access::ArrayAccess(y) => {
                    let off = ac(v@.subrange(0, i));
                    operand_rel(x, y, r.1@, r.1@.subrange(2 * off, 2 * (off + hc(x))), old(state).fresh_id + off, 2 * (off + hc(x)), old(state).fresh_id + off + hc(x))
                },
                _ => false,
            },
        },
    decreases accesses_size(v@), 1nat,
{
    let ghost all = v@;
    let ghost f0 = state.fresh_id as int;
    let mut rest = v;
    let mut res: Vec<Access> = Vec::new();
    let mut out: Vec<Statement> = Vec::new();
    let mut k: usize = 0;
    proof {
        assert(all.subrange(0, 0) =~= Seq::<Access>::empty());
        assert(all.len() == v.len());
        assert(hoisted(out@, f0 as nat, 0));
    }
    while rest.len() > 0
        invariant
            0 <= k <= all.len(),
            all.len() <= usize::MAX,
            all == v@,
            rest@ == all.subrange(k as int, all.len() as int),
            res@.len() == k,
            forall|i: int| 0 <= i < k ==> match #[trigger] res@[i] {
                Access::ComponentAccess(_) => true,
                Access::ArrayAccess(x) => !is_sugar(x) && sugar_free(x),
            },
            forall|i: int| 0 <= i < k ==> match #[trigger] all[i] {
                Access::ComponentAccess(x) => res@[i] == Access::ComponentAccess(x),
                Access::ArrayAccess(x) => match res@[i] {
                    Access::ArrayAccess(y) => {
                        let off = ac(all.subrange(0, i));
                        operand_rel(x, y, out@, out@.subrange(2 * off, 2 * (off + hc(x))), f0 + off, 2 * (off + hc(x)), f0 + off + hc(x))
                    },
                    _ => false,
                },
            },
            out@.len() == 2 * ac(all.subrange(0, k as int)),
            numbered(out@, f0 as nat, state.fresh_id),
            state.fresh_id == f0 + ac(all.subrange(0, k as int)),
            state.fresh_id <= f0 + accesses_size(all.subrange(0, k as int)),
            f0 + accesses_size(all) <= usize::MAX,
        decreases rest@.len(),
    {
        let a = rest.remove(0);
        proof {
            assert(a == all[k as int]);
            assert(rest@ =~= all.subrange(k as int + 1, all.len() as int));
            lemma_accesses_size_elem(all, k as int);
            lemma_accesses_size_prefix(all, k as int);
            lemma_accesses_prefix_le(all, k as int + 1);
            lemma_ac_step(all, k as int);
        }
        let ghost old_out = out@;
        let ghost old_res = res@;
        match a {
            Access::ComponentAccess(name) => {
                res.push(Access::ComponentAccess(name));
            },
            Access::ArrayAccess(x) => {
                proof {
                    lemma_size_positive(x);
                }
                let ghost fb = state.fresh_id;
                let (y, sy) = extend_expr(x, state);
                let ghost syg = sy@;
                let mut sy = sy;
                out.append(&mut sy);
                proof {
                    lemma_numbered_concat(old_out, syg, f0 as nat, fb, state.fresh_id);
                    assert(out@.subrange(0, old_out.len() as int) =~= old_out);
                }
                let ghost mid = out@;
                let z = sugar_filter_one(y, state, &mut out, Ghost(f0 as nat));
                proof {
                    if is_sugar(y) {
                        lemma_sub_prefix(out@, mid, 0, old_out.len() as int);
                        lemma_sub_prefix(out@, mid, old_out.len() as int, mid.len() as int);
                        assert(mid.subrange(old_out.len() as int, mid.len() as int) =~= syg);
                        assert(pair_rhe(out@, mid.len() as int) == y);
                    } else {
                        assert(mid.subrange(old_out.len() as int, mid.len() as int) =~= syg);
                    }
                    assert(out@.subrange(0, old_out.len() as int) =~= old_out) by {
                        if is_sugar(y) {
                            lemma_sub_prefix(out@, mid, 0, old_out.len() as int);
                        }
                    }
                }
                res.push(Access::ArrayAccess(z));
            },
        }
        proof {
            assert(out@.len() >= old_out.len());
            assert(out@.subrange(0, old_out.len() as int) =~= old_out);
            assert forall|i: int| 0 <= i < k + 1 implies match #[trigger] all[i] {
                Access::ComponentAccess(x) => res@[i] == Access::ComponentAccess(x),
                Access::ArrayAccess(x) => match res@[i] {
                    Access::ArrayAccess(y) => {
                        let off = ac(all.subrange(0, i));
                        operand_rel(x, y, out@, out@.subrange(2 * off, 2 * (off + hc(x))), f0 + off, 2 * (off + hc(x)), f0 + off + hc(x))
                    },
                    _ => false,
                },
            } by {
                if i < k {
                    assert(res@[i] == old_res[i]);
                    match all[i] {
                        Access::ArrayAccess(x) => match old_res[i] {
                            Access::ArrayAccess(y) => {
                                let off = ac(all.subrange(0, i));
                                lemma_ac_step(all, i);
                                lemma_ac_mono(all, i + 1, k as int);
                                lemma_sub_prefix(out@, old_out, 2 * off, 2 * (off + hc(x)));
                                lemma_operand_rel_extend(x, y, old_out, out@, out@.subrange(2 * off, 2 * (off + hc(x))), f0 + off, 2 * (off + hc(x)), f0 + off + hc(x));
                            },
                            _ => {},
                        },
                        _ => {},
                    }
                }
            }
        }
        k = k + 1;
    }
    proof {
        assert(all.subrange(0, k as int) =~= all);
    }
    (res, out)
}

proof fn lemma_ac_mono(s: Seq<Access>, j: int, k: int)
    requires
        0 <= j <= k <= s.len(),
    ensures
        ac(s.subrange(0, j)) <= ac(s.subrange(0, k)),
    decreases k - j,
{
    if j < k {
        lemma_ac_mono(s, j, k - 1);
        lemma_ac_step(s, k - 1);
    }
}

/// Desugars `e` below its root; returns the new expression and the
/// temporaries it needs, numbered from the state's next one.
#[verifier::rlimit(100)]
#[verifier::spinoff_prover]
fn extend_expr(e: Expression, state: &mut State) -> (r: (Expression, Vec<Statement>))
    requires
        old(state).fresh_id + expr_size(e) <= usize::MAX,
    ensures
        sugar_free(r.0),
        is_sugar(r.0) == is_sugar(e),
        (r.0 is TernaryOp) == (e is TernaryOp),
        (r.0 is ArrayInLine) == (e is ArrayInLine),
        expr_meta(r.0) == expr_meta(e),
        numbered(r.1@, old(state).fresh_id as nat, final(state).fresh_id),
        final(state).fresh_id == old(state).fresh_id + hcount(e),
        final(state).fresh_id < old(state).fresh_id + expr_size(e),
        hoist_rel(e, r.0, r.1@, old(state).fresh_id as int),
    decreases expr_size(e), 0nat,
{
    let ghost f0 = state.fresh_id;
    match e {
        Expression::InfixOp { meta, lhe, infix_op, rhe } => {
            proof {
                lemma_size_positive(*lhe);
                lemma_size_positive(*rhe);
            }
            let (l, sl) = extend_expr(*lhe, state);
            let ghost fm = state.fresh_id;
            let (r, sr) = extend_expr(*rhe, state);
            let ghost fr0 = state.fresh_id;
            let mut out = sl;
            let ghost slg = out@;
            let mut sr = sr;
            let ghost srg = sr@;
            out.append(&mut sr);
            proof {
                lemma_numbered_concat(slg, srg, f0 as nat, fm, fr0);
            }
            let ghost o2 = out@;
            let l2 = sugar_filter_one(l, state, &mut out, Ghost(f0 as nat));
            let ghost o3 = out@;
            let ghost fl = state.fresh_id;
            let r2 = sugar_filter_one(r, state, &mut out, Ghost(f0 as nat));
            let res = Expression::InfixOp { meta, lhe: Box::new(l2), infix_op, rhe: Box::new(r2) };
            proof {
                let h = out@;
                assert(o3.len() >= o2.len() && o3.subrange(0, o2.len() as int) == o2) by {
                    if !is_sugar(l) { assert(o3.subrange(0, o2.len() as int) =~= o2); }
                }
                assert(h.len() >= o3.len() && h.subrange(0, o3.len() as int) == o3) by {
                    if !is_sugar(r) { assert(h.subrange(0, o3.len() as int) =~= o3); }
                }
                lemma_sub_prefix(h, o3, 0, o2.len() as int);
                lemma_sub_prefix(o3, o2, 0, o2.len() as int);
                assert(o2.subrange(0, slg.len() as int) =~= slg);
                assert(o2.subrange(slg.len() as int, o2.len() as int) =~= srg);
                lemma_sub_prefix(h, o3, 0, slg.len() as int);
                lemma_sub_prefix(o3, o2, 0, slg.len() as int);
                lemma_sub_prefix(h, o3, slg.len() as int, o2.len() as int);
                lemma_sub_prefix(o3, o2, slg.len() as int, o2.len() as int);
                if is_sugar(l) {
                    assert(h[o2.len() as int] == h.subrange(0, o3.len() as int)[o2.len() as int]);
                    assert(h[o2.len() as int + 1] == h.subrange(0, o3.len() as int)[o2.len() as int + 1]);
                    assert(pair_rhe(h, o2.len() as int) == l);
                }
                if is_sugar(r) {
                    assert(pair_rhe(h, o3.len() as int) == r);
                }
            }
            (res, out)
        },
        Expression::PrefixOp { meta, prefix_op, rhe } => {
            let (r, sr) = extend_expr(*rhe, state);
            let mut out = sr;
            let ghost o2 = out@;
            let r2 = sugar_filter_one(r, state, &mut out, Ghost(f0 as nat));
            let res = Expression::PrefixOp { meta, prefix_op, rhe: Box::new(r2) };
            proof {
                let h = out@;
                if is_sugar(r) {
                    assert(pair_rhe(h, o2.len() as int) == r);
                    lemma_sub_prefix(h, o2, 0, o2.len() as int);
                } else {
                    assert(h == o2);
                }
                assert(o2.subrange(0, o2.len() as int) =~= o2);
            }
            (res, out)
        },
        Expression::TernaryOp { meta, cond, if_true, if_false } => {
            proof {
                lemma_size_positive(*if_true);
                lemma_size_positive(*if_false);
            }
            let (t, st) = extend_expr(*if_true, state);
            let ghost fm = state.fresh_id;
            let (f, sf) = extend_expr(*if_false, state);
            let ghost fr0 = state.fresh_id;
            let mut out = st;
            let ghost slg = out@;
            let mut sf = sf;
            let ghost srg = sf@;
            out.append(&mut sf);
            proof {
                lemma_numbered_concat(slg, srg, f0 as nat, fm, fr0);
            }
            let ghost o2 = out@;
            let t2 = sugar_filter_one(t, state, &mut out, Ghost(f0 as nat));
            let ghost o3 = out@;
            let f2 = sugar_filter_one(f, state, &mut out, Ghost(f0 as nat));
            let res = Expression::TernaryOp { meta, cond, if_true: Box::new(t2), if_false: Box::new(f2) };
            proof {
                let h = out@;
                assert(o3.len() >= o2.len() && o3.subrange(0, o2.len() as int) == o2) by {
                    if !is_sugar(t) { assert(o3.subrange(0, o2.len() as int) =~= o2); }
                }
                assert(h.len() >= o3.len() && h.subrange(0, o3.len() as int) == o3) by {
                    if !is_sugar(f) { assert(h.subrange(0, o3.len() as int) =~= o3); }
                }
                assert(o2.subrange(0, slg.len() as int) =~= slg);
                assert(o2.subrange(slg.len() as int, o2.len() as int) =~= srg);
                lemma_sub_prefix(h, o3, 0, slg.len() as int);
                lemma_sub_prefix(o3, o2, 0, slg.len() as int);
                lemma_sub_prefix(h, o3, slg.len() as int, o2.len() as int);
                lemma_sub_prefix(o3, o2, slg.len() as int, o2.len() as int);
                if is_sugar(t) {
                    assert(h[o2.len() as int] == h.subrange(0, o3.len() as int)[o2.len() as int]);
                    assert(h[o2.len() as int + 1] == h.subrange(0, o3.len() as int)[o2.len() as int + 1]);
                    assert(pair_rhe(h, o2.len() as int) == t);
                }
                if is_sugar(f) {
                    assert(pair_rhe(h, o3.len() as int) == f);
                }
            }
            (res, out)
        },
        Expression::Variable { meta, name, access } => {
            let (access, out) = extend_accesses(access, state);
            (Expression::Variable { meta, name, access }, out)
        },
        Expression::Number { meta, value } => {
            let out: Vec<Statement> = Vec::new();
            proof {
                assert(hoisted(out@, f0 as nat, 0));
            }
            (Expression::Number { meta, value }, out)
        },
        Expression::Call { meta, id, args } => {
            let (args, out) = extend_all(args, state);
            (Expression::Call { meta, id, args }, out)
        },
        Expression::ArrayInLine { meta, values } => {
            let (values, out) = extend_all(values, state);
            (Expression::ArrayInLine { meta, values }, out)
        },
    }
}

/// Desugars `e` below its root, appending the temporaries to `inits`.
fn extend_into(e: Expression, state: &mut State, inits: &mut Vec<Statement>, Ghost(base): Ghost<nat>) -> (r: Expression)
    requires
        old(state).fresh_id + expr_size(e) <= usize::MAX,
        numbered(old(inits)@, base, old(state).fresh_id),
    ensures
        sugar_free(r),
        is_sugar(r) == is_sugar(e),
        (r is TernaryOp) == (e is TernaryOp),
        (r is ArrayInLine) == (e is ArrayInLine),
        expr_meta(r) == expr_meta(e),
        numbered(final(inits)@, base, final(state).fresh_id),
        old(state).fresh_id <= final(state).fresh_id < old(state).fresh_id + expr_size(e),
        final(state).fresh_id == old(state).fresh_id + hcount(e),
        final(inits)@.len() == old(inits)@.len() + 2 * hcount(e),
        final(inits)@.subrange(0, old(inits)@.len() as int) == old(inits)@,
        hoist_rel(e, r, final(inits)@.subrange(old(inits)@.len() as int, final(inits)@.len() as int), old(state).fresh_id as int),
{
    let ghost fb = state.fresh_id;
    let ghost before = inits@;
    let (r, seg) = extend_expr(e, state);
    let ghost segg = seg@;
    let mut seg = seg;
    inits.append(&mut seg);
    proof {
        lemma_numbered_concat(before, segg, base, fb, state.fresh_id);
        assert(inits@.subrange(0, before.len() as int) =~= before);
        assert(inits@.subrange(before.len() as int, inits@.len() as int) =~= segg);
    }
    r
}

fn placeholder_meta() -> (r: Meta) {
    Meta {
        elem_id: 0,
        start: 0,
        end: 0,
        file_id: None,
        type_knowledge: crate::knowledge::TypeKnowledge::new(),
        memory_knowledge: MemoryKnowledge::new(),
    }
}

/// Desugars `expr` below its root: every call, conditional expression or
/// inline array standing as an operand, argument, index, inline value or
/// branch is moved into a fresh temporary `<k>_auto`, and the returned
/// statements declare and assign those temporaries, in order.
pub fn extend_expression(expr: &mut Expression, state: &mut State) -> (r: Vec<Statement>)
    requires
        old(state).fresh_id + expr_size(*old(expr)) <= usize::MAX,
    ensures
        sugar_free(*final(expr)),
        is_sugar(*final(expr)) == is_sugar(*old(expr)),
        expr_meta(*final(expr)) == expr_meta(*old(expr)),
        final(state).fresh_id == old(state).fresh_id + hcount(*old(expr)),
        hoisted(r@, old(state).fresh_id as nat, hcount(*old(expr))),
        hoist_rel(*old(expr), *final(expr), r@, old(state).fresh_id as int),
{
    let mut taken = Expression::Number { meta: placeholder_meta(), value: String::new() };
    std::mem::swap(expr, &mut taken);
    let (done, inits) = extend_expr(taken, state);
    *expr = done;
    inits
}

/// Number of return statements in a list.
pub open spec fn returns_count(s: Seq<Statement>) -> nat
    decreases s.len(),
{
    if s.len() == 0 {
        0
    } else {
        returns_count(s.drop_last()) + if s.last() is Return {
            1nat
        } else {
            0
        }
    }
}

proof fn lemma_returns_push(s: Seq<Statement>, x: Statement)
    ensures
        returns_count(s.push(x)) == returns_count(s) + if x is Return { 1nat } else { 0 },
{
    assert(s.push(x).drop_last() =~= s);
}

proof fn lemma_stmts_size_push(s: Seq<Statement>, x: Statement)
    ensures
        stmts_size(s.push(x)) == stmts_size(s) + stmt_size(x),
{
    assert(s.push(x).drop_last() =~= s);
    assert(s.push(x)[s.len() as int] == x);
}

proof fn lemma_stmts_size_elem(s: Seq<Statement>, k: int)
    requires
        0 <= k < s.len(),
    ensures
        stmt_size(s[k]) <= stmts_size(s),
    decreases s.len(),
{
    if k < s.len() - 1 {
        lemma_stmts_size_elem(s.drop_last(), k);
    }
}

proof fn lemma_stmts_prefix_le(s: Seq<Statement>, k: int)
    requires
        0 <= k <= s.len(),
    ensures
        stmts_size(s.subrange(0, k)) <= stmts_size(s),
    decreases s.len() - k,
{
    if k < s.len() {
        lemma_stmts_prefix_le(s, k + 1);
        assert(s.subrange(0, k + 1).drop_last() =~= s.subrange(0, k));
    } else {
        assert(s.subrange(0, k) =~= s);
    }
}

/// Facts carried by every statement between the mappings of a block.
pub open spec fn staged(x: Statement) -> bool {
    &&& desugared(x)
    &&& !(x is InitializationBlock)
    &&& match x {
        Statement::Return { value, .. } => is_sugar(value) ==> expr_meta(value).memory_knowledge.concrete_dimensions is Some,
        _ => true,
    }
}

/// `flat` is `olds` with each initialization block replaced by its statements.
pub open spec fn flat_rel(olds: Seq<Statement>, flat: Seq<Statement>) -> bool
    decreases olds.len(),
{
    if olds.len() == 0 {
        flat.len() == 0
    } else {
        match olds.last() {
            Statement::InitializationBlock { initializations, .. } => {
                let n = initializations@.len();
                &&& flat.len() >= n
                &&& flat.subrange(flat.len() - n, flat.len() as int) == initializations@
                &&& flat_rel(olds.drop_last(), flat.subrange(0, flat.len() - n))
            },
            _ => flat.len() > 0 && flat.last() == olds.last() && flat_rel(olds.drop_last(), flat.drop_last()),
        }
    }
}

/// Sum over a list of statements of their temporaries.
pub open spec fn sh_sum(s: Seq<Statement>) -> int
    decreases s.len(),
{
    if s.len() == 0 {
        0
    } else {
        sh_sum(s.drop_last()) + sh(s.last())
    }
}

/// Sum over a list of statements of the room each takes once preceded by
/// its temporaries.
pub open spec fn sl_sum(s: Seq<Statement>) -> int
    decreases s.len(),
{
    if s.len() == 0 {
        0
    } else {
        sl_sum(s.drop_last()) + 2 * sh(s.last()) + 1
    }
}

/// `sug` is each statement of `flat` desugared and preceded by its
/// temporaries, numbered on from `b`.
pub open spec fn sugar_rel(flat: Seq<Statement>, sug: Seq<Statement>, b: int) -> bool {
    &&& sug.len() == sl_sum(flat)
    &&& forall|i: int| 0 <= i < flat.len() ==> {
        let off = sl_sum(flat.subrange(0, i));
        stmt_rel(#[trigger] flat[i], sug[off + 2 * sh(flat[i])], sug.subrange(off, off + 2 * sh(flat[i])), b + sh_sum(flat.subrange(0, i)))
    }
}

/// How many statements `into_single_substitution` makes of `x`.
pub open spec fn ss(x: Statement) -> int {
    match x {
        Statement::Substitution { rhe: Expression::ArrayInLine { values, .. }, .. } => values@.len() as int,
        _ => 1,
    }
}

pub open spec fn ss_sum(s: Seq<Statement>) -> int
    decreases s.len(),
{
    if s.len() == 0 {
        0
    } else {
        ss_sum(s.drop_last()) + ss(s.last())
    }
}

/// `single` is `sug` with each statement rewritten by `into_single_substitution`.
pub open spec fn subst_rel(sug: Seq<Statement>, single: Seq<Statement>) -> bool {
    &&& single.len() == ss_sum(sug)
    &&& forall|i: int| 0 <= i < sug.len() ==> {
        let off = ss_sum(sug.subrange(0, i));
        single_substitution(#[trigger] sug[i], single.subrange(off, off + ss(sug[i])))
    }
}

/// The statements of a desugared block: `olds` flattened, each statement
/// preceded by its temporaries (numbered from `b`), assignments of
/// conditional expressions and inline arrays split, and returned sugar moved
/// into numbered variables.
pub open spec fn block_rel(olds: Seq<Statement>, news: Seq<Statement>, b: int) -> bool {
    exists|flat: Seq<Statement>, sug: Seq<Statement>, single: Seq<Statement>|
        #![trigger flat_rel(olds, flat), subst_rel(sug, single)]
        flat_rel(olds, flat) && sugar_rel(flat, sug, b) && subst_rel(sug, single) && b >= 0 && returns_mapped(single, news, (b + sh_sum(flat)) as nat)
}

proof fn lemma_sum_step(s: Seq<Statement>, k: int)
    requires
        0 <= k < s.len(),
    ensures
        sh_sum(s.subrange(0, k + 1)) == sh_sum(s.subrange(0, k)) + sh(s[k]),
        sl_sum(s.subrange(0, k + 1)) == sl_sum(s.subrange(0, k)) + 2 * sh(s[k]) + 1,
        ss_sum(s.subrange(0, k + 1)) == ss_sum(s.subrange(0, k)) + ss(s[k]),
{
    assert(s.subrange(0, k + 1).drop_last() =~= s.subrange(0, k));
}

proof fn lemma_sum_mono(s: Seq<Statement>, j: int, k: int)
    requires
        0 <= j <= k <= s.len(),
    ensures
        sl_sum(s.subrange(0, j)) <= sl_sum(s.subrange(0, k)),
        ss_sum(s.subrange(0, j)) <= ss_sum(s.subrange(0, k)),
    decreases k - j,
{
    if j < k {
        lemma_sum_mono(s, j, k - 1);
        lemma_sum_step(s, k - 1);
        assert(ss(s[k - 1]) >= 0);
    }
}

/// When `s` is a block, `r` is the block with its statements desugared as
/// `block_rel` describes, temporaries numbered from `b`.
pub open spec fn block_outcome(s: Statement, r: Statement, b: int) -> bool {
    match s {
        Statement::Block { stmts, .. } => match r {
            Statement::Block { stmts: s2, .. } => block_rel(stmts@, s2@, b),
            _ => false,
        },
        _ => true,
    }
}

/// Splits initialization blocks into their statements.
fn map_init_blocks(stmts: Vec<Statement>) -> (r: Vec<Statement>)
    requires
        forall|i: int|
            0 <= i < stmts@.len() ==> match #[trigger] stmts@[i] {
                Statement::InitializationBlock { initializations, .. } => forall|j: int|
                    0 <= j < initializations@.len() ==> (#[trigger] initializations@[j] is Declaration
                        || initializations@[j] is Substitution),
                _ => well_placed(stmts@[i]),
            },
    ensures
        forall|i: int| 0 <= i < r@.len() ==> well_placed(#[trigger] r@[i]),
        stmts_size(r@) <= stmts_size(stmts@),
        returns_count(r@) == returns_count(stmts@),
        flat_rel(stmts@, r@),
{
    let ghost all = stmts@;
    let mut rest = stmts;
    let mut out: Vec<Statement> = Vec::new();
    let mut k: usize = 0;
    proof {
        assert(all.subrange(0, 0) =~= Seq::<Statement>::empty());
        assert(all.len() == rest.len());
    }
    while rest.len() > 0
        invariant
            0 <= k <= all.len(),
            all.len() <= usize::MAX,
            rest@ == all.subrange(k as int, all.len() as int),
            forall|i: int|
                0 <= i < all.len() ==> match #[trigger] all[i] {
                    Statement::InitializationBlock { initializations, .. } => forall|j: int|
                        0 <= j < initializations@.len() ==> (#[trigger] initializations@[j] is Declaration
                            || initializations@[j] is Substitution),
                    _ => well_placed(all[i]),
                },
            forall|i: int| 0 <= i < out@.len() ==> well_placed(#[trigger] out@[i]),
            stmts_size(out@) <= stmts_size(all.subrange(0, k as int)),
            returns_count(out@) == returns_count(all.subrange(0, k as int)),
            flat_rel(all.subrange(0, k as int), out@),
        decreases rest@.len(),
    {
        let w = rest.remove(0);
        proof {
            assert(w == all[k as int]);
            assert(rest@ =~= all.subrange(k as int + 1, all.len() as int));
            let p = all.subrange(0, k as int + 1);
            assert(p.drop_last() =~= all.subrange(0, k as int));
            assert(p[k as int] == w);
        }
        match w {
            Statement::InitializationBlock { meta, xtype, initializations } => {
                let ghost inits = initializations@;
                let mut work = initializations;
                let mut j: usize = 0;
                proof {
                    assert(inits.subrange(0, 0) =~= Seq::<Statement>::empty());
                    assert(inits.len() == work.len());
                }
                let ghost out0 = out@;
                while work.len() > 0
                    invariant
                        0 <= j <= inits.len(),
                        inits.len() <= usize::MAX,
                        work@ == inits.subrange(j as int, inits.len() as int),
                        forall|t: int| 0 <= t < inits.len() ==> (#[trigger] inits[t] is Declaration || inits[t] is Substitution),
                        forall|i: int| 0 <= i < out@.len() ==> well_placed(#[trigger] out@[i]),
                        stmts_size(out@) == stmts_size(out0) + stmts_size(inits.subrange(0, j as int)),
                        returns_count(out@) == returns_count(out0),
                        out@ == out0 + inits.subrange(0, j as int),
                    decreases work@.len(),
                {
                    let x = work.remove(0);
                    proof {
                        assert(x == inits[j as int]);
                        assert(work@ =~= inits.subrange(j as int + 1, inits.len() as int));
                        let p = inits.subrange(0, j as int + 1);
                        assert(p.drop_last() =~= inits.subrange(0, j as int));
                        assert(p[j as int] == x);
                        lemma_stmts_size_push(out@, x);
                        lemma_returns_push(out@, x);
                    }
                    out.push(x);
                    j = j + 1;
                    proof {
                        assert(out@ =~= out0 + inits.subrange(0, j as int));
                    }
                }
                proof {
                    assert(inits.subrange(0, inits.len() as int) =~= inits);
                    assert(stmt_size(all[k as int]) == 1 + stmts_size(inits));
                    assert(stmts_size(all.subrange(0, k as int + 1)) == stmts_size(all.subrange(0, k as int)) + stmt_size(all[k as int]));
                    assert(returns_count(all.subrange(0, k as int + 1)) == returns_count(all.subrange(0, k as int)));
                    let p = all.subrange(0, k as int + 1);
                    assert(out@.subrange(out@.len() - inits.len(), out@.len() as int) =~= inits);
                    assert(out@.subrange(0, out@.len() - inits.len()) =~= out0);
                    assert(p.last() == all[k as int]);
                    assert(flat_rel(p, out@));
                }
            },
            _ => {
                proof {
                    lemma_stmts_size_push(out@, w);
                    lemma_returns_push(out@, w);
                    assert(stmts_size(all.subrange(0, k as int + 1)) == stmts_size(all.subrange(0, k as int)) + stmt_size(all[k as int]));
                    assert(returns_count(all.subrange(0, k as int + 1)) == returns_count(all.subrange(0, k as int)) + if w is Return { 1nat } else { 0 });
                }
                let ghost wg = w;
                let ghost ob = out@;
                out.push(w);
                proof {
                    let p = all.subrange(0, k as int + 1);
                    assert(out@.drop_last() =~= ob);
                    assert(p.last() == wg);
                    assert(flat_rel(p, out@));
                }
            },
        }
        k = k + 1;
    }
    proof {
        assert(all.subrange(0, k as int) =~= all);
    }
    out
}

/// `b` is a block holding one assignment `var<access> op rhe`, where block and
/// assignment carry copies of `meta` and the access list is a copy of `access`.
pub open spec fn branch_of(b: Statement, meta: Meta, var: String, access: Seq<Access>, op: AssignOp, rhe: Expression) -> bool {
    match b {
        Statement::Block { meta: bm, stmts } => meta_view(bm) == meta_view(meta) && stmts@.len() == 1 && match stmts@[0] {
            Statement::Substitution { meta: sm, var: v, access: a, op: o, rhe: r } => meta_view(sm) == meta_view(meta)
                && v@ == var@ && same_accesses(access, a@) && o == op && r == rhe,
            _ => false,
        },
        _ => false,
    }
}

/// `x` assigns element `i` of an inline array: `var<access>[i] op v`.
pub open spec fn element_assignment(x: Statement, meta: Meta, var: String, access: Seq<Access>, op: AssignOp, v: Expression, i: nat) -> bool {
    match x {
        Statement::Substitution { meta: sm, var: vv, access: a, op: o, rhe: r } => {
            &&& meta_view(sm) == meta_view(meta)
            &&& vv@ == var@
            &&& o == op
            &&& r == v
            &&& a@.len() == access.len() + 1
            &&& same_accesses(access, a@.subrange(0, access.len() as int))
            &&& match a@[access.len() as int] {
                Access::ArrayAccess(Expression::Number { value, .. }) => value@ == crate::export::decimal(i),
                _ => false,
            }
        },
        _ => false,
    }
}

/// The statements `into_single_substitution` appends for `stmt`.
pub open spec fn single_substitution(stmt: Statement, added: Seq<Statement>) -> bool {
    match stmt {
        Statement::Substitution { meta, var, access, op, rhe } => match rhe {
            Expression::TernaryOp { cond, if_true, if_false, .. } => added.len() == 1 && match added[0] {
                Statement::IfThenElse { meta: m, cond: c, if_case, else_case } => m == meta && c == *cond
                    && branch_of(*if_case, meta, var, access@, op, *if_true) && match else_case {
                    Some(e) => branch_of(*e, meta, var, access@, op, *if_false),
                    None => false,
                },
                _ => false,
            },
            Expression::ArrayInLine { values, .. } => added.len() == values@.len() && forall|i: int|
                0 <= i < added.len() ==> element_assignment(#[trigger] added[i], meta, var, access@, op, values@[i], i as nat),
            _ => added == seq![stmt],
        },
        _ => added == seq![stmt],
    }
}

proof fn lemma_same_expr_refl(e: Expression)
    ensures
        same_expr(e, e),
    decreases e,
{
    match e {
        Expression::InfixOp { lhe, rhe, .. } => {
            lemma_same_expr_refl(*lhe);
            lemma_same_expr_refl(*rhe);
        },
        Expression::PrefixOp { rhe, .. } => lemma_same_expr_refl(*rhe),
        Expression::TernaryOp { cond, if_true, if_false, .. } => {
            lemma_same_expr_refl(*cond);
            lemma_same_expr_refl(*if_true);
            lemma_same_expr_refl(*if_false);
        },
        Expression::Variable { access, .. } => {
            assert forall|i: int| 0 <= i < access@.len() implies match #[trigger] access@[i] {
                Access::ComponentAccess(x) => match access@[i] {
                    Access::ComponentAccess(y) => x@ == y@,
                    _ => false,
                },
                Access::ArrayAccess(x) => match access@[i] {
                    Access::ArrayAccess(y) => same_expr(x, y),
                    _ => false,
                },
            } by {
                match access@[i] {
                    Access::ArrayAccess(x) => lemma_same_expr_refl(x),
                    _ => {},
                }
            }
        },
        Expression::Call { args, .. } => {
            assert forall|i: int| 0 <= i < args@.len() implies same_expr(#[trigger] args@[i], args@[i]) by {
                lemma_same_expr_refl(args@[i]);
            }
        },
        Expression::ArrayInLine { values, .. } => {
            assert forall|i: int| 0 <= i < values@.len() implies same_expr(#[trigger] values@[i], values@[i]) by {
                lemma_same_expr_refl(values@[i]);
            }
        },
        _ => {},
    }
}

proof fn lemma_same_accesses_refl(a: Seq<Access>)
    ensures
        same_accesses(a, a),
{
    assert forall|i: int| 0 <= i < a.len() implies match #[trigger] a[i] {
        Access::ComponentAccess(x) => match a[i] {
            Access::ComponentAccess(y) => x@ == y@,
            _ => false,
        },
        Access::ArrayAccess(x) => match a[i] {
            Access::ArrayAccess(y) => same_expr(x, y),
            _ => false,
        },
    } by {
        match a[i] {
            Access::ArrayAccess(x) => lemma_same_expr_refl(x),
            _ => {},
        }
    }
}

/// Rewrites an assignment of a conditional expression into a conditional of
/// two assignments, and an assignment of an inline array into one assignment
/// per element; any other statement is kept. The result goes to `stmts`.
pub fn into_single_substitution(stmt: Statement, stmts: &mut Vec<Statement>)
    requires
        staged(stmt),
    ensures
        final(stmts)@.len() >= old(stmts)@.len(),
        final(stmts)@.subrange(0, old(stmts)@.len() as int) == old(stmts)@,
        forall|i: int|
            old(stmts)@.len() <= i < final(stmts)@.len() ==> staged(#[trigger] final(stmts)@[i]),
        stmt is Substitution ==> forall|i: int|
            old(stmts)@.len() <= i < final(stmts)@.len() ==> block_member(#[trigger] final(stmts)@[i]),
        !(stmt is Substitution) ==> final(stmts)@ == old(stmts)@.push(stmt),
        stmt is Substitution ==> returns_count(final(stmts)@) == returns_count(old(stmts)@),
        single_substitution(stmt, final(stmts)@.subrange(old(stmts)@.len() as int, final(stmts)@.len() as int)),
{
    let ghost before = stmts@;
    let ghost st = stmt;
    match stmt {
        Statement::Substitution { meta, var, access, op, rhe } => {
            match rhe {
                Expression::TernaryOp { meta: _, cond, if_true, if_false } => {
                    let ghost acc0 = access;
                    let sub_if = Statement::Substitution {
                        meta: copy_meta(&meta),
                        var: var.clone(),
                        access: copy_accesses(&access),
                        op,
                        rhe: *if_true,
                    };
                    let sub_else = Statement::Substitution { meta: copy_meta(&meta), var, access, op, rhe: *if_false };
                    let mut if_assigns: Vec<Statement> = Vec::new();
                    if_assigns.push(sub_if);
                    let mut else_assigns: Vec<Statement> = Vec::new();
                    else_assigns.push(sub_else);
                    proof {
                        assert(!is_sugar(*if_true) && sugar_free(*if_true));
                        assert(!is_sugar(*if_false) && sugar_free(*if_false));
                        assert(if_assigns@.len() == 1 && desugared(if_assigns@[0]) && block_member(if_assigns@[0]));
                        assert(else_assigns@.len() == 1 && desugared(else_assigns@[0]) && block_member(else_assigns@[0]));
                    }
                    let if_body = Statement::Block { stmts: if_assigns, meta: copy_meta(&meta) };
                    let else_body = Statement::Block { stmts: else_assigns, meta: copy_meta(&meta) };
                    proof {
                        lemma_same_accesses_refl(acc0@);
                    }
                    let new_stmt = Statement::IfThenElse {
                        meta,
                        cond: *cond,
                        if_case: Box::new(if_body),
                        else_case: Some(Box::new(else_body)),
                    };
                    proof {
                        assert(desugared(if_body));
                        assert(desugared(else_body));
                        assert(staged(new_stmt));
                    }
                    stmts.push(new_stmt);
                    proof {
                        assert(stmts@.subrange(0, before.len() as int) =~= before);
                        lemma_returns_push(before, stmts@[before.len() as int]);
                        assert(stmts@ =~= before.push(stmts@[before.len() as int]));
                        assert(stmts@.subrange(before.len() as int, stmts@.len() as int) =~= seq![stmts@[before.len() as int]]);
                    }
                },
                Expression::ArrayInLine { meta: _, values } => {
                    let ghost vals = values@;
                    let mut work = values;
                    let mut index: usize = 0;
                    proof {
                        assert(vals.len() == work.len());
                    }
                    while work.len() > 0
                        invariant
                            0 <= index <= vals.len(),
                            vals.len() <= usize::MAX,
                            work@ == vals.subrange(index as int, vals.len() as int),
                            forall|t: int| 0 <= t < vals.len() ==> !is_sugar(#[trigger] vals[t]) && sugar_free(vals[t]),
                            stmts@.len() >= before.len(),
                            stmts@.subrange(0, before.len() as int) == before,
                            forall|i: int|
                                before.len() <= i < stmts@.len() ==> staged(#[trigger] stmts@[i])
                                    && block_member(stmts@[i]) && stmts@[i] is Substitution,
                            returns_count(stmts@) == returns_count(before),
                            stmts@.len() == before.len() + index,
                            match st {
                                Statement::Substitution { meta: m0, var: v0, access: a0, op: o0, rhe: r0 } => m0 == meta
                                    && v0 == var && a0 == access && o0 == op && match r0 {
                                    Expression::ArrayInLine { values: vs, .. } => vs@ == vals,
                                    _ => false,
                                },
                                _ => false,
                            },
                            forall|t: int| 0 <= t < index ==> element_assignment(#[trigger] stmts@[before.len() + t], meta, var, access@, op, vals[t], t as nat),
                        decreases work@.len(),
                    {
                        let v = work.remove(0);
                        proof {
                            assert(v == vals[index as int]);
                            assert(work@ =~= vals.subrange(index as int + 1, vals.len() as int));
                        }
                        let mut index_meta = copy_meta(&meta);
                        index_meta.memory_knowledge = MemoryKnowledge::new();
                        index_meta.memory_knowledge.set_concrete_dimensions(Vec::new());
                        let expr_index = Expression::Number { meta: index_meta, value: usize_text(index) };
                        let mut accessed_with = copy_accesses(&access);
                        let ghost copied = accessed_with@;
                        accessed_with.push(Access::ArrayAccess(expr_index));
                        let sub = Statement::Substitution {
                            op,
                            var: var.clone(),
                            access: accessed_with,
                            meta: copy_meta(&meta),
                            rhe: v,
                        };
                        proof {
                            assert(accessed_with@.subrange(0, access@.len() as int) =~= copied);
                        }
                        let ghost prev = stmts@;
                        stmts.push(sub);
                        proof {
                            lemma_returns_push(prev, stmts@[prev.len() as int]);
                            assert(stmts@ =~= prev.push(stmts@[prev.len() as int]));
                            assert(stmts@.subrange(0, before.len() as int) =~= prev.subrange(0, before.len() as int));
                            assert(element_assignment(stmts@[before.len() + index], meta, var, access@, op, vals[index as int], index as nat));
                        }
                        index = index + 1;
                    }
                    proof {
                        let added = stmts@.subrange(before.len() as int, stmts@.len() as int);
                        assert forall|i: int| 0 <= i < added.len() implies element_assignment(#[trigger] added[i], meta, var, access@, op, vals[i], i as nat) by {
                            assert(added[i] == stmts@[before.len() + i]);
                        }
                    }
                },
                other => {
                    let s2 = Statement::Substitution { meta, var, access, op, rhe: other };
                    proof {
                        assert(staged(s2));
                    }
                    stmts.push(s2);
                    proof {
                        assert(stmts@.subrange(0, before.len() as int) =~= before);
                        lemma_returns_push(before, stmts@[before.len() as int]);
                        assert(stmts@ =~= before.push(stmts@[before.len() as int]));
                        assert(stmts@.subrange(before.len() as int, stmts@.len() as int) =~= seq![st]);
                    }
                },
            }
        },
        other => {
            stmts.push(other);
            proof {
                assert(stmts@.subrange(0, before.len() as int) =~= before);
                assert(stmts@.subrange(before.len() as int, stmts@.len() as int) =~= seq![st]);
            }
        },
    }
}

proof fn lemma_hoisted_staged(s: Seq<Statement>, base: nat, n: nat)
    requires
        hoisted(s, base, n),
    ensures
        forall|i: int| 0 <= i < s.len() ==> staged(#[trigger] s[i]) && !(s[i] is Return),
    decreases n,
{
    if n > 0 {
        let p = s.subrange(0, 2 * n - 2);
        lemma_hoisted_staged(p, base, (n - 1) as nat);
        assert forall|i: int| 0 <= i < s.len() implies staged(#[trigger] s[i]) && !(s[i] is Return) by {
            if i < 2 * n - 2 {
                assert(s[i] == p[i]);
            }
        }
    }
}

proof fn lemma_returns_concat_none(a: Seq<Statement>, b: Seq<Statement>)
    requires
        forall|i: int| 0 <= i < b.len() ==> !(#[trigger] b[i] is Return),
    ensures
        returns_count(a + b) == returns_count(a),
    decreases b.len(),
{
    if b.len() > 0 {
        lemma_returns_concat_none(a, b.drop_last());
        assert((a + b).drop_last() =~= a + b.drop_last());
        assert((a + b).last() == b[b.len() - 1]);
    } else {
        assert(a + b =~= a);
    }
}

proof fn lemma_sugar_step(all: Seq<Statement>, k: int, ob: Seq<Statement>, added: Seq<Statement>, w2: Statement, f0: int)
    requires
        0 <= k < all.len(),
        ob.len() == sl_sum(all.subrange(0, k)),
        forall|j: int| 0 <= j < k ==> {
            let off = sl_sum(all.subrange(0, j));
            stmt_rel(#[trigger] all[j], ob[off + 2 * sh(all[j])], ob.subrange(off, off + 2 * sh(all[j])), f0 + sh_sum(all.subrange(0, j)))
        },
        stmt_rel(all[k], w2, added, f0 + sh_sum(all.subrange(0, k))),
    ensures
        forall|j: int| 0 <= j < k + 1 ==> {
            let off = sl_sum(all.subrange(0, j));
            stmt_rel(#[trigger] all[j], (ob + added + seq![w2])[off + 2 * sh(all[j])], (ob + added + seq![w2]).subrange(off, off + 2 * sh(all[j])), f0 + sh_sum(all.subrange(0, j)))
        },
{
    let out = ob + added + seq![w2];
    lemma_sum_step(all, k);
    assert forall|j: int| 0 <= j < k + 1 implies {
        let off = sl_sum(all.subrange(0, j));
        stmt_rel(#[trigger] all[j], out[off + 2 * sh(all[j])], out.subrange(off, off + 2 * sh(all[j])), f0 + sh_sum(all.subrange(0, j)))
    } by {
        let off = sl_sum(all.subrange(0, j));
        lemma_sum_mono(all, 0, j);
        assert(all.subrange(0, 0) =~= Seq::<Statement>::empty());
        if j < k {
            lemma_sum_step(all, j);
            lemma_sum_mono(all, j + 1, k);
            assert(off + 2 * sh(all[j]) + 1 <= ob.len());
            assert(out[off + 2 * sh(all[j])] == ob[off + 2 * sh(all[j])]);
            assert(out.subrange(off, off + 2 * sh(all[j])) =~= ob.subrange(off, off + 2 * sh(all[j])));
        } else {
            assert(out.subrange(off, off + 2 * sh(all[j])) =~= added);
            assert(out[off + 2 * sh(all[j])] == w2);
        }
    }
}

/// Desugars each statement of a block, placing the temporaries it needs just
/// before it.
#[verifier::rlimit(100)]
#[verifier::spinoff_prover]
fn map_stmts_with_sugar(v: Vec<Statement>, state: &mut State) -> (r: Vec<Statement>)
    requires
        forall|i: int| 0 <= i < v@.len() ==> well_placed(#[trigger] v@[i]),
        old(state).fresh_id + stmts_size(v@) <= usize::MAX,
    ensures
        forall|i: int| 0 <= i < r@.len() ==> staged(#[trigger] r@[i]),
        old(state).fresh_id <= final(state).fresh_id,
        final(state).fresh_id + returns_count(r@) <= old(state).fresh_id + stmts_size(v@),
        sugar_rel(v@, r@, old(state).fresh_id as int),
        final(state).fresh_id == old(state).fresh_id + sh_sum(v@),
    decreases stmts_size(v@), 2nat,
{
    let ghost all = v@;
    let ghost f0 = state.fresh_id as int;
    let mut rest = v;
    let mut out: Vec<Statement> = Vec::new();
    let mut k: usize = 0;
    proof {
        assert(all.subrange(0, 0) =~= Seq::<Statement>::empty());
        assert(all.len() == v.len());
    }
    while rest.len() > 0
        invariant
            0 <= k <= all.len(),
            all.len() <= usize::MAX,
            all == v@,
            rest@ == all.subrange(k as int, all.len() as int),
            forall|i: int| 0 <= i < all.len() ==> well_placed(#[trigger] all[i]),
            forall|i: int| 0 <= i < out@.len() ==> staged(#[trigger] out@[i]),
            f0 <= state.fresh_id,
            state.fresh_id + returns_count(out@) <= f0 + stmts_size(all.subrange(0, k as int)),
            f0 + stmts_size(all) <= usize::MAX,
            out@.len() == sl_sum(all.subrange(0, k as int)),
            state.fresh_id == f0 + sh_sum(all.subrange(0, k as int)),
            forall|j: int| 0 <= j < k ==> {
                let off = sl_sum(all.subrange(0, j));
                stmt_rel(#[trigger] all[j], out@[off + 2 * sh(all[j])], out@.subrange(off, off + 2 * sh(all[j])), f0 + sh_sum(all.subrange(0, j)))
            },
        decreases rest@.len(),
    {
        let w = rest.remove(0);
        proof {
            assert(w == all[k as int]);
            assert(rest@ =~= all.subrange(k as int + 1, all.len() as int));
            lemma_stmts_size_elem(all, k as int);
            lemma_stmts_prefix_le(all, k as int + 1);
            let p = all.subrange(0, k as int + 1);
            assert(p.drop_last() =~= all.subrange(0, k as int));
            assert(p[k as int] == w);
        }
        let mut local: Vec<Statement> = Vec::new();
        let ghost fb = state.fresh_id as nat;
        proof {
            assert(hoisted(local@, fb, 0));
        }
        let ghost wg = w;
        let w2 = extend_stmt(w, state, &mut local, Ghost(fb));
        let ghost addedg = local@;
        proof {
            assert(addedg.subrange(0, 0) =~= Seq::<Statement>::empty());
            assert(addedg.subrange(0, addedg.len() as int) =~= addedg);
            assert(stmt_rel(all[k as int], w2, addedg, f0 + sh_sum(all.subrange(0, k as int))));
            lemma_hoisted_staged(local@, fb, (local@.len() / 2) as nat);
        }
        let ghost before = out@;
        let ghost added = local@;
        out.append(&mut local);
        proof {
            lemma_returns_concat_none(before, added);
            assert(out@ == before + added);
            lemma_returns_push(out@, w2);
        }
        let ghost mid = out@;
        out.push(w2);
        proof {
            lemma_sum_step(all, k as int);
            assert(local@.len() == 0);
            let ob = before;
            assert(out@ =~= ob + added + seq![w2]);
            lemma_sugar_step(all, k as int, ob, addedg, w2, f0);
        }
        k = k + 1;
    }
    proof {
        assert(all.subrange(0, k as int) =~= all);
    }
    out
}

proof fn lemma_single_len(x: Statement, added: Seq<Statement>)
    requires
        single_substitution(x, added),
    ensures
        added.len() == ss(x),
{
}

proof fn lemma_subst_step(all: Seq<Statement>, k: int, ob: Seq<Statement>, out: Seq<Statement>)
    requires
        0 <= k < all.len(),
        ob.len() == ss_sum(all.subrange(0, k)),
        forall|j: int| 0 <= j < k ==> {
            let off = ss_sum(all.subrange(0, j));
            single_substitution(#[trigger] all[j], ob.subrange(off, off + ss(all[j])))
        },
        out.len() >= ob.len(),
        out.subrange(0, ob.len() as int) == ob,
        single_substitution(all[k], out.subrange(ob.len() as int, out.len() as int)),
    ensures
        out.len() == ss_sum(all.subrange(0, k + 1)),
        forall|j: int| 0 <= j < k + 1 ==> {
            let off = ss_sum(all.subrange(0, j));
            single_substitution(#[trigger] all[j], out.subrange(off, off + ss(all[j])))
        },
{
    lemma_sum_step(all, k);
    lemma_single_len(all[k], out.subrange(ob.len() as int, out.len() as int));
    assert forall|j: int| 0 <= j < k + 1 implies {
        let off = ss_sum(all.subrange(0, j));
        single_substitution(#[trigger] all[j], out.subrange(off, off + ss(all[j])))
    } by {
        let off = ss_sum(all.subrange(0, j));
        if j < k {
            lemma_sum_step(all, j);
            lemma_sum_mono(all, j + 1, k);
            lemma_sum_mono(all, 0, j);
            assert(all.subrange(0, 0) =~= Seq::<Statement>::empty());
            assert(ss(all[j]) >= 0);
            lemma_sub_prefix(out, ob, off, off + ss(all[j]));
        }
    }
}

/// Applies `into_single_substitution` to every statement of a block.
fn map_substitutions(v: Vec<Statement>) -> (r: Vec<Statement>)
    requires
        forall|i: int| 0 <= i < v@.len() ==> staged(#[trigger] v@[i]),
    ensures
        forall|i: int| 0 <= i < r@.len() ==> staged(#[trigger] r@[i]) && (r@[i] is Substitution
            ==> block_member(r@[i])),
        returns_count(r@) == returns_count(v@),
        subst_rel(v@, r@),
{
    let ghost all = v@;
    let mut rest = v;
    let mut out: Vec<Statement> = Vec::new();
    let mut k: usize = 0;
    proof {
        assert(all.subrange(0, 0) =~= Seq::<Statement>::empty());
        assert(all.len() == rest.len());
    }
    while rest.len() > 0
        invariant
            0 <= k <= all.len(),
            all.len() <= usize::MAX,
            rest@ == all.subrange(k as int, all.len() as int),
            forall|i: int| 0 <= i < all.len() ==> staged(#[trigger] all[i]),
            forall|i: int| 0 <= i < out@.len() ==> staged(#[trigger] out@[i]) && (out@[i] is Substitution
                ==> block_member(out@[i])),
            returns_count(out@) == returns_count(all.subrange(0, k as int)),
            out@.len() == ss_sum(all.subrange(0, k as int)),
            forall|j: int| 0 <= j < k ==> {
                let off = ss_sum(all.subrange(0, j));
                single_substitution(#[trigger] all[j], out@.subrange(off, off + ss(all[j])))
            },
        decreases rest@.len(),
    {
        let w = rest.remove(0);
        proof {
            assert(w == all[k as int]);
            assert(rest@ =~= all.subrange(k as int + 1, all.len() as int));
            let p = all.subrange(0, k as int + 1);
            assert(p.drop_last() =~= all.subrange(0, k as int));
            assert(p[k as int] == w);
        }
        let ghost before = out@;
        let ghost ws = w is Substitution;
        let ghost wr = w is Return;
        let ghost wg = w;
        into_single_substitution(w, &mut out);
        proof {
            lemma_subst_step(all, k as int, before, out@);
            assert forall|i: int| 0 <= i < out@.len() implies staged(#[trigger] out@[i]) && (out@[i] is Substitution
                ==> block_member(out@[i])) by {
                if i < before.len() {
                    assert(out@[i] == out@.subrange(0, before.len() as int)[i]);
                }
            }
            if !ws {
                lemma_returns_push(before, out@[before.len() as int]);
            }
        }
        k = k + 1;
    }
    proof {
        assert(all.subrange(0, k as int) =~= all);
    }
    out
}

fn meta_ref(e: &Expression) -> (r: &Meta)
    ensures
        *r == expr_meta(*e),
{
    match e {
        Expression::InfixOp { meta, .. } => meta,
        Expression::PrefixOp { meta, .. } => meta,
        Expression::TernaryOp { meta, .. } => meta,
        Expression::Variable { meta, .. } => meta,
        Expression::Number { meta, .. } => meta,
        Expression::Call { meta, .. } => meta,
        Expression::ArrayInLine { meta, .. } => meta,
    }
}

/// The dimensions recorded in a metadata value, as plain values.
pub open spec fn dims_of(m: Meta) -> Option<Seq<usize>> {
    match m.memory_knowledge.concrete_dimensions {
        Some(v) => Some(v@),
        None => None,
    }
}

/// What `split_return` appends for `return value;`: the declaration of the
/// variable `id` with the value's dimensions, the assignment of the value to
/// it as `into_single_substitution` writes it, and `return id;`.
pub open spec fn return_split(stmt: Statement, id: nat, added: Seq<Statement>) -> bool {
    match stmt {
        Statement::Return { meta, value } => {
            &&& added.len() >= 2
            &&& match added[0] {
                Statement::Declaration { meta: dm, xtype, name, dimensions, is_constant } => {
                    &&& name@ == crate::export::decimal(id)
                    &&& xtype == VariableType::Var
                    &&& !is_constant
                    &&& dm.type_knowledge.reduces_to == Some(TypeReduction::Variable)
                    &&& dims_of(dm) == dims_of(expr_meta(value))
                    &&& match dims_of(expr_meta(value)) {
                        Some(l) => dimensions@.len() == l.len() && forall|j: int|
                            0 <= j < l.len() ==> match #[trigger] dimensions@[j] {
                                Expression::Number { value: t, .. } => t@ == crate::export::decimal(l[j] as nat),
                                _ => false,
                            },
                        None => false,
                    }
                },
                _ => false,
            }
            &&& exists|sub: Statement|
                #[trigger] single_substitution(sub, added.subrange(1, added.len() - 1)) && match sub {
                    Statement::Substitution { var, access, op, rhe, .. } => var@ == crate::export::decimal(id)
                        && access@.len() == 0 && op == AssignOp::AssignVar && rhe == value,
                    _ => false,
                }
            &&& match added[added.len() - 1] {
                Statement::Return { meta: rm, value: Expression::Variable { name, access, .. } } => rm == meta
                    && name@ == crate::export::decimal(id) && access@.len() == 0,
                _ => false,
            }
        },
        _ => false,
    }
}

/// Replaces `return e;`, where `e` is sugar, by a declaration of the variable
/// named `id` with `e`'s dimensions, its assignment (split further by
/// `into_single_substitution`), and `return id;`.
pub fn split_return(stmt: Statement, id: usize, out: &mut Vec<Statement>)
    requires
        match stmt {
            Statement::Return { value, .. } => is_sugar(value),
            _ => false,
        },
        staged(stmt),
    ensures
        final(out)@.len() >= old(out)@.len(),
        final(out)@.subrange(0, old(out)@.len() as int) == old(out)@,
        forall|i: int|
            old(out)@.len() <= i < final(out)@.len() ==> staged(#[trigger] final(out)@[i]) && block_member(
                final(out)@[i],
            ),
        returns_count(final(out)@) == returns_count(old(out)@) + 1,
        return_split(stmt, id as nat, final(out)@.subrange(old(out)@.len() as int, final(out)@.len() as int)),
{
    let ghost st = stmt;
    match stmt {
        Statement::Return { meta, value } => {
            let value_meta = meta_ref(&value);
            let mut dimensions: Vec<Expression> = Vec::new();
            match &value_meta.memory_knowledge.concrete_dimensions {
                Some(lengths) => {
                    let mut i: usize = 0;
                    while i < lengths.len()
                        invariant
                            0 <= i <= lengths@.len(),
                            dimensions@.len() == i,
                            forall|j: int| 0 <= j < i ==> match #[trigger] dimensions@[j] {
                                Expression::Number { value: t, .. } => t@ == crate::export::decimal(lengths@[j] as nat),
                                _ => false,
                            },
                        decreases lengths@.len() - i,
                    {
                        dimensions.push(Expression::Number { meta: copy_meta(&meta), value: usize_text(lengths[i]) });
                        i = i + 1;
                    }
                },
                None => {},
            }
            let mut declaration_meta = copy_meta(&meta);
            declaration_meta.memory_knowledge = copy_meta(value_meta).memory_knowledge;
            declaration_meta.type_knowledge.set_reduces_to(TypeReduction::Variable);
            let mut substitution_meta = copy_meta(&meta);
            substitution_meta.type_knowledge.set_reduces_to(TypeReduction::Variable);
            let mut variable_meta = copy_meta(&meta);
            variable_meta.memory_knowledge = copy_meta(value_meta).memory_knowledge;
            variable_meta.type_knowledge.set_reduces_to(TypeReduction::Variable);
            let name = usize_text(id);
            let declaration = Statement::Declaration {
                meta: declaration_meta,
                xtype: VariableType::Var,
                name: name.clone(),
                dimensions,
                is_constant: false,
            };
            let substitution = Statement::Substitution {
                meta: substitution_meta,
                var: name.clone(),
                access: Vec::new(),
                op: AssignOp::AssignVar,
                rhe: value,
            };
            let returned_variable = Expression::Variable { meta: variable_meta, name, access: Vec::new() };
            let final_return = Statement::Return { meta, value: returned_variable };
            let ghost o0 = out@;
            out.push(declaration);
            proof {
                lemma_returns_push(o0, out@[o0.len() as int]);
            }
            let ghost o1 = out@;
            let ghost sub_g = substitution;
            into_single_substitution(substitution, out);
            let ghost o2 = out@;
            proof {
                assert(final_return is Return);
                assert(staged(final_return));
            }
            out.push(final_return);
            proof {
                lemma_returns_push(o2, final_return);
                assert(out@.subrange(0, o0.len() as int) =~= o0) by {
                    assert(o2.subrange(0, o1.len() as int) == o1);
                    assert(o1.subrange(0, o0.len() as int) =~= o0);
                }
                assert forall|i: int|
                    o0.len() <= i < out@.len() implies staged(#[trigger] out@[i]) && block_member(out@[i]) by {
                    if i < o1.len() {
                        assert(out@[i] == o1[i]);
                    } else if i < o2.len() {
                        assert(out@[i] == o2[i]);
                    }
                }
                let added = out@.subrange(o0.len() as int, out@.len() as int);
                assert(added[0] == o1[o0.len() as int]);
                assert(added.subrange(1, added.len() - 1) =~= o2.subrange(o1.len() as int, o2.len() as int));
                assert(single_substitution(sub_g, added.subrange(1, added.len() - 1)));
                assert(added[added.len() - 1] == final_return);
                assert(added.len() >= 2);
                assert(match sub_g {
                    Statement::Substitution { var, access, op, rhe, .. } => var@ == crate::export::decimal(id as nat)
                        && access@.len() == 0 && op == AssignOp::AssignVar && rhe == value,
                    _ => false,
                });
                assert(match added[0] {
                    Statement::Declaration { meta: dm, xtype, name, dimensions, is_constant } => {
                        &&& name@ == crate::export::decimal(id as nat)
                        &&& xtype == VariableType::Var
                        &&& !is_constant
                        &&& dm.type_knowledge.reduces_to == Some(TypeReduction::Variable)
                        &&& dims_of(dm) == dims_of(expr_meta(value))
                    },
                    _ => false,
                });
            }
        },
        _ => {},
    }
}

/// A return of a call, a conditional expression or an inline array.
pub open spec fn sugar_return(w: Statement) -> bool {
    match w {
        Statement::Return { value, .. } => is_sugar(value),
        _ => false,
    }
}

/// Number of returns of sugar in a list.
pub open spec fn sugar_returns(s: Seq<Statement>) -> nat
    decreases s.len(),
{
    if s.len() == 0 {
        0
    } else {
        sugar_returns(s.drop_last()) + if sugar_return(s.last()) {
            1nat
        } else {
            0
        }
    }
}

/// `out` is `v` in order, with each return of sugar split as `split_return`
/// does it, numbered on from `first`, and every other statement kept; the
/// part for statement `i` starts at `cuts[i]`.
pub open spec fn mapped_with(v: Seq<Statement>, out: Seq<Statement>, first: nat, cuts: Seq<int>) -> bool
    decreases v.len(),
{
    if v.len() == 0 {
        out.len() == 0 && cuts.len() == 0
    } else {
        let q = cuts.last();
        &&& cuts.len() == v.len()
        &&& 0 <= q <= out.len()
        &&& mapped_with(v.drop_last(), out.subrange(0, q), first, cuts.drop_last())
        &&& if sugar_return(v.last()) {
            return_split(v.last(), first + sugar_returns(v.drop_last()), out.subrange(q, out.len() as int))
        } else {
            out.subrange(q, out.len() as int) == seq![v.last()]
        }
    }
}

/// `out` is the mapping of `v` for some choice of where each part starts.
pub open spec fn returns_mapped(v: Seq<Statement>, out: Seq<Statement>, first: nat) -> bool {
    exists|cuts: Seq<int>| #[trigger] mapped_with(v, out, first, cuts)
}

/// Splits every returned conditional expression, call or inline array into a
/// numbered variable, counting on from the state's next temporary.
fn map_returns(v: Vec<Statement>, state: &mut State) -> (r: Vec<Statement>)
    requires
        forall|i: int| 0 <= i < v@.len() ==> staged(#[trigger] v@[i]) && (v@[i] is Substitution
            ==> block_member(v@[i])),
        old(state).fresh_id + returns_count(v@) <= usize::MAX,
    ensures
        forall|i: int| 0 <= i < r@.len() ==> staged(#[trigger] r@[i]) && block_member(r@[i]),
        returns_mapped(v@, r@, old(state).fresh_id as nat),
        final(state).fresh_id == old(state).fresh_id + sugar_returns(v@),
{
    let ghost all = v@;
    let ghost f0 = state.fresh_id as nat;
    let ghost mut cuts: Seq<int> = Seq::empty();
    let mut rest = v;
    let mut out: Vec<Statement> = Vec::new();
    let mut k: usize = 0;
    proof {
        assert(all.subrange(0, 0) =~= Seq::<Statement>::empty());
        assert(all.len() == rest.len());
    }
    while rest.len() > 0
        invariant
            0 <= k <= all.len(),
            all.len() <= usize::MAX,
            rest@ == all.subrange(k as int, all.len() as int),
            forall|i: int| 0 <= i < all.len() ==> staged(#[trigger] all[i]) && (all[i] is Substitution
                ==> block_member(all[i])),
            forall|i: int| 0 <= i < out@.len() ==> staged(#[trigger] out@[i]) && block_member(out@[i]),
            state.fresh_id + returns_count(all) - returns_count(all.subrange(0, k as int)) <= usize::MAX,
            returns_count(all.subrange(0, k as int)) <= returns_count(all),
            mapped_with(all.subrange(0, k as int), out@, f0, cuts),
            state.fresh_id == f0 + sugar_returns(all.subrange(0, k as int)),
        decreases rest@.len(),
    {
        let w = rest.remove(0);
        proof {
            assert(w == all[k as int]);
            assert(rest@ =~= all.subrange(k as int + 1, all.len() as int));
            let p = all.subrange(0, k as int + 1);
            assert(p.drop_last() =~= all.subrange(0, k as int));
            assert(p[k as int] == w);
            lemma_returns_prefix_le(all, k as int + 1);
        }
        let split = match &w {
            Statement::Return { value, .. } => is_sugar_node(value),
            _ => false,
        };
        let ghost before = out@;
        let ghost fk = state.fresh_id as nat;
        let ghost wg = w;
        proof {
            assert(split == sugar_return(w));
        }
        if split {
            let id = state.fresh_id;
            split_return(w, id, &mut out);
            state.fresh_id = state.fresh_id + 1;
            proof {
                assert forall|i: int| 0 <= i < out@.len() implies staged(#[trigger] out@[i]) && block_member(out@[i]) by {
                    if i < before.len() {
                        assert(out@[i] == out@.subrange(0, before.len() as int)[i]);
                    }
                }
            }
        } else {
            out.push(w);
        }
        proof {
            let p = all.subrange(0, k as int + 1);
            let b = before.len() as int;
            assert(out@.subrange(0, b) =~= before);
            assert(p.last() == w);
            assert(mapped_with(p.drop_last(), out@.subrange(0, b), f0, cuts));
            assert(p.drop_last() =~= all.subrange(0, k as int));
            if !split {
                assert(out@.subrange(b, out@.len() as int) =~= seq![wg]);
            } else {
                assert(fk == f0 + sugar_returns(p.drop_last()));
                assert(return_split(wg, fk, out@.subrange(b, out@.len() as int)));
            }
            assert(0 <= b <= out@.len());
            assert(p.last() == wg);
            assert(sugar_return(p.last()) == split);
            assert(p.len() > 0);
            let old_cuts = cuts;
            cuts = cuts.push(b);
            assert(cuts.drop_last() =~= old_cuts);
            assert(cuts.last() == b);
            assert(mapped_with(p, out@, f0, cuts));
        }
        k = k + 1;
    }
    proof {
        assert(all.subrange(0, k as int) =~= all);
        assert(mapped_with(all, out@, f0, cuts));
    }
    out
}

proof fn lemma_returns_prefix_le(s: Seq<Statement>, k: int)
    requires
        0 <= k <= s.len(),
    ensures
        returns_count(s.subrange(0, k)) <= returns_count(s),
    decreases s.len() - k,
{
    if k < s.len() {
        lemma_returns_prefix_le(s, k + 1);
        assert(s.subrange(0, k + 1).drop_last() =~= s.subrange(0, k));
    } else {
        assert(s.subrange(0, k) =~= s);
    }
}

/// Number of temporaries the desugaring of statement `s` hands to its
/// enclosing block (a block keeps its own).
pub open spec fn shcount(s: Statement) -> nat
    decreases s,
{
    match s {
        Statement::While { cond, stmt, .. } => shcount(*stmt) + hcount(cond) + sug(cond),
        Statement::IfThenElse { cond, if_case, else_case, .. } => shcount(*if_case) + match else_case {
            Some(e) => shcount(*e),
            None => 0,
        } + hcount(cond) + sug(cond),
        Statement::Substitution { rhe, .. } => hcount(rhe),
        Statement::ConstraintEquality { lhe, rhe, .. } => hcount(lhe) + hcount(rhe),
        Statement::Return { value, .. } => hcount(value),
        Statement::LogCall { arg, .. } => hcount(arg),
        Statement::Assert { arg, .. } => hcount(arg),
        _ => 0,
    }
}

pub open spec fn sh(s: Statement) -> int {
    shcount(s) as int
}

/// Desugaring turned statement `o` into `n` and handed the temporaries `h`,
/// numbered from `b`, to the enclosing block: a loop's body is desugared
/// first, then its condition (moved into a temporary when it is sugar); a
/// conditional's branches, then its condition; an assignment, constraint,
/// return, log or assertion has its expressions desugared as
/// `extend_expression` does; a block is desugared in place and hands over
/// nothing; a declaration is kept.
pub open spec fn stmt_rel(o: Statement, n: Statement, h: Seq<Statement>, b: int) -> bool
    decreases o,
{
    &&& h.len() == 2 * sh(o)
    &&& match o {
        Statement::Block { meta, .. } => match n {
            Statement::Block { meta: m2, .. } => m2 == meta && desugared(n),
            _ => false,
        },
        Statement::While { meta, cond, stmt } => match n {
            Statement::While { meta: m2, cond: c2, stmt: s2 } => {
                let x = sh(*stmt);
                let y = hc(cond);
                &&& m2 == meta
                &&& stmt_rel(*stmt, *s2, h.subrange(0, 2 * x), b)
                &&& operand_rel(cond, c2, h, h.subrange(2 * x, 2 * (x + y)), b + x, 2 * (x + y), b + x + y)
            },
            _ => false,
        },
        Statement::IfThenElse { meta, cond, if_case, else_case } => match n {
            Statement::IfThenElse { meta: m2, cond: c2, if_case: i2, else_case: e2 } => {
                let x = sh(*if_case);
                let z = match else_case {
                    Some(e) => sh(*e),
                    None => 0,
                };
                let y = hc(cond);
                &&& m2 == meta
                &&& stmt_rel(*if_case, *i2, h.subrange(0, 2 * x), b)
                &&& match else_case {
                    Some(e) => match e2 {
                        Some(f) => stmt_rel(*e, *f, h.subrange(2 * x, 2 * (x + z)), b + x),
                        None => false,
                    },
                    None => e2 is None,
                }
                &&& operand_rel(cond, c2, h, h.subrange(2 * (x + z), 2 * (x + z + y)), b + x + z, 2 * (x + z + y), b + x + z + y)
            },
            _ => false,
        },
        Statement::Substitution { meta, var, access, op, rhe } => match n {
            Statement::Substitution { meta: m2, var: v2, access: a2, op: o2, rhe: r2 } => m2 == meta && v2 == var
                && a2 == access && o2 == op && hoist_rel(rhe, r2, h, b),
            _ => false,
        },
        Statement::ConstraintEquality { meta, lhe, rhe } => match n {
            Statement::ConstraintEquality { meta: m2, lhe: l2, rhe: r2 } => m2 == meta
                && hoist_rel(lhe, l2, h.subrange(0, 2 * hc(lhe)), b)
                && hoist_rel(rhe, r2, h.subrange(2 * hc(lhe), h.len() as int), b + hc(lhe)),
            _ => false,
        },
        Statement::Return { meta, value } => match n {
            Statement::Return { meta: m2, value: v2 } => m2 == meta && hoist_rel(value, v2, h, b),
            _ => false,
        },
        Statement::LogCall { meta, arg } => match n {
            Statement::LogCall { meta: m2, arg: a2 } => m2 == meta && hoist_rel(arg, a2, h, b),
            _ => false,
        },
        Statement::Assert { meta, arg } => match n {
            Statement::Assert { meta: m2, arg: a2 } => m2 == meta && hoist_rel(arg, a2, h, b),
            _ => false,
        },
        _ => n == o,
    }
}

/// A pair at `l0 + pos` of `big` is a pair at `pos` of `big`'s tail from `l0`.
proof fn lemma_pair_shift(big: Seq<Statement>, l0: int, pos: int, k: int, e: Expression)
    requires
        0 <= l0 <= big.len(),
        pair_at(big, l0 + pos, k, e),
        pos >= 0,
    ensures
        pair_at(big.subrange(l0, big.len() as int), pos, k, e),
        pair_rhe(big.subrange(l0, big.len() as int), pos) == e,
{
    let t = big.subrange(l0, big.len() as int);
    assert(t[pos] == big[l0 + pos]);
    assert(t[pos + 1] == big[l0 + pos + 1]);
}

/// Desugars a statement below its own level, appending the temporaries it
/// needs to `inits`; blocks are desugared in place and need none.
#[verifier::rlimit(100)]
#[verifier::spinoff_prover]
fn extend_stmt(s: Statement, state: &mut State, inits: &mut Vec<Statement>, Ghost(base): Ghost<nat>) -> (r: Statement)
    requires
        well_placed(s),
        old(state).fresh_id + stmt_size(s) <= usize::MAX,
        numbered(old(inits)@, base, old(state).fresh_id),
    ensures
        staged(r),
        (r is Return) == (s is Return),
        (r is Block) == (s is Block),
        s is Block ==> final(state).fresh_id == old(state).fresh_id && final(inits)@ == old(inits)@,
        numbered(final(inits)@, base, final(state).fresh_id),
        old(state).fresh_id <= final(state).fresh_id,
        final(state).fresh_id + (if s is Return { 1nat } else { 0 }) < old(state).fresh_id + stmt_size(s),
        final(state).fresh_id == old(state).fresh_id + shcount(s),
        final(inits)@.len() == old(inits)@.len() + 2 * shcount(s),
        final(inits)@.subrange(0, old(inits)@.len() as int) == old(inits)@,
        stmt_rel(s, r, final(inits)@.subrange(old(inits)@.len() as int, final(inits)@.len() as int), old(state).fresh_id as int),
        block_outcome(s, r, old(state).fresh_id as int),
    decreases stmt_size(s), 1nat,
{
    let ghost i0 = inits@;
    let ghost l0 = inits@.len() as int;
    let ghost f0 = state.fresh_id as int;
    match s {
        Statement::Block { meta, stmts } => {
            let checkpoint = state.fresh_id;
            let ghost old_stmts = stmts@;
            let flat = map_init_blocks(stmts);
            let ghost flat_g = flat@;
            let sugared = map_stmts_with_sugar(flat, state);
            let ghost sug_g = sugared@;
            let ghost fs = state.fresh_id;
            let single = map_substitutions(sugared);
            let ghost single_g = single@;
            let returned = map_returns(single, state);
            proof {
                assert(flat_rel(old_stmts, flat_g) && subst_rel(sug_g, single_g));
                assert(fs as int == checkpoint as int + sh_sum(flat_g));
                assert(block_rel(old_stmts, returned@, checkpoint as int));
            }
            state.fresh_id = checkpoint;
            let res = Statement::Block { meta, stmts: returned };
            proof {
                assert(inits@.subrange(0, l0) =~= i0);
                assert(inits@.subrange(l0, inits@.len() as int) =~= Seq::<Statement>::empty());
            }
            res
        },
        Statement::While { .. } => extend_while(s, state, inits, Ghost(base)),
        Statement::IfThenElse { .. } => extend_if(s, state, inits, Ghost(base)),
        Statement::Substitution { meta, var, access, op, rhe } => {
            let rhe = extend_into(rhe, state, inits, Ghost(base));
            Statement::Substitution { meta, var, access, op, rhe }
        },
        Statement::ConstraintEquality { .. } => extend_equality(s, state, inits, Ghost(base)),
        Statement::Return { meta, value } => {
            let value = extend_into(value, state, inits, Ghost(base));
            Statement::Return { meta, value }
        },
        Statement::LogCall { meta, arg } => {
            let arg = extend_into(arg, state, inits, Ghost(base));
            Statement::LogCall { meta, arg }
        },
        Statement::Assert { meta, arg } => {
            let arg = extend_into(arg, state, inits, Ghost(base));
            Statement::Assert { meta, arg }
        },
        other => other,
    }
}

#[verifier::rlimit(100)]
#[verifier::spinoff_prover]
fn extend_while(s: Statement, state: &mut State, inits: &mut Vec<Statement>, Ghost(base): Ghost<nat>) -> (r: Statement)
    requires
        s is While,
        well_placed(s),
        old(state).fresh_id + stmt_size(s) <= usize::MAX,
        numbered(old(inits)@, base, old(state).fresh_id),
    ensures
        staged(r),
        (r is Return) == (s is Return),
        (r is Block) == (s is Block),
        s is Block ==> final(state).fresh_id == old(state).fresh_id && final(inits)@ == old(inits)@,
        numbered(final(inits)@, base, final(state).fresh_id),
        old(state).fresh_id <= final(state).fresh_id,
        final(state).fresh_id + (if s is Return { 1nat } else { 0 }) < old(state).fresh_id + stmt_size(s),
        final(state).fresh_id == old(state).fresh_id + shcount(s),
        final(inits)@.len() == old(inits)@.len() + 2 * shcount(s),
        final(inits)@.subrange(0, old(inits)@.len() as int) == old(inits)@,
        stmt_rel(s, r, final(inits)@.subrange(old(inits)@.len() as int, final(inits)@.len() as int), old(state).fresh_id as int),
    decreases stmt_size(s), 0nat,
{
    let ghost i0 = inits@;
    let ghost l0 = inits@.len() as int;
    let ghost f0 = state.fresh_id as int;
    match s {
        Statement::While { meta, cond, stmt } => {
            let ghost og = *stmt;
            let body = extend_stmt(*stmt, state, inits, Ghost(base));
            let ghost i1 = inits@;
            let ghost cg = cond;
            let c = extend_into(cond, state, inits, Ghost(base));
            let ghost i2 = inits@;
            let ghost f2 = state.fresh_id as int;
            let c2 = sugar_filter_one(c, state, inits, Ghost(base));
            let res = Statement::While { meta, cond: c2, stmt: Box::new(body) };
            proof {
                let h = inits@.subrange(l0, inits@.len() as int);
                let x = sh(og);
                let y = hc(cg);
                assert(inits@.subrange(0, i2.len() as int) == i2) by {
                    if !is_sugar(c) { assert(inits@.subrange(0, i2.len() as int) =~= i2); }
                }
                lemma_sub_prefix(inits@, i2, 0, l0);
                lemma_sub_prefix(i2, i1, 0, l0);
                lemma_sub_prefix(inits@, i2, l0, i1.len() as int);
                lemma_sub_prefix(i2, i1, l0, i1.len() as int);
                lemma_sub_prefix(inits@, i2, i1.len() as int, i2.len() as int);
                assert(h.subrange(0, 2 * x) =~= inits@.subrange(l0, i1.len() as int));
                assert(h.subrange(2 * x, 2 * (x + y)) =~= inits@.subrange(i1.len() as int, i2.len() as int));
                if is_sugar(c) {
                    lemma_pair_shift(inits@, l0, 2 * (x + y), f2, c);
                }
            }
            res
        },
        other => other,
    }
}

#[verifier::rlimit(100)]
#[verifier::spinoff_prover]
fn extend_if(s: Statement, state: &mut State, inits: &mut Vec<Statement>, Ghost(base): Ghost<nat>) -> (r: Statement)
    requires
        s is IfThenElse,
        well_placed(s),
        old(state).fresh_id + stmt_size(s) <= usize::MAX,
        numbered(old(inits)@, base, old(state).fresh_id),
    ensures
        staged(r),
        (r is Return) == (s is Return),
        (r is Block) == (s is Block),
        s is Block ==> final(state).fresh_id == old(state).fresh_id && final(inits)@ == old(inits)@,
        numbered(final(inits)@, base, final(state).fresh_id),
        old(state).fresh_id <= final(state).fresh_id,
        final(state).fresh_id + (if s is Return { 1nat } else { 0 }) < old(state).fresh_id + stmt_size(s),
        final(state).fresh_id == old(state).fresh_id + shcount(s),
        final(inits)@.len() == old(inits)@.len() + 2 * shcount(s),
        final(inits)@.subrange(0, old(inits)@.len() as int) == old(inits)@,
        stmt_rel(s, r, final(inits)@.subrange(old(inits)@.len() as int, final(inits)@.len() as int), old(state).fresh_id as int),
    decreases stmt_size(s), 0nat,
{
    let ghost i0 = inits@;
    let ghost l0 = inits@.len() as int;
    let ghost f0 = state.fresh_id as int;
    match s {
        Statement::IfThenElse { meta, cond, if_case, else_case } => {
            let ghost ig = *if_case;
            let ghost eg = else_case;
            let i = extend_stmt(*if_case, state, inits, Ghost(base));
            let ghost i1 = inits@;
            let e = match else_case {
                Some(x) => Some(Box::new(extend_stmt(*x, state, inits, Ghost(base)))),
                None => None,
            };
            let ghost i2 = inits@;
            let ghost cg = cond;
            let c = extend_into(cond, state, inits, Ghost(base));
            let ghost i3 = inits@;
            let ghost f3 = state.fresh_id as int;
            let c2 = sugar_filter_one(c, state, inits, Ghost(base));
            let res = Statement::IfThenElse { meta, cond: c2, if_case: Box::new(i), else_case: e };
            proof {
                let h = inits@.subrange(l0, inits@.len() as int);
                let x = sh(ig);
                let z = match eg {
                    Some(e) => sh(*e),
                    None => 0,
                };
                let y = hc(cg);
                assert(inits@.subrange(0, i3.len() as int) == i3) by {
                    if !is_sugar(c) { assert(inits@.subrange(0, i3.len() as int) =~= i3); }
                }
                assert(i2.subrange(0, i1.len() as int) == i1) by {
                    if eg is None { assert(i2.subrange(0, i1.len() as int) =~= i1); }
                }
                lemma_sub_prefix(inits@, i3, 0, l0);
                lemma_sub_prefix(i3, i2, 0, l0);
                lemma_sub_prefix(i2, i1, 0, l0);
                lemma_sub_prefix(inits@, i3, l0, i1.len() as int);
                lemma_sub_prefix(i3, i2, l0, i1.len() as int);
                lemma_sub_prefix(i2, i1, l0, i1.len() as int);
                lemma_sub_prefix(inits@, i3, i1.len() as int, i2.len() as int);
                lemma_sub_prefix(i3, i2, i1.len() as int, i2.len() as int);
                lemma_sub_prefix(inits@, i3, i2.len() as int, i3.len() as int);
                assert(h.subrange(0, 2 * x) =~= inits@.subrange(l0, i1.len() as int));
                assert(h.subrange(2 * x, 2 * (x + z)) =~= inits@.subrange(i1.len() as int, i2.len() as int));
                assert(h.subrange(2 * (x + z), 2 * (x + z + y)) =~= inits@.subrange(i2.len() as int, i3.len() as int));
                if eg is None {
                    assert(i2 == i1);
                }
                if is_sugar(c) {
                    lemma_pair_shift(inits@, l0, 2 * (x + z + y), f3, c);
                }
            }
            res
        },
        other => other,
    }
}

#[verifier::rlimit(100)]
#[verifier::spinoff_prover]
fn extend_equality(s: Statement, state: &mut State, inits: &mut Vec<Statement>, Ghost(base): Ghost<nat>) -> (r: Statement)
    requires
        s is ConstraintEquality,
        well_placed(s),
        old(state).fresh_id + stmt_size(s) <= usize::MAX,
        numbered(old(inits)@, base, old(state).fresh_id),
    ensures
        staged(r),
        (r is Return) == (s is Return),
        (r is Block) == (s is Block),
        s is Block ==> final(state).fresh_id == old(state).fresh_id && final(inits)@ == old(inits)@,
        numbered(final(inits)@, base, final(state).fresh_id),
        old(state).fresh_id <= final(state).fresh_id,
        final(state).fresh_id + (if s is Return { 1nat } else { 0 }) < old(state).fresh_id + stmt_size(s),
        final(state).fresh_id == old(state).fresh_id + shcount(s),
        final(inits)@.len() == old(inits)@.len() + 2 * shcount(s),
        final(inits)@.subrange(0, old(inits)@.len() as int) == old(inits)@,
        stmt_rel(s, r, final(inits)@.subrange(old(inits)@.len() as int, final(inits)@.len() as int), old(state).fresh_id as int),
    decreases stmt_size(s), 0nat,
{
    let ghost i0 = inits@;
    let ghost l0 = inits@.len() as int;
    let ghost f0 = state.fresh_id as int;
    match s {
        Statement::ConstraintEquality { meta, lhe, rhe } => {
            let ghost lg = lhe;
            let lhe = extend_into(lhe, state, inits, Ghost(base));
            let ghost i1 = inits@;
            let rhe = extend_into(rhe, state, inits, Ghost(base));
            let res = Statement::ConstraintEquality { meta, lhe, rhe };
            proof {
                let h = inits@.subrange(l0, inits@.len() as int);
                lemma_sub_prefix(inits@, i1, l0, i1.len() as int);
                assert(h.subrange(0, 2 * hc(lg)) =~= inits@.subrange(l0, i1.len() as int));
                assert(h.subrange(2 * hc(lg), h.len() as int) =~= inits@.subrange(i1.len() as int, inits@.len() as int));
                lemma_sub_prefix(inits@, i1, 0, l0);
            }
            res
        },
        other => other,
    }
}


fn empty_block() -> (r: Statement)
    ensures
        r is Block,
{
    Statement::Block { meta: placeholder_meta(), stmts: Vec::new() }
}

/// Desugars `stmt`: inside every block, initialization blocks are flattened,
/// each statement is preceded by the temporaries its operands need,
/// assignments of conditional expressions and inline arrays are split, and
/// returned sugar goes through a numbered variable. The temporaries a
/// statement outside any block needs are returned, in order.
pub fn extend_statement(stmt: &mut Statement, state: &mut State) -> (r: Vec<Statement>)
    requires
        well_placed(*old(stmt)),
        old(state).fresh_id + stmt_size(*old(stmt)) <= usize::MAX,
    ensures
        desugared(*final(stmt)),
        (*final(stmt) is Block) == (*old(stmt) is Block),
        (*final(stmt) is Return) == (*old(stmt) is Return),
        old(state).fresh_id <= final(state).fresh_id < old(state).fresh_id + stmt_size(*old(stmt)),
        hoisted(r@, old(state).fresh_id as nat, (final(state).fresh_id - old(state).fresh_id) as nat),
        *old(stmt) is Block ==> r@.len() == 0 && final(state).fresh_id == old(state).fresh_id,
        final(state).fresh_id == old(state).fresh_id + shcount(*old(stmt)),
        stmt_rel(*old(stmt), *final(stmt), r@, old(state).fresh_id as int),
        block_outcome(*old(stmt), *final(stmt), old(state).fresh_id as int),
{
    let mut taken = empty_block();
    std::mem::swap(stmt, &mut taken);
    let mut inits: Vec<Statement> = Vec::new();
    let ghost base = state.fresh_id as nat;
    proof {
        assert(hoisted(inits@, base, 0));
    }
    let done = extend_stmt(taken, state, &mut inits, Ghost(base));
    proof {
        assert(inits@.subrange(0, inits@.len() as int) =~= inits@);
    }
    *stmt = done;
    inits
}

/// Desugars the body of every template and every function; each body is a
/// block, and temporaries are numbered from zero within each.
pub fn clean_sugar(templates: &mut Vec<Statement>, functions: &mut Vec<Statement>)
    requires
        forall|i: int| 0 <= i < old(templates)@.len() ==> {
            let t = #[trigger] old(templates)@[i];
            t is Block && well_placed(t) && stmt_size(t) <= usize::MAX
        },
        forall|i: int| 0 <= i < old(functions)@.len() ==> {
            let f = #[trigger] old(functions)@[i];
            f is Block && well_placed(f) && stmt_size(f) <= usize::MAX
        },
    ensures
        final(templates)@.len() == old(templates)@.len(),
        final(functions)@.len() == old(functions)@.len(),
        forall|i: int| 0 <= i < final(templates)@.len() ==> (#[trigger] final(templates)@[i] is Block)
            && desugared(final(templates)@[i]) && block_outcome(old(templates)@[i], final(templates)@[i], 0),
        forall|i: int| 0 <= i < final(functions)@.len() ==> (#[trigger] final(functions)@[i] is Block)
            && desugared(final(functions)@[i]) && block_outcome(old(functions)@[i], final(functions)@[i], 0),
{
    let mut state = State::new();
    clean_bodies(templates, &mut state);
    clean_bodies(functions, &mut state);
}

fn clean_bodies(bodies: &mut Vec<Statement>, state: &mut State)
    requires
        old(state).fresh_id == 0,
        forall|i: int| 0 <= i < old(bodies)@.len() ==> {
            let t = #[trigger] old(bodies)@[i];
            t is Block && well_placed(t) && stmt_size(t) <= usize::MAX
        },
    ensures
        final(state).fresh_id == 0,
        final(bodies)@.len() == old(bodies)@.len(),
        forall|i: int| 0 <= i < final(bodies)@.len() ==> (#[trigger] final(bodies)@[i] is Block)
            && desugared(final(bodies)@[i]) && block_outcome(old(bodies)@[i], final(bodies)@[i], 0),
{
    let ghost orig = bodies@;
    let mut i: usize = 0;
    while i < bodies.len()
        invariant
            0 <= i <= bodies@.len(),
            bodies@.len() == orig.len(),
            state.fresh_id == 0,
            forall|j: int| i <= j < orig.len() ==> #[trigger] bodies@[j] == orig[j],
            forall|j: int| 0 <= j < orig.len() ==> {
                let t = #[trigger] orig[j];
                t is Block && well_placed(t) && stmt_size(t) <= usize::MAX
            },
            forall|j: int| 0 <= j < i ==> (#[trigger] bodies@[j] is Block) && desugared(bodies@[j])
                && block_outcome(orig[j], bodies@[j], 0),
        decreases bodies@.len() - i,
    {
        let mut code = bodies.remove(i);
        proof {
            assert(code == orig[i as int]);
        }
        extend_statement(&mut code, state);
        bodies.insert(i, code);
        proof {
            assert forall|j: int| i < j < orig.len() implies #[trigger] bodies@[j] == orig[j] by {
            }
        }
        i = i + 1;
    }
}

} // verus!
