//! Constraint-list simplification: removal of constraints that every
//! assignment satisfies.

use vstd::prelude::*;
use crate::export::Constraint;
use crate::version::numeral_value;

verus! {

/// Value of a linear combination under an assignment of values to signal ids;
/// coefficients are decimal text.
pub open spec fn eval(lc: Seq<(usize, String)>, w: spec_fn(usize) -> int) -> int
    decreases lc.len(),
{
    if lc.len() == 0 {
        0
    } else {
        eval(lc.drop_last(), w) + numeral_value(lc.last().1@) * w(lc.last().0)
    }
}

/// The assignment satisfies `a · b = c` modulo the prime `p`.
pub open spec fn satisfied(c: Constraint, w: spec_fn(usize) -> int, p: int) -> bool {
    (eval(c.a@, w) * eval(c.b@, w) - eval(c.c@, w)) % p == 0
}

/// The assignment satisfies every constraint of the list.
pub open spec fn all_satisfied(s: Seq<Constraint>, w: spec_fn(usize) -> int, p: int) -> bool
    decreases s.len(),
{
    if s.len() == 0 {
        true
    } else {
        all_satisfied(s.drop_last(), w, p) && satisfied(s.last(), w, p)
    }
}

/// `0 · b = 0` or `a · 0 = 0`: satisfied by every assignment.
pub open spec fn is_trivial(c: Constraint) -> bool {
    (c.a@.len() == 0 || c.b@.len() == 0) && c.c@.len() == 0
}

/// The constraints of the list that are not trivial, in order.
pub open spec fn nontrivial(s: Seq<Constraint>) -> Seq<Constraint>
    decreases s.len(),
{
    if s.len() == 0 {
        s
    } else if is_trivial(s.last()) {
        nontrivial(s.drop_last())
    } else {
        nontrivial(s.drop_last()).push(s.last())
    }
}

/// Whether the constraint is satisfied by every assignment because one factor
/// and the right-hand side are empty.
pub fn constraint_is_trivial(c: &Constraint) -> (r: bool)
    ensures
        r == is_trivial(*c),
{
    (c.a.len() == 0 || c.b.len() == 0) && c.c.len() == 0
}

/// Drops the trivially satisfied constraints, keeping the others in order.
pub fn remove_trivial_constraints(constraints: Vec<Constraint>) -> (r: Vec<Constraint>)
    ensures
        r@ == nontrivial(constraints@),
{
    let ghost all = constraints@;
    proof {
        assert(all.len() == constraints.len());
    }
    let mut rest = constraints;
    let mut kept: Vec<Constraint> = Vec::new();
    let mut k: usize = 0;
    proof {
        assert(all.subrange(0, 0) =~= Seq::<Constraint>::empty());
        assert(all.subrange(0, all.len() as int) =~= all);
    }
    while rest.len() > 0
        invariant
            0 <= k <= all.len(),
            all.len() <= usize::MAX,
            rest@ == all.subrange(k as int, all.len() as int),
            kept@ == nontrivial(all.subrange(0, k as int)),
        decreases rest@.len(),
    {
        let c = rest.remove(0);
        proof {
            assert(c == all[k as int]);
            assert(rest@ =~= all.subrange(k as int + 1, all.len() as int));
            assert(all.subrange(0, k as int + 1).drop_last() =~= all.subrange(0, k as int));
        }
        if !constraint_is_trivial(&c) {
            kept.push(c);
        }
        k = k + 1;
    }
    proof {
        assert(all.subrange(0, k as int) =~= all);
    }
    kept
}

/// Dropping trivially satisfied constraints keeps exactly the same set of
/// satisfying assignments, for every prime, and never increases the number of
/// constraints.
pub proof fn lemma_remove_trivial_sound(s: Seq<Constraint>, w: spec_fn(usize) -> int, p: int)
    requires
        p > 1,
    ensures
        all_satisfied(nontrivial(s), w, p) <==> all_satisfied(s, w, p),
        nontrivial(s).len() <= s.len(),
    decreases s.len(),
{
    if s.len() > 0 {
        lemma_remove_trivial_sound(s.drop_last(), w, p);
        let c = s.last();
        if is_trivial(c) {
            let x = eval(c.a@, w);
            let y = eval(c.b@, w);
            assert(x * y == 0) by (nonlinear_arith)
                requires
                    x == 0 || y == 0,
            ;
            assert(eval(c.c@, w) == 0);
            assert((x * y - eval(c.c@, w)) % p == 0) by (nonlinear_arith)
                requires
                    x * y == 0,
                    eval(c.c@, w) == 0,
                    p > 1,
            ;
            assert(satisfied(c, w, p));
        } else {
            let n = nontrivial(s.drop_last()).push(c);
            assert(n.drop_last() =~= nontrivial(s.drop_last()));
        }
    }
}

} // verus!
