//! The dependency graph of deduplicated instances and its aggregate statistics.

use vstd::prelude::*;
use crate::registry::{ExecutedProgram, ExecutedTemplate, SubcomponentEdge, routes_fit};
use crate::slice::{dims_product, number_of_cells};

verus! {

/// One deduplicated instance in the dependency graph.
#[derive(Clone, Debug)]
pub struct DagNode {
    pub number_of_inputs: usize,
    pub number_of_outputs: usize,
    pub number_of_intermediates: usize,
    /// Sub-component index slots the instance reserves, created or not.
    pub number_of_subcomponents_indexes: usize,
    /// Children, each with the number of times it is created here.
    pub edges: Vec<SubcomponentEdge>,
}

/// The dependency graph; the main instance is the last node.
#[derive(Clone, Debug)]
pub struct Dag {
    pub nodes: Vec<DagNode>,
}

/// Summary of a compilation, aggregated over every created component.
#[derive(Clone, Copy, Debug, PartialEq, Eq, Structural)]
pub struct Stats {
    pub all_signals: usize,
    pub io_signals: usize,
    pub all_created_components: usize,
    pub all_needed_subcomponents_indexes: usize,
}

/// Which quantity a statistic aggregates.
#[derive(Clone, Copy, Debug, PartialEq, Eq, Structural)]
pub enum StatKind {
    Signals,
    IoSignals,
    CreatedComponents,
    SubcomponentIndexes,
}

/// The contribution of one node on its own.
pub open spec fn own_value(n: DagNode, kind: StatKind) -> int {
    match kind {
        StatKind::Signals => n.number_of_inputs + n.number_of_outputs + n.number_of_intermediates,
        StatKind::IoSignals => n.number_of_inputs + n.number_of_outputs,
        StatKind::CreatedComponents => 1,
        StatKind::SubcomponentIndexes => n.number_of_subcomponents_indexes as int,
    }
}

/// The statistic of node `i` together with everything it creates, counting a
/// child once per creation.
pub open spec fn stat(g: Seq<DagNode>, kind: StatKind, i: int) -> int
    decreases i, 1int,
{
    if 0 <= i < g.len() {
        own_value(g[i], kind) + edges_total(g, kind, i, g[i].edges@.len() as int)
    } else {
        0
    }
}

/// Sum over the first `k` edges of node `i` of multiplicity times the child's statistic.
pub open spec fn edges_total(g: Seq<DagNode>, kind: StatKind, i: int, k: int) -> int
    decreases i, 0int, k,
{
    if 0 <= i < g.len() && 0 < k <= g[i].edges@.len() {
        let e = g[i].edges@[k - 1];
        edges_total(g, kind, i, k - 1) + if 0 <= e.goes_to < i {
            e.multiplicity * stat(g, kind, e.goes_to as int)
        } else {
            0
        }
    } else {
        0
    }
}

/// Children come before their parents.
pub open spec fn topologically_ordered(g: Seq<DagNode>) -> bool {
    forall|i: int, k: int|
        0 <= i < g.len() && 0 <= k < g[i].edges@.len() ==> (#[trigger] g[i].edges@[k]).goes_to < i
}

proof fn lemma_stat_nonneg(g: Seq<DagNode>, kind: StatKind, i: int)
    ensures
        stat(g, kind, i) >= 0,
    decreases i, 1int,
{
    if 0 <= i < g.len() {
        lemma_edges_total_monotone(g, kind, i, 0, g[i].edges@.len() as int);
    }
}

proof fn lemma_edges_total_monotone(g: Seq<DagNode>, kind: StatKind, i: int, j: int, k: int)
    requires
        0 <= j <= k,
        0 <= i < g.len() ==> k <= g[i].edges@.len(),
    ensures
        0 <= edges_total(g, kind, i, j) <= edges_total(g, kind, i, k),
    decreases i, 0int, k,
{
    if 0 <= i < g.len() && 0 < k <= g[i].edges@.len() {
        let e = g[i].edges@[k - 1];
        if j < k {
            lemma_edges_total_monotone(g, kind, i, j, k - 1);
        } else {
            lemma_edges_total_monotone(g, kind, i, k - 1, k - 1);
        }
        if 0 <= e.goes_to < i {
            lemma_stat_nonneg(g, kind, e.goes_to as int);
            let m = e.multiplicity as int;
            let s = stat(g, kind, e.goes_to as int);
            assert(m * s >= 0) by (nonlinear_arith)
                requires
                    m >= 0,
                    s >= 0,
            ;
        }
    }
}

/// Total number of cells of a list of signals.
pub open spec fn total_cells(r: Seq<(String, Vec<usize>)>) -> nat
    decreases r.len(),
{
    if r.len() == 0 {
        0
    } else {
        total_cells(r.drop_last()) + dims_product(r.last().1@)
    }
}

/// Every signal list of every instance has a cell total that fits in memory.
pub open spec fn cells_fit(m: Seq<ExecutedTemplate>) -> bool {
    forall|i: int|
        0 <= i < m.len() ==> {
            let t = #[trigger] m[i];
            &&& total_cells(t.inputs@) + total_cells(t.outputs@) + total_cells(t.intermediates@)
                <= usize::MAX
        }
}

/// Every child of every instance was registered before it.
pub open spec fn children_first(m: Seq<ExecutedTemplate>) -> bool {
    forall|i: int, k: int|
        0 <= i < m.len() && 0 <= k < m[i].subcomponents@.len() ==> (#[trigger] m[i].subcomponents@[k]).goes_to
            < i
}

/// The graph node of instance `t`.
pub open spec fn node_of(n: DagNode, t: ExecutedTemplate) -> bool {
    &&& n.number_of_inputs == total_cells(t.inputs@)
    &&& n.number_of_outputs == total_cells(t.outputs@)
    &&& n.number_of_intermediates == total_cells(t.intermediates@)
    &&& n.number_of_subcomponents_indexes == t.subcomponent_slots
    &&& n.edges@ == t.subcomponents@
}

fn count_cells(r: &Vec<(String, Vec<usize>)>) -> (n: usize)
    requires
        routes_fit(r@),
        total_cells(r@) <= usize::MAX,
    ensures
        n == total_cells(r@),
{
    let mut n: usize = 0;
    let mut k: usize = 0;
    while k < r.len()
        invariant
            0 <= k <= r@.len(),
            routes_fit(r@),
            total_cells(r@) <= usize::MAX,
            n == total_cells(r@.subrange(0, k as int)),
        decreases r@.len() - k,
    {
        proof {
            let p = r@.subrange(0, k as int + 1);
            assert(p.drop_last() =~= r@.subrange(0, k as int));
            lemma_total_cells_prefix(r@, k as int + 1);
            assert(dims_product(r@[k as int].1@) <= usize::MAX);
        }
        n = n + number_of_cells(&r[k].1);
        k = k + 1;
    }
    proof {
        assert(r@.subrange(0, r@.len() as int) =~= r@);
    }
    n
}

proof fn lemma_total_cells_prefix(r: Seq<(String, Vec<usize>)>, k: int)
    requires
        0 <= k <= r.len(),
    ensures
        total_cells(r.subrange(0, k)) <= total_cells(r),
    decreases r.len() - k,
{
    if k < r.len() {
        lemma_total_cells_prefix(r, k + 1);
        assert(r.subrange(0, k + 1).drop_last() =~= r.subrange(0, k));
    } else {
        assert(r.subrange(0, k) =~= r);
    }
}

fn clone_edges(e: &Vec<SubcomponentEdge>) -> (r: Vec<SubcomponentEdge>)
    ensures
        r@ == e@,
{
    let mut r: Vec<SubcomponentEdge> = Vec::new();
    let mut i: usize = 0;
    while i < e.len()
        invariant
            0 <= i <= e@.len(),
            r@ == e@.subrange(0, i as int),
        decreases e@.len() - i,
    {
        r.push(e[i]);
        i = i + 1;
        proof {
            assert(r@ =~= e@.subrange(0, i as int));
        }
    }
    proof {
        assert(e@.subrange(0, e@.len() as int) =~= e@);
    }
    r
}

/// The dependency graph of a registry: one node per instance, in registry
/// order, carrying its signal counts and its sub-component edges.
pub fn build_dag(program: &ExecutedProgram) -> (r: Dag)
    requires
        program.wf(),
        cells_fit(program.model@),
        forall|i: int| 0 <= i < program.model@.len() ==> routes_fit((#[trigger] program.model@[i]).intermediates@),
    ensures
        r.nodes@.len() == program.model@.len(),
        forall|i: int| 0 <= i < r.nodes@.len() ==> node_of(#[trigger] r.nodes@[i], program.model@[i]),
        children_first(program.model@) ==> topologically_ordered(r.nodes@),
{
    let mut nodes: Vec<DagNode> = Vec::new();
    let mut i: usize = 0;
    while i < program.model.len()
        invariant
            0 <= i <= program.model@.len(),
            program.wf(),
            cells_fit(program.model@),
            forall|j: int| 0 <= j < program.model@.len() ==> routes_fit((#[trigger] program.model@[j]).intermediates@),
            nodes@.len() == i,
            forall|j: int| 0 <= j < i ==> node_of(#[trigger] nodes@[j], program.model@[j]),
        decreases program.model@.len() - i,
    {
        let t = &program.model[i];
        proof {
            assert(t.wf());
            assert(total_cells(t.inputs@) + total_cells(t.outputs@) + total_cells(t.intermediates@) <= usize::MAX);
            assert(routes_fit(t.intermediates@));
        }
        let node = DagNode {
            number_of_inputs: count_cells(&t.inputs),
            number_of_outputs: count_cells(&t.outputs),
            number_of_intermediates: count_cells(&t.intermediates),
            number_of_subcomponents_indexes: t.subcomponent_slots,
            edges: clone_edges(&t.subcomponents),
        };
        nodes.push(node);
        i = i + 1;
    }
    let r = Dag { nodes };
    proof {
        if children_first(program.model@) {
            assert forall|a: int, k: int| 0 <= a < r.nodes@.len() && 0 <= k < r.nodes@[a].edges@.len()
                implies (#[trigger] r.nodes@[a].edges@[k]).goes_to < a by {
                assert(node_of(r.nodes@[a], program.model@[a]));
                assert(program.model@[a].subcomponents@[k].goes_to < a);
            }
        }
    }
    r
}

/// Pointwise "or" of two per-node flag lists: a node is in a mixed array if
/// either report says so.
pub fn merge_mixed(org: Vec<bool>, new: Vec<bool>) -> (r: Vec<bool>)
    requires
        new@.len() >= org@.len(),
    ensures
        r@.len() == org@.len(),
        forall|i: int| 0 <= i < r@.len() ==> #[trigger] r@[i] == (org@[i] || new@[i]),
{
    let mut result: Vec<bool> = Vec::new();
    let mut index: usize = 0;
    while index < org.len()
        invariant
            0 <= index <= org@.len(),
            new@.len() >= org@.len(),
            result@.len() == index,
            forall|i: int| 0 <= i < index ==> #[trigger] result@[i] == (org@[i] || new@[i]),
        decreases org@.len() - index,
    {
        result.push(org[index] || new[index]);
        index = index + 1;
    }
    result
}

/// The positions of the nodes flagged as instantiated in mixed arrays, in
/// increasing order.
pub fn templates_in_mixed(mixed: &Vec<bool>) -> (r: Vec<usize>)
    ensures
        forall|i: int, j: int| 0 <= i < j < r@.len() ==> #[trigger] r@[i] < #[trigger] r@[j],
        forall|i: int| 0 <= i < r@.len() ==> #[trigger] r@[i] < mixed@.len() && mixed@[r@[i] as int],
        forall|k: int| 0 <= k < mixed@.len() && #[trigger] mixed@[k] ==> r@.contains(k as usize),
{
    let mut r: Vec<usize> = Vec::new();
    let mut index: usize = 0;
    while index < mixed.len()
        invariant
            0 <= index <= mixed@.len(),
            forall|i: int, j: int| 0 <= i < j < r@.len() ==> #[trigger] r@[i] < #[trigger] r@[j],
            forall|i: int| 0 <= i < r@.len() ==> #[trigger] r@[i] < index && mixed@[r@[i] as int],
            forall|k: int| 0 <= k < index && #[trigger] mixed@[k] ==> r@.contains(k as usize),
        decreases mixed@.len() - index,
    {
        if mixed[index] {
            let ghost before = r@;
            r.push(index);
            proof {
                assert forall|k: int| 0 <= k < index + 1 && #[trigger] mixed@[k] implies r@.contains(k as usize) by {
                    if k < index {
                        let w = choose|w: int| 0 <= w < before.len() && before[w] == k as usize;
                        assert(r@[w] == k as usize);
                    } else {
                        assert(r@[before.len() as int] == index);
                    }
                }
            }
        }
        index = index + 1;
    }
    r
}

/// The own contribution of `n`, as a machine integer.
fn own_stat(n: &DagNode, kind: StatKind) -> (r: usize)
    requires
        own_value(*n, kind) <= usize::MAX,
    ensures
        r == own_value(*n, kind),
{
    match kind {
        StatKind::Signals => n.number_of_inputs + n.number_of_outputs + n.number_of_intermediates,
        StatKind::IoSignals => n.number_of_inputs + n.number_of_outputs,
        StatKind::CreatedComponents => 1,
        StatKind::SubcomponentIndexes => n.number_of_subcomponents_indexes,
    }
}

/// The statistic of every node, children first.
pub fn totals(g: &Vec<DagNode>, kind: StatKind) -> (r: Vec<usize>)
    requires
        topologically_ordered(g@),
        forall|i: int| 0 <= i < g@.len() ==> stat(g@, kind, i) <= usize::MAX,
    ensures
        r@.len() == g@.len(),
        forall|i: int| 0 <= i < g@.len() ==> #[trigger] r@[i] == stat(g@, kind, i),
{
    let mut r: Vec<usize> = Vec::new();
    let mut i: usize = 0;
    while i < g.len()
        invariant
            0 <= i <= g@.len(),
            topologically_ordered(g@),
            forall|j: int| 0 <= j < g@.len() ==> stat(g@, kind, j) <= usize::MAX,
            r@.len() == i,
            forall|j: int| 0 <= j < i ==> #[trigger] r@[j] == stat(g@, kind, j),
        decreases g@.len() - i,
    {
        let node = &g[i];
        let ghost full = g@[i as int].edges@.len() as int;
        proof {
            lemma_edges_total_monotone(g@, kind, i as int, 0, full);
            assert(stat(g@, kind, i as int) == own_value(*node, kind) + edges_total(g@, kind, i as int, full));
        }
        let mut acc = own_stat(node, kind);
        let mut k: usize = 0;
        while k < node.edges.len()
            invariant
                0 <= i < g@.len(),
                *node == g@[i as int],
                full == node.edges@.len(),
                0 <= k <= node.edges@.len(),
                topologically_ordered(g@),
                stat(g@, kind, i as int) <= usize::MAX,
                stat(g@, kind, i as int) == own_value(*node, kind) + edges_total(g@, kind, i as int, full),
                r@.len() == i,
                forall|j: int| 0 <= j < i ==> #[trigger] r@[j] == stat(g@, kind, j),
                acc == own_value(*node, kind) + edges_total(g@, kind, i as int, k as int),
            decreases node.edges@.len() - k,
        {
            let e = node.edges[k];
            proof {
                assert(e.goes_to < i);
                lemma_edges_total_monotone(g@, kind, i as int, k as int + 1, full);
                lemma_stat_nonneg(g@, kind, e.goes_to as int);
                lemma_edges_total_monotone(g@, kind, i as int, 0, k as int);
                let m = e.multiplicity as int;
                let s = stat(g@, kind, e.goes_to as int);
                assert(m * s >= 0) by (nonlinear_arith)
                    requires
                        m >= 0,
                        s >= 0,
                ;
            }
            let child = r[e.goes_to];
            acc = acc + e.multiplicity * child;
            k = k + 1;
        }
        r.push(acc);
        i = i + 1;
    }
    r
}

/// Statistics of the main instance (the last node), each aggregated over every
/// component it creates, directly or transitively.
pub fn produce_dags_stats(dag: &Dag) -> (r: Stats)
    requires
        dag.nodes@.len() > 0,
        topologically_ordered(dag.nodes@),
        forall|kind: StatKind, i: int|
            0 <= i < dag.nodes@.len() ==> #[trigger] stat(dag.nodes@, kind, i) <= usize::MAX,
    ensures
        r.all_signals == stat(dag.nodes@, StatKind::Signals, dag.nodes@.len() - 1),
        r.io_signals == stat(dag.nodes@, StatKind::IoSignals, dag.nodes@.len() - 1),
        r.all_created_components == stat(dag.nodes@, StatKind::CreatedComponents, dag.nodes@.len() - 1),
        r.all_needed_subcomponents_indexes == stat(
            dag.nodes@,
            StatKind::SubcomponentIndexes,
            dag.nodes@.len() - 1,
        ),
{
    let last = dag.nodes.len() - 1;
    let all_signals = totals(&dag.nodes, StatKind::Signals);
    let all_io = totals(&dag.nodes, StatKind::IoSignals);
    let all_created_cmp = totals(&dag.nodes, StatKind::CreatedComponents);
    let all_needed_subcomponents_indexes = totals(&dag.nodes, StatKind::SubcomponentIndexes);
    Stats {
        all_signals: all_signals[last],
        io_signals: all_io[last],
        all_created_components: all_created_cmp[last],
        all_needed_subcomponents_indexes: all_needed_subcomponents_indexes[last],
    }
}

} // verus!
