//! The instance registry: one node per distinct (template, concrete parameters)
//! pair, stored in an arena and addressed by index.

use vstd::prelude::*;
use crate::slice::dims_product;

verus! {

/// Index of an executed instance in the registry's arena.
pub type NodePointer = usize;

/// One concrete template parameter: its name and the values it was given,
/// each field element written as canonical decimal text.
#[derive(Clone, Debug)]
pub struct ParameterValue {
    pub name: String,
    pub values: Vec<String>,
}

/// A list of texts as plain values.
pub open spec fn texts_view(v: Seq<String>) -> Seq<Seq<char>> {
    v.map_values(|s: String| s@)
}

/// A parameter as plain values.
pub open spec fn parameter_view(p: ParameterValue) -> (Seq<char>, Seq<Seq<char>>) {
    (p.name@, texts_view(p.values@))
}

/// The evaluated parameter tuple of an instantiation, as plain values.
pub open spec fn context_view(c: Seq<ParameterValue>) -> Seq<(Seq<char>, Seq<Seq<char>>)> {
    c.map_values(|p: ParameterValue| parameter_view(p))
}

/// Edge to a sub-component node, with the number of times it was created.
#[derive(Clone, Copy, Debug, PartialEq, Eq, Structural)]
pub struct SubcomponentEdge {
    pub goes_to: NodePointer,
    pub multiplicity: usize,
}

/// The result of executing one template under concrete parameters.
#[derive(Clone, Debug)]
pub struct ExecutedTemplate {
    pub template_name: String,
    pub parameter_instances: Vec<ParameterValue>,
    /// Input signals with their concrete dimensions.
    pub inputs: Vec<(String, Vec<usize>)>,
    /// Output signals with their concrete dimensions.
    pub outputs: Vec<(String, Vec<usize>)>,
    /// Intermediate signals with their concrete dimensions.
    pub intermediates: Vec<(String, Vec<usize>)>,
    /// Sub-components created by this instance, one edge per distinct child.
    pub subcomponents: Vec<SubcomponentEdge>,
    /// Sub-component index slots reserved, including array slots that are
    /// never created.
    pub subcomponent_slots: usize,
}

/// Every shape in the list has a cell count that fits in memory.
pub open spec fn routes_fit(r: Seq<(String, Vec<usize>)>) -> bool {
    forall|i: int| 0 <= i < r.len() ==> dims_product((#[trigger] r[i]).1@) <= usize::MAX
}

/// No two entries of the list share a name.
pub open spec fn names_distinct<A>(s: Seq<(String, A)>) -> bool {
    forall|i: int, j: int|
        0 <= i < s.len() && 0 <= j < s.len() && i != j ==> (#[trigger] s[i]).0@ != (#[trigger] s[j]).0@
}

/// No name appears in both lists.
pub open spec fn names_disjoint<A, B>(s: Seq<(String, A)>, t: Seq<(String, B)>) -> bool {
    forall|i: int, j: int| 0 <= i < s.len() && 0 <= j < t.len() ==> (#[trigger] s[i]).0@ != (#[trigger] t[j]).0@
}

/// Edges point to distinct children.
pub open spec fn edges_distinct(e: Seq<SubcomponentEdge>) -> bool {
    forall|i: int, j: int|
        0 <= i < e.len() && 0 <= j < e.len() && i != j ==> (#[trigger] e[i]).goes_to
            != (#[trigger] e[j]).goes_to
}

/// How many times `child` was recorded, according to the edge list.
pub open spec fn edge_count(e: Seq<SubcomponentEdge>, child: NodePointer) -> int
    decreases e.len(),
{
    if e.len() == 0 {
        0
    } else {
        edge_count(e.drop_last(), child) + if e.last().goes_to == child {
            e.last().multiplicity as int
        } else {
            0
        }
    }
}

/// What identifies an instance: its template name and parameter values.
pub open spec fn instance_key(t: ExecutedTemplate) -> (Seq<char>, Seq<(Seq<char>, Seq<Seq<char>>)>) {
    (t.template_name@, context_view(t.parameter_instances@))
}

impl ExecutedTemplate {
    pub open spec fn wf(&self) -> bool {
        &&& routes_fit(self.inputs@)
        &&& routes_fit(self.outputs@)
        &&& names_distinct(self.inputs@)
        &&& names_distinct(self.outputs@)
        &&& names_disjoint(self.inputs@, self.outputs@)
        &&& edges_distinct(self.subcomponents@)
    }

    pub fn new(
        template_name: String,
        parameter_instances: Vec<ParameterValue>,
        inputs: Vec<(String, Vec<usize>)>,
        outputs: Vec<(String, Vec<usize>)>,
    ) -> (r: ExecutedTemplate)
        ensures
            r.template_name == template_name,
            r.parameter_instances == parameter_instances,
            r.inputs == inputs,
            r.outputs == outputs,
            r.intermediates@.len() == 0,
            r.subcomponents@.len() == 0,
            r.subcomponent_slots == 0,
    {
        ExecutedTemplate {
            template_name,
            parameter_instances,
            inputs,
            outputs,
            intermediates: Vec::new(),
            subcomponents: Vec::new(),
            subcomponent_slots: 0,
        }
    }

    pub fn template_name(&self) -> (r: &String)
        ensures
            r == self.template_name,
    {
        &self.template_name
    }

    pub fn parameter_instances(&self) -> (r: &Vec<ParameterValue>)
        ensures
            r == self.parameter_instances,
    {
        &self.parameter_instances
    }

    /// Whether this instance was produced by `name` under exactly `context`.
    pub fn is_equal(&self, name: &str, context: &Vec<ParameterValue>) -> (r: bool)
        ensures
            r == (instance_key(*self) == (name@, context_view(context@))),
    {
        let owned = name.to_owned();
        if self.template_name != owned {
            return false;
        }
        contexts_equal(&self.parameter_instances, context)
    }

    /// Records one more creation of `child` as a sub-component; repeated
    /// creations of the same child share one edge whose multiplicity grows.
    pub fn add_subcomponent(&mut self, child: NodePointer)
        requires
            old(self).wf(),
            edge_count(old(self).subcomponents@, child) < usize::MAX,
        ensures
            final(self).wf(),
            final(self).template_name == old(self).template_name,
            final(self).parameter_instances == old(self).parameter_instances,
            final(self).inputs == old(self).inputs,
            final(self).outputs == old(self).outputs,
            final(self).intermediates == old(self).intermediates,
            final(self).subcomponent_slots == old(self).subcomponent_slots,
            ({
                let e = old(self).subcomponents@;
                let f = final(self).subcomponents@;
                ||| exists|i: int|
                    0 <= i < e.len() && (#[trigger] e[i]).goes_to == child && f == e.update(
                        i,
                        SubcomponentEdge { goes_to: child, multiplicity: (e[i].multiplicity + 1) as usize },
                    )
                ||| (forall|i: int| 0 <= i < e.len() ==> (#[trigger] e[i]).goes_to != child) && f == e.push(
                    SubcomponentEdge { goes_to: child, multiplicity: 1 },
                )
            }),
            forall|c: NodePointer|
                #![trigger edge_count(final(self).subcomponents@, c)]
                edge_count(final(self).subcomponents@, c) == edge_count(old(self).subcomponents@, c)
                    + if c == child {
                    1int
                } else {
                    0int
                },
    {
        let mut i: usize = 0;
        while i < self.subcomponents.len()
            invariant
                0 <= i <= self.subcomponents@.len(),
                *self == *old(self),
                old(self).wf(),
                edge_count(self.subcomponents@, child) < usize::MAX,
                forall|j: int| 0 <= j < i ==> (#[trigger] self.subcomponents@[j]).goes_to != child,
            decreases self.subcomponents@.len() - i,
        {
            if self.subcomponents[i].goes_to == child {
                proof {
                    lemma_edge_count_at(self.subcomponents@, i as int);
                }
                let e = self.subcomponents[i];
                let ghost before = self.subcomponents@;
                self.subcomponents.set(i, SubcomponentEdge { goes_to: child, multiplicity: e.multiplicity + 1 });
                proof {
                    assert forall|c: NodePointer| #![trigger edge_count(self.subcomponents@, c)]
                        edge_count(self.subcomponents@, c) == edge_count(before, c)
                            + if c == child { 1int } else { 0int } by {
                        lemma_edge_count_update(before, i as int, c, self.subcomponents@[i as int]);
                    }
                    assert forall|a: int, b: int|
                        0 <= a < self.subcomponents@.len() && 0 <= b < self.subcomponents@.len() && a != b
                        implies (#[trigger] self.subcomponents@[a]).goes_to != (#[trigger] self.subcomponents@[b]).goes_to by {
                        assert(before[a].goes_to != before[b].goes_to);
                    }
                }
                return;
            }
            i = i + 1;
        }
        let ghost before = self.subcomponents@;
        self.subcomponents.push(SubcomponentEdge { goes_to: child, multiplicity: 1 });
        proof {
            assert(self.subcomponents@.drop_last() =~= before);
            assert forall|c: NodePointer| #![trigger edge_count(self.subcomponents@, c)]
                edge_count(self.subcomponents@, c) == edge_count(before, c)
                    + if c == child { 1int } else { 0int } by {
            }
        }
    }
}

proof fn lemma_edge_count_at(e: Seq<SubcomponentEdge>, i: int)
    requires
        0 <= i < e.len(),
        edges_distinct(e),
    ensures
        edge_count(e, e[i].goes_to) == e[i].multiplicity,
    decreases e.len(),
{
    let c = e[i].goes_to;
    if i < e.len() - 1 {
        assert(e.last().goes_to != c) by {
            assert(e[e.len() - 1].goes_to != e[i].goes_to);
        }
        let d = e.drop_last();
        assert(edges_distinct(d)) by {
            assert forall|a: int, b: int| 0 <= a < d.len() && 0 <= b < d.len() && a != b
                implies (#[trigger] d[a]).goes_to != (#[trigger] d[b]).goes_to by {
                assert(e[a].goes_to != e[b].goes_to);
            }
        }
        lemma_edge_count_at(d, i);
    } else {
        lemma_edge_count_absent(e.drop_last(), c);
    }
}

proof fn lemma_edge_count_absent(e: Seq<SubcomponentEdge>, c: NodePointer)
    requires
        forall|j: int| 0 <= j < e.len() ==> (#[trigger] e[j]).goes_to != c,
    ensures
        edge_count(e, c) == 0,
    decreases e.len(),
{
    if e.len() > 0 {
        assert(e.last().goes_to != c) by {
            assert(e[e.len() - 1].goes_to != c);
        }
        lemma_edge_count_absent(e.drop_last(), c);
    }
}

proof fn lemma_edge_count_update(e: Seq<SubcomponentEdge>, i: int, c: NodePointer, x: SubcomponentEdge)
    requires
        0 <= i < e.len(),
        x.goes_to == e[i].goes_to,
    ensures
        edge_count(e.update(i, x), c) == edge_count(e, c) + if c == x.goes_to {
            x.multiplicity - e[i].multiplicity
        } else {
            0
        },
    decreases e.len(),
{
    let u = e.update(i, x);
    if i < e.len() - 1 {
        assert(u.drop_last() =~= e.drop_last().update(i, x));
        lemma_edge_count_update(e.drop_last(), i, c, x);
    } else {
        assert(u.drop_last() =~= e.drop_last());
    }
}

/// No two nodes of the arena share a key.
pub open spec fn keys_distinct(m: Seq<ExecutedTemplate>) -> bool {
    forall|i: int, j: int|
        0 <= i < m.len() && 0 <= j < m.len() && i != j ==> instance_key(#[trigger] m[i])
            != instance_key(#[trigger] m[j])
}

/// Some node of the arena has key `k`.
pub open spec fn has_key(
    m: Seq<ExecutedTemplate>,
    k: (Seq<char>, Seq<(Seq<char>, Seq<Seq<char>>)>),
) -> bool {
    exists|i: int| 0 <= i < m.len() && instance_key(#[trigger] m[i]) == k
}

/// The arena and the node pointer that result from registering `node` in `m`:
/// the existing node of equal key, or `node` appended at the end.
pub open spec fn resolve(m: Seq<ExecutedTemplate>, node: ExecutedTemplate) -> (
    Seq<ExecutedTemplate>,
    int,
) {
    if has_key(m, instance_key(node)) {
        (m, choose|i: int| 0 <= i < m.len() && instance_key(#[trigger] m[i]) == instance_key(node))
    } else {
        (m.push(node), m.len() as int)
    }
}

/// All executed instances of a compilation, deduplicated by key.
#[derive(Debug)]
pub struct ExecutedProgram {
    pub model: Vec<ExecutedTemplate>,
    pub prime: String,
}

impl ExecutedProgram {
    pub open spec fn wf(&self) -> bool {
        &&& keys_distinct(self.model@)
        &&& forall|i: int| 0 <= i < self.model@.len() ==> (#[trigger] self.model@[i]).wf()
    }

    pub fn new(prime: &str) -> (r: ExecutedProgram)
        ensures
            r.wf(),
            r.model@.len() == 0,
            r.prime@ == prime@,
    {
        ExecutedProgram { model: Vec::new(), prime: prime.to_owned() }
    }

    /// The node already registered for `name` under `context`, if any.
    pub fn identify_node(&self, name: &str, context: &Vec<ParameterValue>) -> (r: Option<NodePointer>)
        requires
            self.wf(),
        ensures
            r is None <==> !has_key(self.model@, (name@, context_view(context@))),
            r is Some ==> r->0 < self.model@.len() && instance_key(self.model@[r->0 as int]) == (
                name@,
                context_view(context@),
            ),
    {
        let mut index: usize = 0;
        while index < self.model.len()
            invariant
                0 <= index <= self.model@.len(),
                forall|j: int|
                    0 <= j < index ==> instance_key(#[trigger] self.model@[j]) != (
                        name@,
                        context_view(context@),
                    ),
            decreases self.model@.len() - index,
        {
            if self.model[index].is_equal(name, context) {
                return Some(index);
            }
            index = index + 1;
        }
        None
    }

    pub fn number_of_nodes(&self) -> (r: usize)
        ensures
            r == self.model@.len(),
    {
        self.model.len()
    }

    pub fn get_node(&self, node_pointer: NodePointer) -> (r: Option<&ExecutedTemplate>)
        ensures
            r is Some <==> node_pointer < self.model@.len(),
            r is Some ==> *r->0 == self.model@[node_pointer as int],
    {
        if node_pointer >= self.model.len() {
            return None;
        }
        Some(&self.model[node_pointer])
    }

    /// Registers an executed instance and returns its node pointer: the existing
    /// node when one with the same template and parameters is already there.
    pub fn add_node_to_scheme(&mut self, node: ExecutedTemplate) -> (r: NodePointer)
        requires
            old(self).wf(),
            node.wf(),
        ensures
            final(self).wf(),
            final(self).prime == old(self).prime,
            (final(self).model@, r as int) == resolve(old(self).model@, node),
    {
        let ghost m = self.model@;
        let possible_index = self.identify_node(node.template_name(), node.parameter_instances());
        if let Some(index) = possible_index {
            proof {
                let c = choose|i: int| 0 <= i < m.len() && instance_key(#[trigger] m[i]) == instance_key(node);
                assert(instance_key(m[c]) == instance_key(m[index as int]));
            }
            return index;
        }
        let node_index = self.model.len();
        self.model.push(node);
        proof {
            assert forall|i: int, j: int|
                0 <= i < self.model@.len() && 0 <= j < self.model@.len() && i != j
                implies instance_key(#[trigger] self.model@[i]) != instance_key(#[trigger] self.model@[j]) by {
                if i < m.len() && j < m.len() {
                    assert(instance_key(m[i]) != instance_key(m[j]));
                } else if i < m.len() {
                    assert(self.model@[i] == m[i]);
                } else {
                    assert(self.model@[j] == m[j]);
                }
            }
            assert forall|i: int| 0 <= i < self.model@.len() implies (#[trigger] self.model@[i]).wf() by {
                if i < m.len() {
                    assert(self.model@[i] == m[i]);
                }
            }
        }
        node_index
    }
}

/// Registering keeps keys distinct.
pub proof fn lemma_resolve_keeps_keys_distinct(m: Seq<ExecutedTemplate>, node: ExecutedTemplate)
    requires
        keys_distinct(m),
    ensures
        keys_distinct(resolve(m, node).0),
        0 <= resolve(m, node).1 < resolve(m, node).0.len(),
        instance_key(resolve(m, node).0[resolve(m, node).1]) == instance_key(node),
{
    if !has_key(m, instance_key(node)) {
        let n = m.push(node);
        assert forall|i: int, j: int|
            0 <= i < n.len() && 0 <= j < n.len() && i != j
            implies instance_key(#[trigger] n[i]) != instance_key(#[trigger] n[j]) by {
            if i < m.len() && j < m.len() {
                assert(instance_key(m[i]) != instance_key(m[j]));
            } else if i < m.len() {
                assert(n[i] == m[i]);
            } else {
                assert(n[j] == m[j]);
            }
        }
        assert(n[m.len() as int] == node);
    }
}

/// Instantiating a template twice with pointwise-equal parameters yields the
/// same node pointer; with any differing parameter (or template) it yields a
/// distinct one.
pub proof fn lemma_dedup_idempotence(m: Seq<ExecutedTemplate>, a: ExecutedTemplate, b: ExecutedTemplate)
    requires
        keys_distinct(m),
    ensures
        (resolve(resolve(m, a).0, b).1 == resolve(m, a).1) <==> (instance_key(a) == instance_key(b)),
{
    lemma_resolve_keeps_keys_distinct(m, a);
    let (m1, r1) = resolve(m, a);
    lemma_resolve_keeps_keys_distinct(m1, b);
    let (m2, r2) = resolve(m1, b);
    if instance_key(a) == instance_key(b) {
        assert(has_key(m1, instance_key(b)));
        assert(m2 == m1);
        assert(instance_key(m1[r2]) == instance_key(m1[r1]));
    } else {
        if has_key(m1, instance_key(b)) {
            assert(instance_key(m1[r2]) != instance_key(m1[r1]));
        }
    }
}

/// Pointwise equality of two lists of decimal texts.
fn texts_equal(a: &Vec<String>, b: &Vec<String>) -> (r: bool)
    ensures
        r == (texts_view(a@) == texts_view(b@)),
{
    if a.len() != b.len() {
        proof {
            assert(texts_view(a@).len() != texts_view(b@).len());
        }
        return false;
    }
    let mut i: usize = 0;
    while i < a.len()
        invariant
            0 <= i <= a@.len(),
            a@.len() == b@.len(),
            forall|j: int| 0 <= j < i ==> (#[trigger] a@[j])@ == b@[j]@,
        decreases a@.len() - i,
    {
        if a[i] != b[i] {
            proof {
                assert(texts_view(a@)[i as int] != texts_view(b@)[i as int]);
            }
            return false;
        }
        i = i + 1;
    }
    proof {
        assert(texts_view(a@) =~= texts_view(b@));
    }
    true
}

/// Pointwise equality of two parameter tuples.
pub fn contexts_equal(a: &Vec<ParameterValue>, b: &Vec<ParameterValue>) -> (r: bool)
    ensures
        r == (context_view(a@) == context_view(b@)),
{
    if a.len() != b.len() {
        proof {
            assert(context_view(a@).len() != context_view(b@).len());
        }
        return false;
    }
    let mut i: usize = 0;
    while i < a.len()
        invariant
            0 <= i <= a@.len(),
            a@.len() == b@.len(),
            forall|j: int| 0 <= j < i ==> parameter_view(#[trigger] a@[j]) == parameter_view(b@[j]),
        decreases a@.len() - i,
    {
        if a[i].name != b[i].name || !texts_equal(&a[i].values, &b[i].values) {
            proof {
                assert(context_view(a@)[i as int] != context_view(b@)[i as int]);
            }
            return false;
        }
        i = i + 1;
    }
    proof {
        assert(context_view(a@) =~= context_view(b@));
    }
    true
}

} // verus!
