//! Assignment and readiness bookkeeping for one sub-component while its
//! parent instance is being executed.

use vstd::prelude::*;
use crate::registry::{names_disjoint, names_distinct, ExecutedProgram, ExecutedTemplate, NodePointer};
use crate::slice::{access_in_range, dims_product, lemma_row_major_injective, row_major, MemoryError, SignalSlice};

verus! {

/// Position of the first entry named `n`, or -1 when there is none.
pub open spec fn slot(s: Seq<(String, SignalSlice)>, n: Seq<char>) -> int
    decreases s.len(),
{
    if s.len() == 0 {
        -1
    } else {
        let r = slot(s.drop_last(), n);
        if r >= 0 {
            r
        } else if s.last().0@ == n {
            s.len() - 1
        } else {
            -1
        }
    }
}

proof fn lemma_slot_found(s: Seq<(String, SignalSlice)>, n: Seq<char>, i: int)
    requires
        0 <= i < s.len(),
        s[i].0@ == n,
        forall|j: int| 0 <= j < i ==> (#[trigger] s[j]).0@ != n,
    ensures
        slot(s, n) == i,
    decreases s.len(),
{
    if i < s.len() - 1 {
        lemma_slot_found(s.drop_last(), n, i);
    } else {
        lemma_slot_absent(s.drop_last(), n);
    }
}

proof fn lemma_slot_absent(s: Seq<(String, SignalSlice)>, n: Seq<char>)
    requires
        forall|j: int| 0 <= j < s.len() ==> (#[trigger] s[j]).0@ != n,
    ensures
        slot(s, n) == -1,
    decreases s.len(),
{
    if s.len() > 0 {
        assert(s.last().0@ != n) by {
            assert(s[s.len() - 1].0@ != n);
        }
        lemma_slot_absent(s.drop_last(), n);
    }
}

/// `slot` is -1 or the position of an entry with that name.
pub proof fn lemma_slot_range(s: Seq<(String, SignalSlice)>, n: Seq<char>)
    ensures
        -1 <= slot(s, n) < s.len(),
        slot(s, n) >= 0 ==> s[slot(s, n)].0@ == n,
    decreases s.len(),
{
    if s.len() > 0 {
        lemma_slot_range(s.drop_last(), n);
    }
}

/// The first entry named `n`, found by a scan from the front.
fn find_slot(s: &Vec<(String, SignalSlice)>, n: &String) -> (r: Option<usize>)
    ensures
        r is None <==> slot(s@, n@) < 0,
        r is Some ==> r->0 == slot(s@, n@),
{
    let mut i: usize = 0;
    while i < s.len()
        invariant
            0 <= i <= s@.len(),
            forall|j: int| 0 <= j < i ==> (#[trigger] s@[j]).0@ != n@,
        decreases s@.len() - i,
    {
        if s[i].0 == *n {
            proof {
                lemma_slot_found(s@, n@, i as int);
            }
            return Some(i);
        }
        i = i + 1;
    }
    proof {
        lemma_slot_absent(s@, n@);
    }
    None
}

/// Whether every cell of every slice in the list is set.
pub open spec fn all_set(s: Seq<(String, SignalSlice)>) -> bool {
    forall|i: int, j: int|
        0 <= i < s.len() && 0 <= j < s[i].1.cells@.len() ==> #[trigger] s[i].1.cells@[j]
}

fn all_cells_set(s: &Vec<(String, SignalSlice)>) -> (r: bool)
    ensures
        r == all_set(s@),
{
    let mut i: usize = 0;
    while i < s.len()
        invariant
            0 <= i <= s@.len(),
            forall|a: int, b: int|
                0 <= a < i && 0 <= b < s@[a].1.cells@.len() ==> #[trigger] s@[a].1.cells@[b],
        decreases s@.len() - i,
    {
        let cells = &s[i].1.cells;
        let mut j: usize = 0;
        while j < cells.len()
            invariant
                0 <= i < s@.len(),
                *cells == s@[i as int].1.cells,
                0 <= j <= cells@.len(),
                forall|a: int, b: int|
                    0 <= a < i && 0 <= b < s@[a].1.cells@.len() ==> #[trigger] s@[a].1.cells@[b],
                forall|b: int| 0 <= b < j ==> #[trigger] cells@[b],
            decreases cells@.len() - j,
        {
            if !cells[j] {
                return false;
            }
            j = j + 1;
        }
        i = i + 1;
    }
    true
}

/// State of a sub-component being driven by its parent.
#[derive(Clone, Debug)]
pub struct ComponentRepresentation {
    /// The resolved instance; set once, by `initialize_component`.
    pub node_pointer: Option<NodePointer>,
    /// Input signals with their "is assigned" flags.
    pub inputs: Vec<(String, SignalSlice)>,
    /// Output signals; every cell reports a computed value.
    pub outputs: Vec<(String, SignalSlice)>,
}

/// The outcome of reading `name` at `access` on component `c`.
pub open spec fn read_outcome(c: ComponentRepresentation, name: Seq<char>, access: Seq<usize>) -> Result<
    bool,
    MemoryError,
> {
    let i = slot(c.inputs@, name);
    let o = slot(c.outputs@, name);
    if c.node_pointer is None {
        Err(MemoryError::InvalidAccess)
    } else if o >= 0 && !all_set(c.inputs@) {
        Err(MemoryError::InvalidAccess)
    } else if i >= 0 {
        let s = c.inputs@[i].1;
        if access_in_range(s.dims@, access) {
            Ok(s.cell(access))
        } else {
            Err(MemoryError::InvalidAccess)
        }
    } else if o >= 0 {
        let s = c.outputs@[o].1;
        if access_in_range(s.dims@, access) {
            Ok(s.cell(access))
        } else {
            Err(MemoryError::InvalidAccess)
        }
    } else {
        Err(MemoryError::InvalidAccess)
    }
}

/// The outcome of assigning `name` at `access` on component `c`.
pub open spec fn assign_outcome(c: ComponentRepresentation, name: Seq<char>, access: Seq<usize>) -> Result<
    (),
    MemoryError,
> {
    match read_outcome(c, name, access) {
        Err(e) => Err(e),
        Ok(true) => Err(MemoryError::AssignmentError),
        Ok(false) => Ok(()),
    }
}

/// `d` is `c` with the input cell `name[access]` set and nothing else changed.
pub open spec fn assigned_from(
    c: ComponentRepresentation,
    d: ComponentRepresentation,
    name: Seq<char>,
    access: Seq<usize>,
) -> bool {
    let i = slot(c.inputs@, name);
    &&& d.node_pointer == c.node_pointer
    &&& d.outputs == c.outputs
    &&& d.inputs@.len() == c.inputs@.len()
    &&& 0 <= i < c.inputs@.len()
    &&& forall|k: int| 0 <= k < c.inputs@.len() && k != i ==> #[trigger] d.inputs@[k] == c.inputs@[k]
    &&& d.inputs@[i].0 == c.inputs@[i].0
    &&& d.inputs@[i].1.dims@ == c.inputs@[i].1.dims@
    &&& d.inputs@[i].1.cells@ == c.inputs@[i].1.cells@.update(
        row_major(c.inputs@[i].1.dims@, access),
        true,
    )
}

/// `c` is freshly bound to `node`: its signals have the node's names and shapes,
/// every input cell unassigned and every output cell computed.
pub open spec fn bound_to(c: ComponentRepresentation, node: ExecutedTemplate, np: NodePointer) -> bool {
    &&& c.wf()
    &&& c.node_pointer == Some(np)
    &&& c.inputs@.len() == node.inputs@.len()
    &&& c.outputs@.len() == node.outputs@.len()
    &&& forall|i: int|
        0 <= i < c.inputs@.len() ==> {
            let e = #[trigger] c.inputs@[i];
            &&& e.0@ == node.inputs@[i].0@
            &&& e.1.dims@ == node.inputs@[i].1@
            &&& forall|j: int| 0 <= j < e.1.cells@.len() ==> !#[trigger] e.1.cells@[j]
        }
    &&& forall|i: int|
        0 <= i < c.outputs@.len() ==> {
            let e = #[trigger] c.outputs@[i];
            &&& e.0@ == node.outputs@[i].0@
            &&& e.1.dims@ == node.outputs@[i].1@
        }
}

impl ComponentRepresentation {
    pub open spec fn wf(&self) -> bool {
        &&& forall|i: int| 0 <= i < self.inputs@.len() ==> (#[trigger] self.inputs@[i]).1.wf()
        &&& forall|i: int| 0 <= i < self.outputs@.len() ==> (#[trigger] self.outputs@[i]).1.wf()
        &&& all_set(self.outputs@)
        &&& names_distinct(self.inputs@)
        &&& names_distinct(self.outputs@)
        &&& names_disjoint(self.inputs@, self.outputs@)
    }

    /// Binds this component to a registered instance, copying the shapes of its
    /// inputs (all unassigned) and outputs (all computed); a component may be
    /// bound only once.
    pub fn initialize_component(
        component: &mut ComponentRepresentation,
        node_pointer: NodePointer,
        scheme: &ExecutedProgram,
    ) -> (r: Result<(), MemoryError>)
        requires
            scheme.wf(),
            old(component).node_pointer is None ==> node_pointer < scheme.model@.len(),
        ensures
            old(component).node_pointer is Some ==> r == Err::<(), MemoryError>(
                MemoryError::AssignmentError,
            ) && *final(component) == *old(component),
            old(component).node_pointer is None ==> r is Ok && bound_to(
                *final(component),
                scheme.model@[node_pointer as int],
                node_pointer,
            ),
    {
        if component.is_initialized() {
            return Err(MemoryError::AssignmentError);
        }
        let node = &scheme.model[node_pointer];
        let mut inputs: Vec<(String, SignalSlice)> = Vec::new();
        let mut k: usize = 0;
        while k < node.inputs.len()
            invariant
                0 <= k <= node.inputs@.len(),
                node.wf(),
                inputs@.len() == k,
                forall|i: int|
                    0 <= i < k ==> {
                        let e = #[trigger] inputs@[i];
                        &&& e.1.wf()
                        &&& e.0@ == node.inputs@[i].0@
                        &&& e.1.dims@ == node.inputs@[i].1@
                        &&& forall|j: int| 0 <= j < e.1.cells@.len() ==> !#[trigger] e.1.cells@[j]
                    },
            decreases node.inputs@.len() - k,
        {
            let route = &node.inputs[k];
            proof {
                assert(dims_product(node.inputs@[k as int].1@) <= usize::MAX);
            }
            let slice = SignalSlice::new_with_route(&route.1, false);
            inputs.push((route.0.clone(), slice));
            k = k + 1;
        }
        let mut outputs: Vec<(String, SignalSlice)> = Vec::new();
        let mut k: usize = 0;
        while k < node.outputs.len()
            invariant
                0 <= k <= node.outputs@.len(),
                node.wf(),
                outputs@.len() == k,
                all_set(outputs@),
                forall|i: int|
                    0 <= i < k ==> {
                        let e = #[trigger] outputs@[i];
                        &&& e.1.wf()
                        &&& e.0@ == node.outputs@[i].0@
                        &&& e.1.dims@ == node.outputs@[i].1@
                    },
            decreases node.outputs@.len() - k,
        {
            let route = &node.outputs[k];
            proof {
                assert(dims_product(node.outputs@[k as int].1@) <= usize::MAX);
            }
            let slice = SignalSlice::new_with_route(&route.1, true);
            let ghost before = outputs@;
            outputs.push((route.0.clone(), slice));
            proof {
                assert forall|a: int, b: int|
                    0 <= a < outputs@.len() && 0 <= b < outputs@[a].1.cells@.len()
                    implies #[trigger] outputs@[a].1.cells@[b] by {
                    if a < before.len() {
                        assert(before[a] == outputs@[a]);
                    }
                }
            }
            k = k + 1;
        }
        *component = ComponentRepresentation { node_pointer: Some(node_pointer), inputs, outputs };
        Ok(())
    }

    /// Whether the cell `signal_name[access]` holds a value. Outputs cannot be
    /// observed until every input cell of the component is assigned.
    pub fn signal_has_value(
        component: &ComponentRepresentation,
        signal_name: &str,
        access: &[usize],
    ) -> (r: Result<bool, MemoryError>)
        requires
            component.wf(),
        ensures
            r == read_outcome(*component, signal_name@, access@),
    {
        let slice = component.get_signal(signal_name)?;
        proof {
            lemma_slot_range(component.inputs@, signal_name@);
            lemma_slot_range(component.outputs@, signal_name@);
        }
        slice.get_single_value(access)
    }

    /// The slice of `signal_name`, under the same rules as reading one of its cells.
    pub fn get_signal(&self, signal_name: &str) -> (r: Result<&SignalSlice, MemoryError>)
        requires
            self.wf(),
        ensures
            ({
                let i = slot(self.inputs@, signal_name@);
                let o = slot(self.outputs@, signal_name@);
                let fails = self.node_pointer is None || (o >= 0 && !all_set(self.inputs@)) || (i
                    < 0 && o < 0);
                &&& r is Err <==> fails
                &&& r is Err ==> r->Err_0 == MemoryError::InvalidAccess
                &&& (r is Ok && i >= 0) ==> *r->Ok_0 == self.inputs@[i].1
                &&& (r is Ok && i < 0) ==> *r->Ok_0 == self.outputs@[o].1
            }),
            r is Ok ==> r->Ok_0.wf(),
    {
        if self.node_pointer.is_none() {
            return Err(MemoryError::InvalidAccess);
        }
        let name = signal_name.to_owned();
        let in_slot = find_slot(&self.inputs, &name);
        let out_slot = find_slot(&self.outputs, &name);
        proof {
            lemma_slot_range(self.inputs@, signal_name@);
            lemma_slot_range(self.outputs@, signal_name@);
        }
        if out_slot.is_some() && !all_cells_set(&self.inputs) {
            return Err(MemoryError::InvalidAccess);
        }
        match in_slot {
            Some(i) => Ok(&self.inputs[i].1),
            None => match out_slot {
                Some(o) => Ok(&self.outputs[o].1),
                None => Err(MemoryError::InvalidAccess),
            },
        }
    }

    /// Marks the input cell `signal_name[access]` as assigned; each cell may be
    /// assigned once.
    pub fn assign_value_to_signal(
        component: &mut ComponentRepresentation,
        signal_name: &str,
        access: &[usize],
    ) -> (r: Result<(), MemoryError>)
        requires
            old(component).wf(),
        ensures
            r == assign_outcome(*old(component), signal_name@, access@),
            final(component).wf(),
            r is Ok ==> assigned_from(*old(component), *final(component), signal_name@, access@),
            r is Err ==> *final(component) == *old(component),
    {
        let has_value = ComponentRepresentation::signal_has_value(component, signal_name, access)?;
        if has_value {
            return Err(MemoryError::AssignmentError);
        }
        let name = signal_name.to_owned();
        let ghost c = *component;
        proof {
            lemma_slot_range(c.inputs@, signal_name@);
            lemma_slot_range(c.outputs@, signal_name@);
        }
        let i = match find_slot(&component.inputs, &name) {
            Some(i) => i,
            None => {
                proof {
                    let o = slot(c.outputs@, signal_name@);
                    lemma_row_major_in(c.outputs@[o].1, access@);
                }
                return Err(MemoryError::AssignmentError);
            },
        };
        let mut entry = component.inputs.remove(i);
        let ghost old_entry = entry;
        let res = entry.1.set_single_value(access, true);
        component.inputs.insert(i, entry);
        proof {
            assert(res is Ok);
            assert(component.inputs@ =~= c.inputs@.update(i as int, entry));
            assert(old_entry == c.inputs@[i as int]);
            assert forall|k: int| 0 <= k < c.inputs@.len() && k != i implies #[trigger] component.inputs@[k]
                == c.inputs@[k] by {
            }
            assert forall|k: int| 0 <= k < component.inputs@.len() implies (#[trigger] component.inputs@[k]).1.wf() by {
                if k != i {
                    assert(component.inputs@[k] == c.inputs@[k]);
                }
            }
        }
        Ok(())
    }

    pub fn is_initialized(&self) -> (r: bool)
        ensures
            r == self.node_pointer is Some,
    {
        self.node_pointer.is_some()
    }
}

proof fn lemma_row_major_in(s: SignalSlice, a: Seq<usize>)
    requires
        s.wf(),
        access_in_range(s.dims@, a),
    ensures
        0 <= row_major(s.dims@, a) < s.cells@.len(),
{
    crate::slice::lemma_row_major_bound(s.dims@, a);
}

proof fn lemma_slot_same_names(s: Seq<(String, SignalSlice)>, t: Seq<(String, SignalSlice)>, n: Seq<char>)
    requires
        s.len() == t.len(),
        forall|k: int| 0 <= k < s.len() ==> (#[trigger] s[k]).0@ == t[k].0@,
    ensures
        slot(s, n) == slot(t, n),
    decreases s.len(),
{
    if s.len() > 0 {
        lemma_slot_same_names(s.drop_last(), t.drop_last(), n);
        assert(s.last().0@ == t.last().0@) by {
            assert(s[s.len() - 1].0@ == t[t.len() - 1].0@);
        }
    }
}

/// A name is an input or an output of a component, never both.
pub proof fn lemma_not_both(c: ComponentRepresentation, name: Seq<char>)
    requires
        c.wf(),
    ensures
        !(slot(c.inputs@, name) >= 0 && slot(c.outputs@, name) >= 0),
{
    lemma_slot_range(c.inputs@, name);
    lemma_slot_range(c.outputs@, name);
    if slot(c.inputs@, name) >= 0 && slot(c.outputs@, name) >= 0 {
        let i = slot(c.inputs@, name);
        let o = slot(c.outputs@, name);
        assert(c.inputs@[i].0@ != c.outputs@[o].0@);
    }
}

/// Assigning a cell never unsets another: an input cell that held a value
/// still holds one after any other successful assignment, and assigning it
/// again still fails with the assignment error.
pub proof fn lemma_assigned_cell_stays_set(
    c: ComponentRepresentation,
    d: ComponentRepresentation,
    other: Seq<char>,
    other_access: Seq<usize>,
    name: Seq<char>,
    access: Seq<usize>,
)
    requires
        c.wf(),
        assign_outcome(c, other, other_access) is Ok,
        assigned_from(c, d, other, other_access),
        read_outcome(c, name, access) == Ok::<bool, MemoryError>(true),
    ensures
        read_outcome(d, name, access) == Ok::<bool, MemoryError>(true),
        assign_outcome(d, name, access) == Err::<(), MemoryError>(MemoryError::AssignmentError),
{
    lemma_slot_range(c.inputs@, name);
    lemma_slot_range(c.inputs@, other);
    lemma_slot_range(c.outputs@, name);
    lemma_slot_range(c.outputs@, other);
    lemma_slot_same_names(c.inputs@, d.inputs@, name);
    lemma_not_both(c, name);
    lemma_not_both(c, other);
    let i = slot(c.inputs@, name);
    let j = slot(c.inputs@, other);
    lemma_row_major_in(c.inputs@[j].1, other_access);
    let rj = row_major(c.inputs@[j].1.dims@, other_access);
    assert(!c.inputs@[j].1.cells@[rj]);
    assert(!all_set(c.inputs@));
    assert(slot(c.outputs@, name) < 0);
    if i == j {
        let s = c.inputs@[i].1;
        lemma_row_major_in(s, access);
    }
}

/// Once an input cell has been assigned, a second assignment to it fails with
/// the assignment error.
pub proof fn lemma_second_assignment_fails(
    c: ComponentRepresentation,
    d: ComponentRepresentation,
    name: Seq<char>,
    access: Seq<usize>,
)
    requires
        c.wf(),
        assign_outcome(c, name, access) is Ok,
        assigned_from(c, d, name, access),
    ensures
        assign_outcome(d, name, access) == Err::<(), MemoryError>(MemoryError::AssignmentError),
{
    lemma_slot_range(c.inputs@, name);
    lemma_slot_range(c.outputs@, name);
    lemma_slot_same_names(c.inputs@, d.inputs@, name);
    lemma_not_both(c, name);
    let i = slot(c.inputs@, name);
    lemma_row_major_in(c.inputs@[i].1, access);
}

/// Reading an output cell fails with the access error while any input cell of
/// the component is unassigned, and yields a value once all of them are.
pub proof fn lemma_readiness(c: ComponentRepresentation, name: Seq<char>, access: Seq<usize>)
    requires
        c.wf(),
        c.node_pointer is Some,
        slot(c.outputs@, name) >= 0,
    ensures
        !all_set(c.inputs@) ==> read_outcome(c, name, access) == Err::<bool, MemoryError>(
            MemoryError::InvalidAccess,
        ),
        all_set(c.inputs@) && access_in_range(c.outputs@[slot(c.outputs@, name)].1.dims@, access)
            ==> read_outcome(c, name, access) == Ok::<bool, MemoryError>(true),
{
    lemma_slot_range(c.outputs@, name);
    lemma_not_both(c, name);
    let o = slot(c.outputs@, name);
    if access_in_range(c.outputs@[o].1.dims@, access) {
        lemma_row_major_in(c.outputs@[o].1, access);
    }
}

/// One step of a run of assignments: `d` follows from `c` by assigning `call`,
/// and equals `c` when that assignment fails.
pub open spec fn trace_step(c: ComponentRepresentation, d: ComponentRepresentation, call: (Seq<char>, Seq<usize>)) -> bool {
    if assign_outcome(c, call.0, call.1) is Ok {
        assigned_from(c, d, call.0, call.1)
    } else {
        d == c
    }
}

/// `states[k + 1]` follows from `states[k]` by the assignment `calls[k]`.
pub open spec fn assignment_trace(states: Seq<ComponentRepresentation>, calls: Seq<(Seq<char>, Seq<usize>)>) -> bool {
    &&& states.len() == calls.len() + 1
    &&& forall|k: int| 0 <= k < calls.len() ==> #[trigger] trace_step(states[k], states[k + 1], calls[k])
}

/// No input cell of `c` is assigned.
pub open spec fn none_assigned(c: ComponentRepresentation) -> bool {
    forall|i: int, j: int|
        0 <= i < c.inputs@.len() && 0 <= j < c.inputs@[i].1.cells@.len() ==> !#[trigger] c.inputs@[i].1.cells@[j]
}

/// `call` names an input signal of `c` and an in-range cell of it.
pub open spec fn input_cell(c: ComponentRepresentation, call: (Seq<char>, Seq<usize>)) -> bool {
    slot(c.inputs@, call.0) >= 0 && access_in_range(c.inputs@[slot(c.inputs@, call.0)].1.dims@, call.1)
}

/// `call` targets flat cell `idx` of input `i` of `c`.
pub open spec fn hits(c: ComponentRepresentation, call: (Seq<char>, Seq<usize>), i: int, idx: int) -> bool {
    slot(c.inputs@, call.0) == i && row_major(c.inputs@[i].1.dims@, call.1) == idx
}

/// After the first `k` assignments of a run, a cell is set exactly when one of
/// them targeted it, and the shapes are those of the first state.
pub open spec fn trace_inv(states: Seq<ComponentRepresentation>, calls: Seq<(Seq<char>, Seq<usize>)>, k: int) -> bool {
    let c0 = states[0];
    let c = states[k];
    &&& c.wf()
    &&& c.node_pointer == c0.node_pointer
    &&& c.outputs == c0.outputs
    &&& c.inputs@.len() == c0.inputs@.len()
    &&& forall|i: int| 0 <= i < c.inputs@.len() ==> (#[trigger] c.inputs@[i]).0@ == c0.inputs@[i].0@
        && c.inputs@[i].1.dims@ == c0.inputs@[i].1.dims@
    &&& forall|i: int, idx: int| 0 <= i < c.inputs@.len() && 0 <= idx < c.inputs@[i].1.cells@.len()
        ==> (#[trigger] c.inputs@[i].1.cells@[idx] <==> exists|j: int| 0 <= j < k && #[trigger] hits(c0, calls[j], i, idx))
}

proof fn lemma_trace_inv(states: Seq<ComponentRepresentation>, calls: Seq<(Seq<char>, Seq<usize>)>, k: int)
    requires
        states[0].wf(),
        states[0].node_pointer is Some,
        none_assigned(states[0]),
        assignment_trace(states, calls),
        forall|j: int| 0 <= j < calls.len() ==> input_cell(states[0], #[trigger] calls[j]),
        0 <= k <= calls.len(),
    ensures
        trace_inv(states, calls, k),
    decreases k,
{
    let c0 = states[0];
    if k > 0 {
        lemma_trace_inv(states, calls, k - 1);
        let km = k - 1;
        assert(trace_step(states[km], states[km + 1], calls[km]));
        let c = states[km];
        let d = states[k];
        let call = calls[km];
        assert(input_cell(c0, call));
        lemma_slot_same_names(c.inputs@, c0.inputs@, call.0);
        lemma_slot_range(c0.inputs@, call.0);
        lemma_slot_range(c.outputs@, call.0);
        lemma_not_both(c0, call.0);
        let i0 = slot(c0.inputs@, call.0);
        lemma_row_major_in(c.inputs@[i0].1, call.1);
        let r0 = row_major(c0.inputs@[i0].1.dims@, call.1);
        assert(hits(c0, call, i0, r0));
        if assign_outcome(c, call.0, call.1) is Ok {
            assert forall|i: int| 0 <= i < d.inputs@.len() implies (#[trigger] d.inputs@[i]).0@ == c0.inputs@[i].0@
                && d.inputs@[i].1.dims@ == c0.inputs@[i].1.dims@ by {
                if i != i0 {
                    assert(d.inputs@[i] == c.inputs@[i]);
                }
            }
            assert forall|i: int, idx: int| 0 <= i < d.inputs@.len() && 0 <= idx < d.inputs@[i].1.cells@.len()
                implies (#[trigger] d.inputs@[i].1.cells@[idx] <==> exists|j: int| 0 <= j < k && #[trigger] hits(c0, calls[j], i, idx)) by {
                if i != i0 {
                    assert(d.inputs@[i] == c.inputs@[i]);
                    if exists|j: int| 0 <= j < k && #[trigger] hits(c0, calls[j], i, idx) {
                        let j = choose|j: int| 0 <= j < k && #[trigger] hits(c0, calls[j], i, idx);
                        if j == k - 1 {
                            assert(false);
                        } else {
                            assert(0 <= j < k - 1 && hits(c0, calls[j], i, idx));
                        }
                    }
                } else if idx != r0 {
                    if exists|j: int| 0 <= j < k && #[trigger] hits(c0, calls[j], i, idx) {
                        let j = choose|j: int| 0 <= j < k && #[trigger] hits(c0, calls[j], i, idx);
                        assert(j != k - 1);
                        assert(0 <= j < k - 1 && hits(c0, calls[j], i, idx));
                    }
                } else {
                    assert(hits(c0, calls[k - 1], i, idx));
                }
            }
        } else {
            assert(d == c);
            let cl = c.inputs@[i0].1;
            assert(read_outcome(c, call.0, call.1) == Ok::<bool, MemoryError>(cl.cell(call.1)));
            assert(cl.cells@[r0]);
            let jw = choose|j: int| 0 <= j < k - 1 && #[trigger] hits(c0, calls[j], i0, r0);
            assert forall|i: int, idx: int| 0 <= i < d.inputs@.len() && 0 <= idx < d.inputs@[i].1.cells@.len()
                implies (#[trigger] d.inputs@[i].1.cells@[idx] <==> exists|j: int| 0 <= j < k && #[trigger] hits(c0, calls[j], i, idx)) by {
                if exists|j: int| 0 <= j < k && #[trigger] hits(c0, calls[j], i, idx) {
                    let j = choose|j: int| 0 <= j < k && #[trigger] hits(c0, calls[j], i, idx);
                    if j == k - 1 {
                        assert(hits(c0, calls[jw], i, idx));
                    } else {
                        assert(0 <= j < k - 1 && hits(c0, calls[j], i, idx));
                    }
                }
            }
        }
    }
}

/// Single assignment in any order: along any run of assignments to input
/// cells of a freshly bound component, an assignment succeeds exactly when no
/// earlier assignment of the run targeted the same cell, and fails with the
/// assignment error otherwise.
pub proof fn lemma_single_assignment_any_order(
    states: Seq<ComponentRepresentation>,
    calls: Seq<(Seq<char>, Seq<usize>)>,
)
    requires
        states[0].wf(),
        states[0].node_pointer is Some,
        none_assigned(states[0]),
        assignment_trace(states, calls),
        forall|j: int| 0 <= j < calls.len() ==> input_cell(states[0], #[trigger] calls[j]),
    ensures
        forall|k: int|
            0 <= k < calls.len() ==> #[trigger] assign_outcome(states[k], calls[k].0, calls[k].1) == if exists|j: int|
                0 <= j < k && calls[j] == calls[k] {
                Err::<(), MemoryError>(MemoryError::AssignmentError)
            } else {
                Ok::<(), MemoryError>(())
            },
{
    assert forall|k: int| 0 <= k < calls.len() implies #[trigger] assign_outcome(states[k], calls[k].0, calls[k].1)
        == if exists|j: int| 0 <= j < k && calls[j] == calls[k] {
            Err::<(), MemoryError>(MemoryError::AssignmentError)
        } else {
            Ok::<(), MemoryError>(())
        } by {
        lemma_trace_inv(states, calls, k);
        let c0 = states[0];
        let c = states[k];
        let call = calls[k];
        assert(input_cell(c0, call));
        lemma_slot_same_names(c.inputs@, c0.inputs@, call.0);
        lemma_slot_range(c0.inputs@, call.0);
        lemma_slot_range(c.outputs@, call.0);
        lemma_not_both(c0, call.0);
        let i0 = slot(c0.inputs@, call.0);
        lemma_row_major_in(c.inputs@[i0].1, call.1);
        let r0 = row_major(c0.inputs@[i0].1.dims@, call.1);
        if exists|j: int| 0 <= j < k && calls[j] == calls[k] {
            let j = choose|j: int| 0 <= j < k && calls[j] == calls[k];
            assert(hits(c0, calls[j], i0, r0));
        } else {
            if c.inputs@[i0].1.cells@[r0] {
                let j = choose|j: int| 0 <= j < k && #[trigger] hits(c0, calls[j], i0, r0);
                assert(input_cell(c0, calls[j]));
                lemma_slot_range(c0.inputs@, calls[j].0);
                lemma_row_major_injective(c0.inputs@[i0].1.dims@, calls[j].1, call.1);
                assert(calls[j] == calls[k]);
            }
        }
    }
}

impl Default for ComponentRepresentation {
    fn default() -> (r: ComponentRepresentation)
        ensures
            r.node_pointer is None,
            r.inputs@.len() == 0,
            r.outputs@.len() == 0,
            r.wf(),
    {
        ComponentRepresentation { node_pointer: None, inputs: Vec::new(), outputs: Vec::new() }
    }
}

} // verus!
