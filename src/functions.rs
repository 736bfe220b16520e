//! Concrete instances of generic functions: one per function name and tuple
//! of argument shapes, each with a unique header name.

use vstd::prelude::*;
use vstd::string::StringExecFns;
use crate::export::{decimal, usize_text};

verus! {

/// An argument of a concrete function instance: its name and dimensions.
#[derive(Clone, Debug)]
pub struct Param {
    pub name: String,
    pub length: Vec<usize>,
}

/// A function specialised to the shapes of its arguments.
#[derive(Clone, Debug)]
pub struct Vcf {
    pub name: String,
    /// The instance's unique name, `<name>_<index>`.
    pub header: String,
    pub params_types: Vec<Param>,
    pub return_type: Vec<usize>,
}

/// Every concrete function instance produced so far, in creation order.
#[derive(Clone, Debug)]
pub struct FunctionInstances {
    pub vcf_collector: Vec<Vcf>,
}

/// Argument shapes as plain values.
pub open spec fn params_view(p: Seq<Param>) -> Seq<(Seq<char>, Seq<usize>)> {
    p.map_values(|x: Param| (x.name@, x.length@))
}

/// Instance `v` is the one for `name` under argument shapes `args`.
pub open spec fn vcf_matches(v: Vcf, name: Seq<char>, args: Seq<(Seq<char>, Seq<usize>)>) -> bool {
    v.name@ == name && params_view(v.params_types@) == args
}

/// Some instance was created for `name` under argument shapes `args`.
pub open spec fn has_instance(s: Seq<Vcf>, name: Seq<char>, args: Seq<(Seq<char>, Seq<usize>)>) -> bool {
    exists|i: int| 0 <= i < s.len() && vcf_matches(#[trigger] s[i], name, args)
}

/// The header given to the instance created at position `index`.
pub open spec fn header_of(name: Seq<char>, index: nat) -> Seq<char> {
    name + seq!['_'] + decimal(index)
}

fn params_equal(a: &Vec<Param>, b: &Vec<Param>) -> (r: bool)
    ensures
        r == (params_view(a@) == params_view(b@)),
{
    if a.len() != b.len() {
        proof {
            assert(params_view(a@).len() != params_view(b@).len());
        }
        return false;
    }
    let mut i: usize = 0;
    while i < a.len()
        invariant
            0 <= i <= a@.len(),
            a@.len() == b@.len(),
            forall|j: int| 0 <= j < i ==> params_view(a@)[j] == #[trigger] params_view(b@)[j],
        decreases a@.len() - i,
    {
        if a[i].name != b[i].name || !lengths_equal(&a[i].length, &b[i].length) {
            proof {
                assert(params_view(a@)[i as int] != params_view(b@)[i as int]);
            }
            return false;
        }
        i = i + 1;
    }
    proof {
        assert(params_view(a@) =~= params_view(b@));
    }
    true
}

fn lengths_equal(a: &Vec<usize>, b: &Vec<usize>) -> (r: bool)
    ensures
        r == (a@ == b@),
{
    if a.len() != b.len() {
        return false;
    }
    let mut i: usize = 0;
    while i < a.len()
        invariant
            0 <= i <= a@.len(),
            a@.len() == b@.len(),
            forall|j: int| 0 <= j < i ==> a@[j] == b@[j],
        decreases a@.len() - i,
    {
        if a[i] != b[i] {
            return false;
        }
        i = i + 1;
    }
    proof {
        assert(a@ =~= b@);
    }
    true
}

fn clone_lengths(a: &Vec<usize>) -> (r: Vec<usize>)
    ensures
        r@ == a@,
{
    let mut r: Vec<usize> = Vec::new();
    let mut i: usize = 0;
    while i < a.len()
        invariant
            0 <= i <= a@.len(),
            r@ == a@.subrange(0, i as int),
        decreases a@.len() - i,
    {
        r.push(a[i]);
        i = i + 1;
        proof {
            assert(r@ =~= a@.subrange(0, i as int));
        }
    }
    proof {
        assert(a@.subrange(0, a@.len() as int) =~= a@);
    }
    r
}

impl FunctionInstances {
    pub fn new() -> (r: FunctionInstances)
        ensures
            r.vcf_collector@.len() == 0,
    {
        FunctionInstances { vcf_collector: Vec::new() }
    }
}

/// The first instance of `name` for argument shapes `args`, with its return shape.
pub fn look_for_existing_instance(name: &str, args: &Vec<Param>, state: &FunctionInstances) -> (r:
    Option<(usize, Vec<usize>)>)
    ensures
        r is None <==> !has_instance(state.vcf_collector@, name@, params_view(args@)),
        r is Some ==> {
            let (i, t) = r->0;
            &&& i < state.vcf_collector@.len()
            &&& vcf_matches(state.vcf_collector@[i as int], name@, params_view(args@))
            &&& forall|j: int|
                0 <= j < i ==> !vcf_matches(#[trigger] state.vcf_collector@[j], name@, params_view(args@))
            &&& t@ == state.vcf_collector@[i as int].return_type@
        },
{
    let owned = name.to_owned();
    let mut i: usize = 0;
    while i < state.vcf_collector.len()
        invariant
            0 <= i <= state.vcf_collector@.len(),
            owned@ == name@,
            forall|j: int|
                0 <= j < i ==> !vcf_matches(#[trigger] state.vcf_collector@[j], name@, params_view(args@)),
        decreases state.vcf_collector@.len() - i,
    {
        let vcf = &state.vcf_collector[i];
        if vcf.name == owned && params_equal(&vcf.params_types, args) {
            return Some((i, clone_lengths(&vcf.return_type)));
        }
        i = i + 1;
    }
    None
}

/// Creates the instance of `name` for argument shapes `args`, with return
/// shape `inferred`, unless one already exists; the new instance's header is
/// `<name>_<position>`.
pub fn add_instance(name: &str, args: Vec<Param>, inferred: Vec<usize>, state: &mut FunctionInstances)
    ensures
        has_instance(old(state).vcf_collector@, name@, params_view(args@)) ==> final(state).vcf_collector@
            == old(state).vcf_collector@,
        !has_instance(old(state).vcf_collector@, name@, params_view(args@)) ==> {
            let n = old(state).vcf_collector@.len();
            let v = final(state).vcf_collector@[n as int];
            &&& final(state).vcf_collector@.len() == n + 1
            &&& final(state).vcf_collector@.subrange(0, n as int) == old(state).vcf_collector@
            &&& v.name@ == name@
            &&& v.header@ == header_of(name@, n)
            &&& v.params_types == args
            &&& v.return_type == inferred
        },
{
    if look_for_existing_instance(name, &args, state).is_some() {
        return;
    }
    let id = state.vcf_collector.len();
    let mut header = name.to_owned();
    proof {
        reveal_strlit("_");
    }
    header.append("_");
    header.append(usize_text(id).as_str());
    let ghost before = state.vcf_collector@;
    state.vcf_collector.push(Vcf { name: name.to_owned(), header, params_types: args, return_type: inferred });
    proof {
        assert(state.vcf_collector@.subrange(0, id as int) =~= before);
    }
}

} // verus!
