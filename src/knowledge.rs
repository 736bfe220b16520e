//! Facts inferred about expressions: what a name reduces to, and the concrete
//! shape and address of a value.

use vstd::prelude::*;
use crate::slice::{dims_product, number_of_cells};

verus! {

/// What an expression denotes once its accesses are resolved.
#[derive(Clone, Copy, Debug, PartialEq, Eq, Structural, PartialOrd, Ord)]
pub enum TypeReduction {
    Variable,
    Component,
    Signal,
}

/// What an expression reduces to, once inferred.
#[derive(Clone, Copy, Debug)]
pub struct TypeKnowledge {
    pub reduces_to: Option<TypeReduction>,
}

impl TypeKnowledge {
    pub fn new() -> (r: TypeKnowledge)
        ensures
            r.reduces_to is None,
    {
        TypeKnowledge { reduces_to: None }
    }

    pub fn set_reduces_to(&mut self, reduces_to: TypeReduction)
        ensures
            final(self).reduces_to == Some(reduces_to),
    {
        self.reduces_to = Some(reduces_to);
    }

    pub fn get_reduces_to(&self) -> (r: TypeReduction)
        requires
            self.reduces_to is Some,
        ensures
            r == self.reduces_to->0,
    {
        match self.reduces_to {
            Some(t) => t,
            None => TypeReduction::Variable,
        }
    }

    pub fn is_var(&self) -> (r: bool)
        requires
            self.reduces_to is Some,
        ensures
            r == (self.reduces_to->0 == TypeReduction::Variable),
    {
        self.get_reduces_to() == TypeReduction::Variable
    }

    pub fn is_component(&self) -> (r: bool)
        requires
            self.reduces_to is Some,
        ensures
            r == (self.reduces_to->0 == TypeReduction::Component),
    {
        self.get_reduces_to() == TypeReduction::Component
    }

    pub fn is_signal(&self) -> (r: bool)
        requires
            self.reduces_to is Some,
        ensures
            r == (self.reduces_to->0 == TypeReduction::Signal),
    {
        self.get_reduces_to() == TypeReduction::Signal
    }
}

/// The concrete dimensions of a value, its number of cells, and its address.
#[derive(Clone, Debug)]
pub struct MemoryKnowledge {
    pub concrete_dimensions: Option<Vec<usize>>,
    pub full_length: Option<usize>,
    pub abstract_memory_address: Option<usize>,
}

impl MemoryKnowledge {
    pub open spec fn wf(&self) -> bool {
        &&& self.concrete_dimensions is Some <==> self.full_length is Some
        &&& self.concrete_dimensions is Some ==> self.full_length->0 == dims_product(
            self.concrete_dimensions->0@,
        )
    }

    pub fn new() -> (r: MemoryKnowledge)
        ensures
            r.wf(),
            r.concrete_dimensions is None,
            r.full_length is None,
            r.abstract_memory_address is None,
    {
        MemoryKnowledge { concrete_dimensions: None, full_length: None, abstract_memory_address: None }
    }

    /// Records the concrete dimensions and the number of cells they span.
    pub fn set_concrete_dimensions(&mut self, value: Vec<usize>)
        requires
            dims_product(value@) <= usize::MAX,
        ensures
            final(self).concrete_dimensions == Some(value),
            final(self).full_length == Some(dims_product(value@) as usize),
            final(self).abstract_memory_address == old(self).abstract_memory_address,
            final(self).wf(),
    {
        self.full_length = Some(number_of_cells(&value));
        self.concrete_dimensions = Some(value);
    }

    pub fn set_abstract_memory_address(&mut self, value: usize)
        ensures
            final(self).abstract_memory_address == Some(value),
            final(self).concrete_dimensions == old(self).concrete_dimensions,
            final(self).full_length == old(self).full_length,
    {
        self.abstract_memory_address = Some(value);
    }

    pub fn get_concrete_dimensions(&self) -> (r: &[usize])
        requires
            self.concrete_dimensions is Some,
        ensures
            r@ == self.concrete_dimensions->0@,
    {
        match &self.concrete_dimensions {
            Some(v) => v.as_slice(),
            None => &[],
        }
    }

    pub fn get_full_length(&self) -> (r: usize)
        requires
            self.full_length is Some,
        ensures
            r == self.full_length->0,
    {
        match self.full_length {
            Some(v) => v,
            None => 0,
        }
    }

    pub fn get_abstract_memory_address(&self) -> (r: usize)
        requires
            self.abstract_memory_address is Some,
        ensures
            r == self.abstract_memory_address->0,
    {
        match self.abstract_memory_address {
            Some(v) => v,
            None => 0,
        }
    }
}

impl Default for TypeKnowledge {
    fn default() -> (r: TypeKnowledge)
        ensures
            r.reduces_to is None,
    {
        TypeKnowledge::new()
    }
}

impl Default for MemoryKnowledge {
    fn default() -> (r: MemoryKnowledge)
        ensures
            r.wf(),
            r.concrete_dimensions is None,
            r.abstract_memory_address is None,
    {
        MemoryKnowledge::new()
    }
}

} // verus!
