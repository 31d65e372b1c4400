use vstd::prelude::*;
use crate::field::{FieldElement, FieldParams};

verus! {

/// A handle to a variable of a constraint system: the constant one, the
/// `i`-th public input, or the `i`-th auxiliary (private) variable.
#[derive(Clone, Copy, Debug, PartialEq, Eq, Structural)]
pub enum Var {
    One,
    Input(usize),
    Aux(usize),
}

/// One term `coeff * var` of a linear combination.
pub struct LcTerm {
    pub var: Var,
    pub coeff: FieldElement,
}

impl View for LcTerm {
    type V = (Var, Seq<u8>);

    open spec fn view(&self) -> (Var, Seq<u8>) {
        (self.var, self.coeff@)
    }
}

pub open spec fn lc_view(lc: Seq<LcTerm>) -> Seq<(Var, Seq<u8>)> {
    lc.map_values(|t: LcTerm| t@)
}

/// A rank-1 constraint `(sum a) * (sum b) = (sum c)`.
pub struct R1csConstraint {
    pub a: Vec<LcTerm>,
    pub b: Vec<LcTerm>,
    pub c: Vec<LcTerm>,
}

pub type LcSpec = Seq<(Var, Seq<u8>)>;

impl View for R1csConstraint {
    type V = (LcSpec, LcSpec, LcSpec);

    open spec fn view(&self) -> (LcSpec, LcSpec, LcSpec) {
        (lc_view(self.a@), lc_view(self.b@), lc_view(self.c@))
    }
}

pub open spec fn opt_elem_view(v: Option<FieldElement>) -> Option<Seq<u8>> {
    match v {
        Some(x) => Some(x@),
        None => None,
    }
}

/// A constraint system over one field: the values of its public inputs and
/// auxiliary variables (absent when synthesising structure only), and its
/// constraints. The constant one is not stored among the inputs.
pub struct ConstraintSystem {
    pub field: FieldParams,
    pub inputs: Vec<Option<FieldElement>>,
    pub aux: Vec<Option<FieldElement>>,
    pub constraints: Vec<R1csConstraint>,
}

impl ConstraintSystem {
    pub open spec fn inputs_view(&self) -> Seq<Option<Seq<u8>>> {
        self.inputs@.map_values(|v: Option<FieldElement>| opt_elem_view(v))
    }

    pub open spec fn aux_view(&self) -> Seq<Option<Seq<u8>>> {
        self.aux@.map_values(|v: Option<FieldElement>| opt_elem_view(v))
    }

    pub open spec fn constraints_view(&self) -> Seq<(LcSpec, LcSpec, LcSpec)> {
        self.constraints@.map_values(|c: R1csConstraint| c@)
    }

    /// Every handle that `v` names exists in this system.
    pub open spec fn has_var(&self, v: Var) -> bool {
        match v {
            Var::One => true,
            Var::Input(i) => i < self.inputs@.len(),
            Var::Aux(i) => i < self.aux@.len(),
        }
    }

    /// An empty constraint system over field `field`.
    pub fn new(field: FieldParams) -> (r: ConstraintSystem)
        ensures
            r.field == field,
            r.inputs@.len() == 0,
            r.aux@.len() == 0,
            r.constraints@.len() == 0,
    {
        ConstraintSystem { field, inputs: Vec::new(), aux: Vec::new(), constraints: Vec::new() }
    }

    pub fn num_inputs(&self) -> (r: usize)
        ensures
            r == self.inputs@.len(),
    {
        self.inputs.len()
    }

    pub fn num_aux(&self) -> (r: usize)
        ensures
            r == self.aux@.len(),
    {
        self.aux.len()
    }

    pub fn num_constraints(&self) -> (r: usize)
        ensures
            r == self.constraints@.len(),
    {
        self.constraints.len()
    }

    /// Allocates a new public input with the given value, if any.
    pub fn alloc_input(&mut self, value: Option<FieldElement>) -> (r: Var)
        ensures
            r == Var::Input(old(self).inputs@.len() as usize),
            final(self).inputs@ == old(self).inputs@.push(value),
            final(self).aux@ == old(self).aux@,
            final(self).constraints@ == old(self).constraints@,
            final(self).field == old(self).field,
    {
        let i = self.inputs.len();
        self.inputs.push(value);
        Var::Input(i)
    }

    /// Allocates a new auxiliary variable with the given value, if any.
    pub fn alloc_aux(&mut self, value: Option<FieldElement>) -> (r: Var)
        ensures
            r == Var::Aux(old(self).aux@.len() as usize),
            final(self).aux@ == old(self).aux@.push(value),
            final(self).inputs@ == old(self).inputs@,
            final(self).constraints@ == old(self).constraints@,
            final(self).field == old(self).field,
    {
        let i = self.aux.len();
        self.aux.push(value);
        Var::Aux(i)
    }
}

/// The handles of `n` variables allocated one after the other from index
/// `start`, as public inputs or as auxiliary variables.
pub open spec fn alloc_vars(public: bool, start: nat, n: nat) -> Seq<Var> {
    Seq::new(
        n,
        |j: int|
            if public {
                Var::Input((start + j) as usize)
            } else {
                Var::Aux((start + j) as usize)
            },
    )
}

} // verus!
