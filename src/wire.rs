use vstd::prelude::*;

verus! {

/// A term `coefficient * variable` as the wire format writes it.
pub struct Term {
    pub variable_id: u64,
    pub coefficient: Vec<u8>,
}

impl View for Term {
    type V = (u64, Seq<u8>);

    open spec fn view(&self) -> (u64, Seq<u8>) {
        (self.variable_id, self.coefficient@)
    }
}

pub open spec fn terms_view(ts: Seq<Term>) -> Seq<(u64, Seq<u8>)> {
    ts.map_values(|t: Term| t@)
}

/// A constraint `(sum a) * (sum b) = (sum c)` over wire ids.
pub struct Constraint {
    pub a: Vec<Term>,
    pub b: Vec<Term>,
    pub c: Vec<Term>,
}

/// A declared variable: its wire id and, in witness mode, its value.
pub struct WireVariable {
    pub id: u64,
    pub value: Option<Vec<u8>>,
}

/// A decoded message stream describing a whole circuit, or the response of a
/// gadget call: its connection variables, private variables, constraints and
/// circuit-level flags.
pub struct MessageStream {
    pub connection_variables: Vec<WireVariable>,
    pub private_variables: Vec<WireVariable>,
    pub constraints: Vec<Constraint>,
    pub r1cs_generation: bool,
    pub witness_generation: bool,
    pub field_maximum: Option<Vec<u8>>,
}

/// The message that a gadget call hands to the external gadget: the ids of
/// its inputs, their encoded values in witness mode, the first id that the
/// gadget may allocate, and the request for structural generation.
pub struct GadgetCall {
    pub variable_ids: Vec<u64>,
    pub values: Option<Vec<u8>>,
    pub free_variable_id: u64,
    pub r1cs_generation: bool,
    pub field_maximum: Option<Vec<u8>>,
}

/// The ids of a list of declarations.
pub open spec fn decl_ids(decls: Seq<WireVariable>) -> Seq<u64> {
    decls.map_values(|d: WireVariable| d.id)
}

} // verus!
