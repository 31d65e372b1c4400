use zkif_r1cs::binding::BindingTable;
use zkif_r1cs::error::Error;
use zkif_r1cs::field::{fr_to_le, le_less, le_to_fr, FieldElement, FieldParams};
use zkif_r1cs::gadget::{call_gadget, gadget_call_message, input_mode, seed_table, Num};
use zkif_r1cs::import::{enforce, terms_to_lc};
use zkif_r1cs::r1cs::{ConstraintSystem, Var};
use zkif_r1cs::synth::ZKIFCircuit;
use zkif_r1cs::wire::{Constraint, MessageStream, Term, WireVariable};

/// The field of integers modulo 97, in one 64-bit word.
fn field97() -> FieldParams {
    FieldParams { modulus: vec![97, 0, 0, 0, 0, 0, 0, 0] }
}

fn elem(v: u8) -> FieldElement {
    le_to_fr(&field97(), &[v]).unwrap()
}

fn term(id: u64, coeff: u8) -> Term {
    Term { variable_id: id, coefficient: vec![coeff] }
}

fn wire(id: u64, value: Option<u8>) -> WireVariable {
    WireVariable { id, value: value.map(|v| vec![v]) }
}

fn stream(
    connections: Vec<WireVariable>,
    privates: Vec<WireVariable>,
    constraints: Vec<Constraint>,
) -> MessageStream {
    MessageStream {
        connection_variables: connections,
        private_variables: privates,
        constraints,
        r1cs_generation: true,
        witness_generation: false,
        field_maximum: None,
    }
}

#[test]
fn decode_empty_is_zero() {
    let z = le_to_fr(&field97(), &[]).unwrap();
    assert_eq!(z.bytes, vec![0u8; 8]);
}

#[test]
fn decode_pads_to_word_width() {
    let x = le_to_fr(&field97(), &[5, 0]).unwrap();
    assert_eq!(x.bytes, vec![5, 0, 0, 0, 0, 0, 0, 0]);
}

#[test]
fn decode_truncates_to_word_width() {
    let x = le_to_fr(&field97(), &[7, 0, 0, 0, 0, 0, 0, 0, 9, 9]).unwrap();
    assert_eq!(x.bytes, vec![7, 0, 0, 0, 0, 0, 0, 0]);
}

#[test]
fn decode_rejects_modulus_and_above() {
    assert_eq!(le_to_fr(&field97(), &[97]).err(), Some(Error::DecodeError));
    assert_eq!(le_to_fr(&field97(), &[0, 1]).err(), Some(Error::DecodeError));
    assert!(le_to_fr(&field97(), &[96]).is_ok());
}

#[test]
fn decode_of_encode_is_identity() {
    for v in [0u8, 1, 3, 42, 96] {
        let x = elem(v);
        let back = le_to_fr(&field97(), &fr_to_le(&x)).unwrap();
        assert_eq!(back.bytes, x.bytes);
    }
}

#[test]
fn little_endian_order() {
    assert!(le_less(&vec![255, 0], &vec![0, 1]));
    assert!(!le_less(&vec![0, 1], &vec![255, 0]));
    assert!(!le_less(&vec![4, 4], &vec![4, 4]));
}

#[test]
fn table_binds_zero_to_one() {
    let t = BindingTable::new();
    assert_eq!(t.resolve(0), Ok(Var::One));
}

#[test]
fn table_refuses_rebinding_zero() {
    let mut t = BindingTable::new();
    assert_eq!(t.bind(0, Var::Aux(0)), Err(Error::DuplicateBinding));
    assert_eq!(t.resolve(0), Ok(Var::One));
}

#[test]
fn table_binds_once() {
    let mut t = BindingTable::new();
    assert_eq!(t.bind(4, Var::Input(0)), Ok(()));
    assert_eq!(t.bind(4, Var::Aux(1)), Err(Error::DuplicateBinding));
    assert_eq!(t.resolve(4), Ok(Var::Input(0)));
    assert_eq!(t.resolve(5), Err(Error::UnknownVariable));
}

#[test]
fn translate_keeps_order() {
    let mut t = BindingTable::new();
    t.bind(1, Var::Input(0)).unwrap();
    let lc = terms_to_lc(&field97(), &t, &[term(1, 2), term(0, 3)]).unwrap();
    assert_eq!(lc.len(), 2);
    assert_eq!(lc[0].var, Var::Input(0));
    assert_eq!(lc[0].coeff.bytes, elem(2).bytes);
    assert_eq!(lc[1].var, Var::One);
    assert_eq!(lc[1].coeff.bytes, elem(3).bytes);
}

#[test]
fn translate_reports_unknown_and_bad_coefficient() {
    let t = BindingTable::new();
    assert_eq!(terms_to_lc(&field97(), &t, &[term(0, 1), term(8, 1)]).err(), Some(Error::UnknownVariable));
    assert_eq!(terms_to_lc(&field97(), &t, &[term(0, 200)]).err(), Some(Error::DecodeError));
}

#[test]
fn enforce_adds_one_constraint() {
    let mut cs = ConstraintSystem::new(field97());
    let mut t = BindingTable::new();
    let v = cs.alloc_input(Some(elem(3)));
    t.bind(1, v).unwrap();
    let c = Constraint { a: vec![term(1, 1)], b: vec![term(0, 1)], c: vec![term(1, 1)] };
    assert_eq!(enforce(&mut cs, &t, &c), Ok(()));
    assert_eq!(cs.num_constraints(), 1);
}

#[test]
fn enforce_unbound_adds_nothing() {
    let mut cs = ConstraintSystem::new(field97());
    let t = BindingTable::new();
    let c = Constraint { a: vec![term(0, 1)], b: vec![term(0, 1)], c: vec![term(3, 1)] };
    assert_eq!(enforce(&mut cs, &t, &c), Err(Error::UnknownVariable));
    assert_eq!(cs.num_constraints(), 0);
}

fn two_inputs(cs: &mut ConstraintSystem, values: bool) -> Vec<Num> {
    let a = if values { Some(elem(3)) } else { None };
    let b = if values { Some(elem(5)) } else { None };
    let va = cs.alloc_input(if values { Some(elem(3)) } else { None });
    let vb = cs.alloc_aux(if values { Some(elem(5)) } else { None });
    vec![Num { var: va, value: a }, Num { var: vb, value: b }]
}

#[test]
fn call_message_reserves_ids() {
    let mut cs = ConstraintSystem::new(field97());
    let inputs = two_inputs(&mut cs, true);
    let call = gadget_call_message(&inputs).unwrap();
    assert_eq!(call.variable_ids, vec![1, 2]);
    assert_eq!(call.free_variable_id, 3);
    assert!(call.r1cs_generation);
    let mut expected = vec![3u8, 0, 0, 0, 0, 0, 0, 0];
    expected.extend_from_slice(&[5, 0, 0, 0, 0, 0, 0, 0]);
    assert_eq!(call.values, Some(expected));

    let structural = two_inputs(&mut cs, false);
    let call = gadget_call_message(&structural).unwrap();
    assert_eq!(call.variable_ids, vec![1, 2]);
    assert_eq!(call.values, None);
}

#[test]
fn mixed_inputs_violate_protocol() {
    let mut cs = ConstraintSystem::new(field97());
    let mut inputs = two_inputs(&mut cs, true);
    inputs[1].value = None;
    assert_eq!(input_mode(&inputs), Err(Error::ProtocolViolation));
    assert_eq!(gadget_call_message(&inputs).err(), Some(Error::ProtocolViolation));
    let r = call_gadget(&mut cs, &inputs, Ok(stream(vec![], vec![], vec![])));
    assert_eq!(r.err(), Some(Error::ProtocolViolation));
}

#[test]
fn seeded_table_aliases_inputs() {
    let mut cs = ConstraintSystem::new(field97());
    let inputs = two_inputs(&mut cs, false);
    let t = seed_table(&inputs);
    assert_eq!(t.resolve(0), Ok(Var::One));
    assert_eq!(t.resolve(1), Ok(Var::Input(0)));
    assert_eq!(t.resolve(2), Ok(Var::Aux(0)));
    assert_eq!(t.resolve(3), Err(Error::UnknownVariable));
}

#[test]
fn gadget_outputs_keep_declared_order() {
    let mut cs = ConstraintSystem::new(field97());
    let inputs = two_inputs(&mut cs, true);
    // The gadget computes 3 * 5 = 15 into id 4, and returns it after id 3.
    let response = stream(
        vec![wire(4, Some(15)), wire(3, Some(8))],
        vec![wire(5, Some(2))],
        vec![
            Constraint { a: vec![term(1, 1)], b: vec![term(2, 1)], c: vec![term(4, 1)] },
            Constraint { a: vec![term(1, 1), term(2, 1)], b: vec![term(0, 1)], c: vec![term(3, 1)] },
            Constraint { a: vec![term(5, 1)], b: vec![term(0, 1)], c: vec![term(0, 2)] },
        ],
    );
    let outs = call_gadget(&mut cs, &inputs, Ok(response)).unwrap();
    assert_eq!(outs.len(), 2);
    assert_eq!(outs[0].var, Var::Aux(1));
    assert_eq!(outs[0].value.as_ref().unwrap().bytes, elem(15).bytes);
    assert_eq!(outs[1].var, Var::Aux(2));
    assert_eq!(outs[1].value.as_ref().unwrap().bytes, elem(8).bytes);
    assert_eq!(cs.num_aux(), 4);
    assert_eq!(cs.num_constraints(), 3);
    assert_eq!(cs.aux[3].as_ref().unwrap().bytes, elem(2).bytes);
    assert_eq!(cs.constraints[0].c[0].var, Var::Aux(1));
}

#[test]
fn gadget_structural_outputs_have_no_value() {
    let mut cs = ConstraintSystem::new(field97());
    let inputs = two_inputs(&mut cs, false);
    let response = stream(vec![wire(3, None)], vec![], vec![]);
    let outs = call_gadget(&mut cs, &inputs, Ok(response)).unwrap();
    assert_eq!(outs.len(), 1);
    assert!(outs[0].value.is_none());
    assert_eq!(cs.num_aux(), 2);
}

#[test]
fn failed_external_call_changes_nothing() {
    let mut cs = ConstraintSystem::new(field97());
    let inputs = two_inputs(&mut cs, true);
    let r = call_gadget(&mut cs, &inputs, Err("gadget crashed".to_string()));
    assert_eq!(r.err(), Some(Error::ExternalGadgetError));
    assert_eq!(cs.num_inputs(), 1);
    assert_eq!(cs.num_aux(), 1);
    assert_eq!(cs.num_constraints(), 0);
}

#[test]
fn gadget_unknown_id_merges_nothing() {
    let mut cs = ConstraintSystem::new(field97());
    let inputs = two_inputs(&mut cs, true);
    let response = stream(
        vec![wire(3, Some(1))],
        vec![],
        vec![Constraint { a: vec![term(3, 1)], b: vec![term(0, 1)], c: vec![term(9, 1)] }],
    );
    let r = call_gadget(&mut cs, &inputs, Ok(response));
    assert_eq!(r.err(), Some(Error::UnknownVariable));
    assert_eq!(cs.num_aux(), 1);
    assert_eq!(cs.num_constraints(), 0);
}

#[test]
fn gadget_redeclaring_an_input_is_duplicate() {
    let mut cs = ConstraintSystem::new(field97());
    let inputs = two_inputs(&mut cs, true);
    let response = stream(vec![wire(2, Some(1))], vec![], vec![]);
    let r = call_gadget(&mut cs, &inputs, Ok(response));
    assert_eq!(r.err(), Some(Error::DuplicateBinding));
    assert_eq!(cs.num_aux(), 1);
}

#[test]
fn gadget_witness_output_without_value_violates_protocol() {
    let mut cs = ConstraintSystem::new(field97());
    let inputs = two_inputs(&mut cs, true);
    let response = stream(vec![wire(3, None)], vec![], vec![]);
    let r = call_gadget(&mut cs, &inputs, Ok(response));
    assert_eq!(r.err(), Some(Error::ProtocolViolation));
}

fn scenario(v1: Option<u8>, v2: Option<u8>) -> MessageStream {
    stream(
        vec![wire(1, v1), wire(2, v2)],
        vec![],
        vec![Constraint { a: vec![term(1, 1)], b: vec![term(0, 1)], c: vec![term(1, 1)] }],
    )
}

#[test]
fn structural_run_shapes_circuit() {
    let messages = scenario(None, None);
    let mut cs = ConstraintSystem::new(field97());
    ZKIFCircuit { messages: &messages }.generate_constraints(&mut cs).unwrap();
    assert_eq!(cs.num_constraints(), 1);
    assert_eq!(cs.num_inputs(), 2);
    assert_eq!(cs.num_aux(), 0);
    assert!(cs.inputs.iter().all(|v| v.is_none()));
}

#[test]
fn witness_run_assigns_values() {
    let messages = scenario(Some(3), Some(5));
    let mut cs = ConstraintSystem::new(field97());
    ZKIFCircuit { messages: &messages }.generate_constraints(&mut cs).unwrap();
    assert_eq!(cs.num_constraints(), 1);
    assert_eq!(cs.inputs[0].as_ref().unwrap().bytes, elem(3).bytes);
    assert_eq!(cs.inputs[1].as_ref().unwrap().bytes, elem(5).bytes);
}

#[test]
fn witness_run_without_value_leaves_variable_unassigned() {
    let messages = scenario(None, Some(5));
    let mut cs = ConstraintSystem::new(field97());
    ZKIFCircuit { messages: &messages }.generate_constraints(&mut cs).unwrap();
    assert!(cs.inputs[0].is_none());
    assert!(cs.inputs[1].is_some());
}

#[test]
fn circuit_refuses_declaring_id_zero() {
    let messages = stream(vec![wire(0, None)], vec![], vec![]);
    let mut cs = ConstraintSystem::new(field97());
    let r = ZKIFCircuit { messages: &messages }.generate_constraints(&mut cs);
    assert_eq!(r, Err(Error::DuplicateBinding));
}

#[test]
fn circuit_reports_bad_value() {
    let messages = scenario(Some(200), Some(5));
    let mut cs = ConstraintSystem::new(field97());
    let r = ZKIFCircuit { messages: &messages }.generate_constraints(&mut cs);
    assert_eq!(r, Err(Error::DecodeError));
}

#[test]
fn call_without_inputs_is_structural() {
    let inputs: Vec<Num> = vec![];
    let call = gadget_call_message(&inputs).unwrap();
    assert!(call.variable_ids.is_empty());
    assert_eq!(call.free_variable_id, 1);
    assert_eq!(call.values, None);
}
