use vstd::prelude::*;
use crate::binding::{bind_seq, ids_fresh, lemma_bind_seq_step, lemma_fresh_prefix, BindingTable};
use crate::error::Error;
use crate::field::{decode_spec, le_to_fr, FieldElement, FieldParams};
use crate::import::{constraint_spec, translate_constraint};
use crate::r1cs::{alloc_vars, opt_elem_view, ConstraintSystem, LcSpec, R1csConstraint, Var};
use crate::wire::{decl_ids, GadgetCall, MessageStream, WireVariable};

verus! {

/// A variable allocated in a constraint system, with its value when known.
pub struct Num {
    pub var: Var,
    pub value: Option<FieldElement>,
}

impl View for Num {
    type V = (Var, Option<Seq<u8>>);

    open spec fn view(&self) -> (Var, Option<Seq<u8>>) {
        (self.var, opt_elem_view(self.value))
    }
}

pub open spec fn all_valued(inputs: Seq<Num>) -> bool {
    forall|i: int| 0 <= i < inputs.len() ==> (#[trigger] inputs[i]).value is Some
}

pub open spec fn none_valued(inputs: Seq<Num>) -> bool {
    forall|i: int| 0 <= i < inputs.len() ==> (#[trigger] inputs[i]).value is None
}

/// A call runs in witness mode when it has inputs and all of them carry values.
pub open spec fn witness_mode(inputs: Seq<Num>) -> bool {
    inputs.len() > 0 && all_valued(inputs)
}

/// The encodings of the inputs' values, one after the other.
pub open spec fn encoded_values(inputs: Seq<Num>) -> Seq<u8>
    decreases inputs.len(),
{
    if inputs.len() == 0 {
        Seq::empty()
    } else {
        encoded_values(inputs.drop_last()) + match inputs.last().value {
            Some(x) => x@,
            None => Seq::empty(),
        }
    }
}

/// The bindings of a gadget call's private table: id 0 to the constant one and
/// id `i + 1` to the `i`-th input.
pub open spec fn seeded_bindings(inputs: Seq<Num>) -> Map<u64, Var> {
    Map::new(
        |id: u64| id <= inputs.len(),
        |id: u64|
            if id == 0 {
                Var::One
            } else {
                inputs[id - 1].var
            },
    )
}

/// Decides the mode of a gadget call: `true` for witness mode. Inputs that mix
/// present and absent values are refused.
pub fn input_mode(inputs: &[Num]) -> (r: Result<bool, Error>)
    ensures
        (all_valued(inputs@) || none_valued(inputs@)) <==> r is Ok,
        r matches Ok(w) ==> w == witness_mode(inputs@),
        r matches Err(e) ==> e == Error::ProtocolViolation,
{
    if inputs.len() == 0 {
        return Ok(false);
    }
    let witness = inputs[0].value.is_some();
    let mut i: usize = 1;
    while i < inputs.len()
        invariant
            1 <= i <= inputs@.len(),
            witness == inputs@[0].value is Some,
            forall|j: int| 0 <= j < i ==> (#[trigger] inputs@[j]).value is Some == witness,
        decreases inputs@.len() - i,
    {
        if inputs[i].value.is_some() != witness {
            return Err(Error::ProtocolViolation);
        }
        i = i + 1;
    }
    Ok(witness)
}

fn append_bytes(dst: &mut Vec<u8>, src: &Vec<u8>)
    ensures
        final(dst)@ == old(dst)@ + src@,
{
    let mut i: usize = 0;
    while i < src.len()
        invariant
            0 <= i <= src@.len(),
            dst@ == old(dst)@ + src@.take(i as int),
        decreases src@.len() - i,
    {
        dst.push(src[i]);
        i = i + 1;
    }
    assert(src@.take(src@.len() as int) =~= src@);
}

/// Builds the message that calls a foreign gadget on `inputs`: ids `1..=k` for
/// the `k` inputs, the first free id `k + 1`, the inputs' encoded values in
/// witness mode, and the request for structural generation.
pub fn gadget_call_message(inputs: &[Num]) -> (r: Result<GadgetCall, Error>)
    requires
        inputs@.len() < u64::MAX,
    ensures
        (all_valued(inputs@) || none_valued(inputs@)) <==> r is Ok,
        r matches Err(e) ==> e == Error::ProtocolViolation,
        r matches Ok(call) ==> {
            &&& call.variable_ids@.len() == inputs@.len()
            &&& forall|i: int| 0 <= i < inputs@.len() ==> call.variable_ids@[i] == i + 1
            &&& call.free_variable_id == inputs@.len() + 1
            &&& call.r1cs_generation
            &&& call.field_maximum is None
            &&& witness_mode(inputs@) ==> (call.values matches Some(v) && v@ == encoded_values(
                inputs@,
            ))
            &&& !witness_mode(inputs@) ==> call.values is None
        },
{
    let witness = input_mode(inputs)?;
    let k = inputs.len();
    let mut ids: Vec<u64> = Vec::new();
    let mut values: Vec<u8> = Vec::new();
    let mut i: usize = 0;
    while i < k
        invariant
            k == inputs@.len(),
            k < u64::MAX,
            0 <= i <= k,
            witness == witness_mode(inputs@),
            ids@.len() == i,
            forall|j: int| 0 <= j < i ==> ids@[j] == j + 1,
            witness ==> values@ == encoded_values(inputs@.take(i as int)),
        decreases k - i,
    {
        ids.push(i as u64 + 1);
        if witness {
            assert(inputs@.take(i + 1).drop_last() =~= inputs@.take(i as int));
            assert(all_valued(inputs@));
            assert(inputs@[i as int].value is Some);
            match &inputs[i].value {
                Some(x) => append_bytes(&mut values, &x.bytes),
                None => {},
            }
        }
        i = i + 1;
    }
    assert(inputs@.take(k as int) =~= inputs@);
    let vals = if witness {
        Some(values)
    } else {
        None
    };
    Ok(GadgetCall {
        variable_ids: ids,
        values: vals,
        free_variable_id: k as u64 + 1,
        r1cs_generation: true,
        field_maximum: None,
    })
}

/// What a declared variable is allocated with: nothing in structural mode;
/// its decoded value in witness mode, where a missing value breaks the protocol.
pub open spec fn declared_value(f: &FieldParams, witness: bool, v: Option<Seq<u8>>) -> Result<
    Option<Seq<u8>>,
    Error,
> {
    if !witness {
        Ok(None)
    } else {
        match v {
            None => Err(Error::ProtocolViolation),
            Some(b) => match decode_spec(f, b) {
                Ok(x) => Ok(Some(x)),
                Err(e) => Err(e),
            },
        }
    }
}

/// Whether every declaration of a gadget's response can be allocated.
pub open spec fn decls_ok(f: &FieldParams, witness: bool, decls: Seq<WireVariable>) -> bool {
    forall|j: int|
        0 <= j < decls.len() ==> declared_value(f, witness, opt_bytes_view((#[trigger] decls[j]).value))
            is Ok
}

/// The private bindings of a gadget call whose response `m` is spliced into a
/// system that held `base` auxiliary variables: the seeded ones, then the
/// outputs and the private variables, allocated in that order from `base`.
pub open spec fn gadget_bindings(inputs: Seq<Num>, m: &MessageStream, base: nat) -> Map<u64, Var> {
    let nc = m.connection_variables@.len();
    let m1 = bind_seq(
        seeded_bindings(inputs),
        decl_ids(m.connection_variables@),
        alloc_vars(false, base, nc),
    );
    bind_seq(
        m1,
        decl_ids(m.private_variables@),
        alloc_vars(false, base + nc, m.private_variables@.len()),
    )
}

/// Whether the response `m` of a gadget call can be spliced: every declared
/// value is present as the mode asks and decodes, every declared id is new and
/// declared once, and every constraint translates.
pub open spec fn response_ok(f: &FieldParams, inputs: Seq<Num>, m: &MessageStream, base: nat) -> bool {
    let w = witness_mode(inputs);
    let nc = m.connection_variables@.len();
    let m1 = bind_seq(
        seeded_bindings(inputs),
        decl_ids(m.connection_variables@),
        alloc_vars(false, base, nc),
    );
    &&& decls_ok(f, w, m.connection_variables@)
    &&& decls_ok(f, w, m.private_variables@)
    &&& ids_fresh(seeded_bindings(inputs), decl_ids(m.connection_variables@))
    &&& ids_fresh(m1, decl_ids(m.private_variables@))
    &&& forall|k: int|
        0 <= k < m.constraints@.len() ==> constraint_spec(
            f,
            gadget_bindings(inputs, m, base),
            &(#[trigger] m.constraints@[k]),
        ) is Ok
}

/// Whether a gadget call with this response succeeds: the inputs agree on a
/// mode, the external call succeeded, and its response can be spliced.
pub open spec fn call_ok(
    f: &FieldParams,
    inputs: Seq<Num>,
    response: Result<MessageStream, String>,
    base: nat,
) -> bool {
    &&& all_valued(inputs) || none_valued(inputs)
    &&& match response {
        Ok(m) => response_ok(f, inputs, &m, base),
        Err(_) => false,
    }
}

pub open spec fn opt_bytes_view(v: Option<Vec<u8>>) -> Option<Seq<u8>> {
    match v {
        Some(b) => Some(b@),
        None => None,
    }
}

/// The private binding table of a gadget call: id 0 is the constant one and
/// ids `1..=k` alias the `k` inputs, in order.
pub fn seed_table(inputs: &[Num]) -> (r: BindingTable)
    requires
        inputs@.len() < u64::MAX,
    ensures
        r.wf(),
        r@ == seeded_bindings(inputs@),
{
    let mut t = BindingTable::new();
    let mut i: usize = 0;
    assert(t@ =~= Map::new(
        |id: u64| id <= 0,
        |id: u64| if id == 0 { Var::One } else { inputs@[id - 1].var },
    ));
    while i < inputs.len()
        invariant
            inputs@.len() < u64::MAX,
            0 <= i <= inputs@.len(),
            t.wf(),
            t@ == Map::new(
                |id: u64| id <= i,
                |id: u64| if id == 0 { Var::One } else { inputs@[id - 1].var },
            ),
        decreases inputs@.len() - i,
    {
        let ghost before = t@;
        let id = i as u64 + 1;
        let rb = t.bind(id, inputs[i].var);
        assert(rb is Ok);
        assert(t@ =~= Map::new(
            |id: u64| id <= i + 1,
            |id: u64| if id == 0 { Var::One } else { inputs@[id - 1].var },
        ));
        i = i + 1;
    }
    assert(t@ =~= seeded_bindings(inputs@));
    t
}

fn copy_value(v: &Option<FieldElement>) -> (r: Option<FieldElement>)
    ensures
        opt_elem_view(r) == opt_elem_view(*v),
{
    match v {
        Some(x) => Some(x.copy()),
        None => None,
    }
}

/// Allocates the declared variables `decls` as pending auxiliary variables,
/// numbered on from `base + pending.len()`, and binds their ids.
fn alloc_declared(
    f: &FieldParams,
    witness: bool,
    decls: &Vec<WireVariable>,
    base: usize,
    table: &mut BindingTable,
    pending: &mut Vec<Option<FieldElement>>,
) -> (r: Result<(), Error>)
    requires
        f.wf(),
        old(table).wf(),
        base + old(pending)@.len() + decls@.len() <= usize::MAX,
    ensures
        final(table).wf(),
        r is Ok <==> decls_ok(f, witness, decls@) && ids_fresh(old(table)@, decl_ids(decls@)),
        r is Ok ==> final(table)@ == bind_seq(
            old(table)@,
            decl_ids(decls@),
            alloc_vars(false, (base + old(pending)@.len()) as nat, decls@.len()),
        ),
        r is Ok ==> {
            &&& final(pending)@.len() == old(pending)@.len() + decls@.len()
            &&& final(pending)@.take(old(pending)@.len() as int) == old(pending)@
            &&& forall|j: int|
                0 <= j < decls@.len() ==> declared_value(
                    f,
                    witness,
                    opt_bytes_view(#[trigger] decls@[j].value),
                ) == Ok::<Option<Seq<u8>>, Error>(
                    opt_elem_view(final(pending)@[old(pending)@.len() + j]),
                )
        },
{
    let n0 = pending.len();
    let ghost ids = decl_ids(decls@);
    let ghost vars = alloc_vars(false, (base + n0) as nat, decls@.len());
    let ghost t0 = table@;
    let mut j: usize = 0;
    assert(ids.take(0) =~= Seq::<u64>::empty());
    while j < decls.len()
        invariant
            f.wf(),
            table.wf(),
            ids == decl_ids(decls@),
            vars == alloc_vars(false, (base + n0) as nat, decls@.len()),
            t0 == old(table)@,
            ids_fresh(t0, ids.take(j as int)),
            table@ == bind_seq(t0, ids.take(j as int), vars),
            base + n0 + decls@.len() <= usize::MAX,
            n0 == old(pending)@.len(),
            0 <= j <= decls@.len(),
            pending@.len() == n0 + j,
            pending@.take(n0 as int) == old(pending)@,
            forall|i: int|
                0 <= i < j ==> declared_value(
                    f,
                    witness,
                    opt_bytes_view(#[trigger] decls@[i].value),
                ) == Ok::<Option<Seq<u8>>, Error>(opt_elem_view(pending@[n0 + i])),
        decreases decls@.len() - j,
    {
        let d = &decls[j];
        proof {
            lemma_bind_seq_step(t0, ids, vars, j as int);
            if !ids_fresh(t0, ids.take(j + 1)) {
                if ids_fresh(t0, ids) {
                    lemma_fresh_prefix(t0, ids, j + 1);
                }
            }
        }
        let value = if witness {
            match &d.value {
                Some(b) => match le_to_fr(f, b.as_slice()) {
                    Ok(x) => Some(x),
                    Err(e) => {
                        assert(declared_value(f, witness, opt_bytes_view(decls@[j as int].value))
                            is Err);
                        return Err(e);
                    },
                },
                None => {
                    assert(declared_value(f, witness, opt_bytes_view(decls@[j as int].value))
                        is Err);
                    return Err(Error::ProtocolViolation);
                },
            }
        } else {
            None
        };
        let var = Var::Aux(base + pending.len());
        assert(var == vars[j as int]);
        table.bind(d.id, var)?;
        let ghost prev = pending@;
        pending.push(value);
        assert(pending@.take(n0 as int) =~= prev.take(n0 as int));
        j = j + 1;
    }
    assert(ids.take(decls@.len() as int) =~= ids);
    Ok(())
}

/// Splices the response of a foreign gadget into `cs`. The gadget was called
/// with the message that `gadget_call_message(inputs)` builds; `response` is
/// what it returned. Its outputs become new auxiliary variables, returned in
/// the order the response declares them, followed by its private variables;
/// its constraints are enforced over a private table in which ids `1..=k`
/// alias the inputs. On any failure `cs` is left exactly as it was.
pub fn call_gadget(
    cs: &mut ConstraintSystem,
    inputs: &[Num],
    response: Result<MessageStream, String>,
) -> (r: Result<Vec<Num>, Error>)
    requires
        old(cs).field.wf(),
        inputs@.len() < u64::MAX,
        response matches Ok(m) ==> old(cs).aux@.len() + m.connection_variables@.len()
            + m.private_variables@.len() <= usize::MAX,
    ensures
        r is Err ==> *final(cs) == *old(cs),
        r is Ok <==> call_ok(&old(cs).field, inputs@, response, old(cs).aux@.len()),
        r is Ok ==> match response {
            Ok(m) => forall|k: int|
                0 <= k < m.constraints@.len() ==> constraint_spec(
                    &old(cs).field,
                    gadget_bindings(inputs@, &m, old(cs).aux@.len()),
                    &(#[trigger] m.constraints@[k]),
                ) == Ok::<(LcSpec, LcSpec, LcSpec), Error>(
                    final(cs).constraints@[old(cs).constraints@.len() + k]@,
                ),
            Err(_) => false,
        },
        !(all_valued(inputs@) || none_valued(inputs@)) ==> r == Err::<Vec<Num>, Error>(
            Error::ProtocolViolation,
        ),
        (all_valued(inputs@) || none_valued(inputs@)) && response is Err ==> r == Err::<
            Vec<Num>,
            Error,
        >(Error::ExternalGadgetError),
        r matches Ok(outs) ==> response matches Ok(m) && {
            let base = old(cs).aux@.len();
            let n_out = m.connection_variables@.len();
            &&& outs@.len() == n_out
            &&& final(cs).field == old(cs).field
            &&& final(cs).inputs@ == old(cs).inputs@
            &&& final(cs).aux@.len() == base + n_out + m.private_variables@.len()
            &&& final(cs).aux@.take(base as int) == old(cs).aux@
            &&& final(cs).constraints@.len() == old(cs).constraints@.len() + m.constraints@.len()
            &&& final(cs).constraints@.take(old(cs).constraints@.len() as int)
                == old(cs).constraints@
            &&& forall|i: int|
                0 <= i < n_out ==> {
                    &&& (#[trigger] outs@[i]).var == Var::Aux((base + i) as usize)
                    &&& declared_value(
                        &old(cs).field,
                        witness_mode(inputs@),
                        opt_bytes_view(m.connection_variables@[i].value),
                    ) == Ok::<Option<Seq<u8>>, Error>(opt_elem_view(outs@[i].value))
                    &&& opt_elem_view(final(cs).aux@[base + i]) == opt_elem_view(outs@[i].value)
                }
            &&& forall|j: int|
                0 <= j < m.private_variables@.len() ==> declared_value(
                    &old(cs).field,
                    witness_mode(inputs@),
                    opt_bytes_view((#[trigger] m.private_variables@[j]).value),
                ) == Ok::<Option<Seq<u8>>, Error>(opt_elem_view(final(cs).aux@[base + n_out + j]))
        },
{
    let witness = input_mode(inputs)?;
    let m = match response {
        Ok(m) => m,
        Err(_) => {
            return Err(Error::ExternalGadgetError);
        },
    };
    let mut table = seed_table(inputs);
    let base = cs.aux.len();
    let mut pending: Vec<Option<FieldElement>> = Vec::new();
    alloc_declared(&cs.field, witness, &m.connection_variables, base, &mut table, &mut pending)?;
    alloc_declared(&cs.field, witness, &m.private_variables, base, &mut table, &mut pending)?;
    let n_out = m.connection_variables.len();

    let ghost f = cs.field;
    let ghost bnd = gadget_bindings(inputs@, &m, base as nat);
    assert(table@ == bnd);
    let mut added: Vec<R1csConstraint> = Vec::new();
    let mut i: usize = 0;
    while i < m.constraints.len()
        invariant
            cs.field.wf(),
            f == cs.field,
            table.wf(),
            table@ == bnd,
            base == old(cs).aux@.len(),
            f == old(cs).field,
            bnd == gadget_bindings(inputs@, &m, base as nat),
            all_valued(inputs@) || none_valued(inputs@),
            response == Ok::<MessageStream, String>(m),
            witness == witness_mode(inputs@),
            decls_ok(&f, witness, m.connection_variables@),
            decls_ok(&f, witness, m.private_variables@),
            ids_fresh(seeded_bindings(inputs@), decl_ids(m.connection_variables@)),
            ids_fresh(
                bind_seq(
                    seeded_bindings(inputs@),
                    decl_ids(m.connection_variables@),
                    alloc_vars(false, base as nat, m.connection_variables@.len()),
                ),
                decl_ids(m.private_variables@),
            ),
            forall|k: int|
                0 <= k < i ==> constraint_spec(&f, bnd, &(#[trigger] m.constraints@[k]))
                    == Ok::<(LcSpec, LcSpec, LcSpec), Error>(added@[k]@),
            0 <= i <= m.constraints@.len(),
            added@.len() == i,
        decreases m.constraints@.len() - i,
    {
        let c = match translate_constraint(&cs.field, &table, &m.constraints[i]) {
            Ok(c) => c,
            Err(e) => {
                assert(constraint_spec(&f, bnd, &m.constraints@[i as int]) is Err);
                assert(!response_ok(&f, inputs@, &m, base as nat));
                return Err(e);
            },
        };
        added.push(c);
        i = i + 1;
    }

    let mut outs: Vec<Num> = Vec::new();
    let mut j: usize = 0;
    while j < n_out
        invariant
            n_out == m.connection_variables@.len(),
            pending@.len() == n_out + m.private_variables@.len(),
            base + pending@.len() <= usize::MAX,
            0 <= j <= n_out,
            outs@.len() == j,
            forall|k: int|
                0 <= k < j ==> (#[trigger] outs@[k]).var == Var::Aux((base + k) as usize)
                    && opt_elem_view(outs@[k].value) == opt_elem_view(pending@[k]),
        decreases n_out - j,
    {
        let value = copy_value(&pending[j]);
        outs.push(Num { var: Var::Aux(base + j), value });
        j = j + 1;
    }

    let ghost old_aux = cs.aux@;
    let ghost old_cons = cs.constraints@;
    cs.aux.append(&mut pending);
    let ghost added_v = added@;
    cs.constraints.append(&mut added);
    assert(forall|k: int|
        0 <= k < added_v.len() ==> cs.constraints@[old_cons.len() + k] == added_v[k]);
    assert(cs.aux@.take(base as int) =~= old_aux);
    assert(cs.constraints@.take(old_cons.len() as int) =~= old_cons);
    Ok(outs)
}

} // verus!
