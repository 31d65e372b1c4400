use vstd::prelude::*;
use crate::binding::{bind_seq, ids_fresh, lemma_bind_seq_step, lemma_fresh_prefix, BindingTable};
use crate::error::Error;
use crate::field::{decode_spec, le_to_fr, FieldElement, FieldParams};
use crate::gadget::opt_bytes_view;
use crate::import::{constraint_spec, enforce};
use crate::r1cs::{alloc_vars, opt_elem_view, ConstraintSystem, LcSpec, Var};
use crate::wire::{decl_ids, MessageStream, WireVariable};

verus! {

/// What a declared variable of a circuit is allocated with: no value when the
/// declaration has none, else its decoded value.
pub open spec fn wire_value(f: &FieldParams, v: Option<Seq<u8>>) -> Result<Option<Seq<u8>>, Error> {
    match v {
        None => Ok(None),
        Some(b) => match decode_spec(f, b) {
            Ok(x) => Ok(Some(x)),
            Err(e) => Err(e),
        },
    }
}

/// Whether every declared value decodes.
pub open spec fn values_ok(f: &FieldParams, decls: Seq<WireVariable>) -> bool {
    forall|j: int|
        0 <= j < decls.len() ==> wire_value(f, opt_bytes_view((#[trigger] decls[j]).value)) is Ok
}

/// The bindings of a circuit synthesised into a system that held `ni` inputs
/// and `na` auxiliary variables before.
pub open spec fn circuit_bindings(m: &MessageStream, ni: nat, na: nat) -> Map<u64, Var> {
    let m1 = bind_seq(
        map![0u64 => Var::One],
        decl_ids(m.connection_variables@),
        alloc_vars(true, ni, m.connection_variables@.len()),
    );
    bind_seq(m1, decl_ids(m.private_variables@), alloc_vars(false, na, m.private_variables@.len()))
}

/// Whether synthesis of the circuit succeeds: every value decodes, every id is
/// declared once and is not 0, and every constraint translates.
pub open spec fn circuit_ok(f: &FieldParams, m: &MessageStream, ni: nat, na: nat) -> bool {
    let m1 = bind_seq(
        map![0u64 => Var::One],
        decl_ids(m.connection_variables@),
        alloc_vars(true, ni, m.connection_variables@.len()),
    );
    &&& values_ok(f, m.connection_variables@)
    &&& values_ok(f, m.private_variables@)
    &&& ids_fresh(map![0u64 => Var::One], decl_ids(m.connection_variables@))
    &&& ids_fresh(m1, decl_ids(m.private_variables@))
    &&& forall|k: int|
        0 <= k < m.constraints@.len() ==> constraint_spec(
            f,
            circuit_bindings(m, ni, na),
            &(#[trigger] m.constraints@[k]),
        ) is Ok
}

/// A circuit described by a whole message stream.
pub struct ZKIFCircuit<'a> {
    pub messages: &'a MessageStream,
}

/// Allocates each declaration of `decls` in `cs`, as public inputs when
/// `public` holds and as auxiliary variables otherwise, and binds its id.
fn alloc_wire_vars(
    cs: &mut ConstraintSystem,
    table: &mut BindingTable,
    decls: &Vec<WireVariable>,
    public: bool,
) -> (r: Result<(), Error>)
    requires
        old(cs).field.wf(),
        old(table).wf(),
    ensures
        final(table).wf(),
        final(cs).field == old(cs).field,
        final(cs).constraints@ == old(cs).constraints@,
        r is Ok <==> values_ok(&old(cs).field, decls@) && ids_fresh(old(table)@, decl_ids(decls@)),
        r is Ok ==> final(table)@ == bind_seq(
            old(table)@,
            decl_ids(decls@),
            alloc_vars(
                public,
                if public {
                    old(cs).inputs@.len()
                } else {
                    old(cs).aux@.len()
                },
                decls@.len(),
            ),
        ),
        r is Ok && public ==> final(cs).aux@ == old(cs).aux@,
        r is Ok && !public ==> final(cs).inputs@ == old(cs).inputs@,
        r is Ok ==> {
            let before = if public {
                old(cs).inputs@
            } else {
                old(cs).aux@
            };
            let after = if public {
                final(cs).inputs@
            } else {
                final(cs).aux@
            };
            &&& after.len() == before.len() + decls@.len()
            &&& after.take(before.len() as int) == before
            &&& forall|j: int|
                0 <= j < decls@.len() ==> wire_value(
                    &old(cs).field,
                    opt_bytes_view(#[trigger] decls@[j].value),
                ) == Ok::<Option<Seq<u8>>, Error>(opt_elem_view(after[before.len() + j]))
        },
{
    let ghost before = if public {
        cs.inputs@
    } else {
        cs.aux@
    };
    let ghost ids = decl_ids(decls@);
    let ghost vars = alloc_vars(public, before.len(), decls@.len());
    let ghost t0 = table@;
    let mut j: usize = 0;
    assert(ids.take(0) =~= Seq::<u64>::empty());
    while j < decls.len()
        invariant
            cs.field.wf(),
            cs.field == old(cs).field,
            ids == decl_ids(decls@),
            vars == alloc_vars(public, before.len(), decls@.len()),
            t0 == old(table)@,
            ids_fresh(t0, ids.take(j as int)),
            table@ == bind_seq(t0, ids.take(j as int), vars),
            cs.constraints@ == old(cs).constraints@,
            table.wf(),
            before == if public {
                old(cs).inputs@
            } else {
                old(cs).aux@
            },
            public ==> cs.aux@ == old(cs).aux@,
            !public ==> cs.inputs@ == old(cs).inputs@,
            0 <= j <= decls@.len(),
            ({
                let cur = if public {
                    cs.inputs@
                } else {
                    cs.aux@
                };
                &&& cur.len() == before.len() + j
                &&& cur.take(before.len() as int) == before
                &&& forall|i: int|
                    0 <= i < j ==> wire_value(&cs.field, opt_bytes_view(#[trigger] decls@[i].value))
                        == Ok::<Option<Seq<u8>>, Error>(opt_elem_view(cur[before.len() + i]))
            }),
        decreases decls@.len() - j,
    {
        let d = &decls[j];
        proof {
            lemma_bind_seq_step(t0, ids, vars, j as int);
            if !ids_fresh(t0, ids.take(j + 1)) {
                if ids_fresh(t0, ids) {
                    lemma_fresh_prefix(t0, ids, j + 1);
                }
            }
        }
        let value: Option<FieldElement> = match &d.value {
            Some(b) => match le_to_fr(&cs.field, b.as_slice()) {
                Ok(x) => Some(x),
                Err(e) => {
                    assert(wire_value(&cs.field, opt_bytes_view(decls@[j as int].value)) is Err);
                    return Err(e);
                },
            },
            None => None,
        };
        let ghost prev_inputs = cs.inputs@;
        let ghost prev_aux = cs.aux@;
        let var = if public {
            cs.alloc_input(value)
        } else {
            cs.alloc_aux(value)
        };
        proof {
            if public {
                assert(cs.inputs@.take(before.len() as int) =~= prev_inputs.take(
                    before.len() as int,
                ));
            } else {
                assert(cs.aux@.take(before.len() as int) =~= prev_aux.take(before.len() as int));
            }
        }
        assert(var == vars[j as int]);
        table.bind(d.id, var)?;
        j = j + 1;
    }
    assert(ids.take(decls@.len() as int) =~= ids);
    Ok(())
}

impl<'a> ZKIFCircuit<'a> {
    /// Synthesises the circuit into `cs`: each connection variable becomes a
    /// public input and each private variable an auxiliary variable, with its
    /// decoded value where one is declared; each id is bound once, next to id 0
    /// for the constant one; then every constraint is enforced in order.
    pub fn generate_constraints(self, cs: &mut ConstraintSystem) -> (r: Result<(), Error>)
        requires
            old(cs).field.wf(),
        ensures
            final(cs).field == old(cs).field,
            r is Ok <==> circuit_ok(
                &old(cs).field,
                self.messages,
                old(cs).inputs@.len(),
                old(cs).aux@.len(),
            ),
            r is Ok ==> forall|k: int|
                0 <= k < self.messages.constraints@.len() ==> constraint_spec(
                    &old(cs).field,
                    circuit_bindings(self.messages, old(cs).inputs@.len(), old(cs).aux@.len()),
                    &(#[trigger] self.messages.constraints@[k]),
                ) == Ok::<(LcSpec, LcSpec, LcSpec), Error>(
                    final(cs).constraints@[old(cs).constraints@.len() + k]@,
                ),
            r is Ok ==> {
                let m = self.messages;
                let ni = old(cs).inputs@.len();
                let na = old(cs).aux@.len();
                &&& final(cs).inputs@.len() == ni + m.connection_variables@.len()
                &&& final(cs).inputs@.take(ni as int) == old(cs).inputs@
                &&& final(cs).aux@.len() == na + m.private_variables@.len()
                &&& final(cs).aux@.take(na as int) == old(cs).aux@
                &&& final(cs).constraints@.len() == old(cs).constraints@.len()
                    + m.constraints@.len()
                &&& final(cs).constraints@.take(old(cs).constraints@.len() as int)
                    == old(cs).constraints@
                &&& forall|j: int|
                    0 <= j < m.connection_variables@.len() ==> wire_value(
                        &old(cs).field,
                        opt_bytes_view(#[trigger] m.connection_variables@[j].value),
                    ) == Ok::<Option<Seq<u8>>, Error>(opt_elem_view(final(cs).inputs@[ni + j]))
                &&& forall|j: int|
                    0 <= j < m.private_variables@.len() ==> wire_value(
                        &old(cs).field,
                        opt_bytes_view(#[trigger] m.private_variables@[j].value),
                    ) == Ok::<Option<Seq<u8>>, Error>(opt_elem_view(final(cs).aux@[na + j]))
            },
    {
        let m = self.messages;
        let ghost f = cs.field;
        let ghost ni = cs.inputs@.len();
        let ghost na = cs.aux@.len();
        let mut table = BindingTable::new();
        alloc_wire_vars(cs, &mut table, &m.connection_variables, true)?;
        let ghost mid_inputs = cs.inputs@;
        alloc_wire_vars(cs, &mut table, &m.private_variables, false)?;
        let ghost mid_aux = cs.aux@;
        let ghost c0 = cs.constraints@;
        let mut i: usize = 0;
        while i < m.constraints.len()
            invariant
                cs.field.wf(),
                cs.field == old(cs).field,
                table.wf(),
                cs.inputs@ == mid_inputs,
                cs.aux@ == mid_aux,
                0 <= i <= m.constraints@.len(),
                cs.constraints@.len() == c0.len() + i,
                cs.constraints@.take(c0.len() as int) == c0,
                f == cs.field,
                m == self.messages,
                ni == old(cs).inputs@.len(),
                na == old(cs).aux@.len(),
                c0 == old(cs).constraints@,
                table@ == circuit_bindings(m, ni, na),
                values_ok(&f, m.connection_variables@),
                values_ok(&f, m.private_variables@),
                ids_fresh(map![0u64 => Var::One], decl_ids(m.connection_variables@)),
                ids_fresh(
                    bind_seq(
                        map![0u64 => Var::One],
                        decl_ids(m.connection_variables@),
                        alloc_vars(true, ni, m.connection_variables@.len()),
                    ),
                    decl_ids(m.private_variables@),
                ),
                forall|k: int|
                    0 <= k < i ==> constraint_spec(&f, table@, &(#[trigger] m.constraints@[k]))
                        == Ok::<(LcSpec, LcSpec, LcSpec), Error>(cs.constraints@[c0.len() + k]@),
            decreases m.constraints@.len() - i,
        {
            let ghost prev = cs.constraints@;
            match enforce(cs, &table, &m.constraints[i]) {
                Ok(_) => {},
                Err(e) => {
                    assert(constraint_spec(
                        &f,
                        circuit_bindings(m, ni, na),
                        &m.constraints@[i as int],
                    ) is Err);
                    assert(!circuit_ok(&f, m, ni, na));
                    return Err(e);
                },
            }
            proof {
                assert(cs.constraints@[c0.len() + i]@ == cs.constraints_view()[c0.len() + i]);
            }
            proof {
                assert(cs.constraints@.take(c0.len() as int) =~= prev.take(c0.len() as int));
            }
            i = i + 1;
        }
        Ok(())
    }
}

} // verus!
