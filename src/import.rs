use vstd::prelude::*;
use crate::binding::BindingTable;
use crate::error::Error;
use crate::field::{decode_spec, le_to_fr, FieldParams};
use crate::r1cs::{lc_view, ConstraintSystem, LcSpec, LcTerm, R1csConstraint, Var};
use crate::wire::{terms_view, Constraint, Term};

verus! {

/// What one term translates to under bindings `m`: its decoded coefficient
/// with the handle bound to its id.
pub open spec fn term_spec(f: &FieldParams, m: Map<u64, Var>, t: (u64, Seq<u8>)) -> Result<
    (Var, Seq<u8>),
    Error,
> {
    match decode_spec(f, t.1) {
        Err(e) => Err(e),
        Ok(c) => if m.contains_key(t.0) {
            Ok((m[t.0], c))
        } else {
            Err(Error::UnknownVariable)
        },
    }
}

/// What a list of terms translates to: each term in order, or the error of
/// the first term that fails.
pub open spec fn translate_spec(f: &FieldParams, m: Map<u64, Var>, ts: Seq<(u64, Seq<u8>)>) -> Result<
    LcSpec,
    Error,
>
    decreases ts.len(),
{
    if ts.len() == 0 {
        Ok(Seq::empty())
    } else {
        match translate_spec(f, m, ts.drop_last()) {
            Err(e) => Err(e),
            Ok(p) => match term_spec(f, m, ts.last()) {
                Err(e) => Err(e),
                Ok(t) => Ok(p.push(t)),
            },
        }
    }
}

/// What a wire constraint translates to: its three sides, or the first error
/// met in the order `a`, `b`, `c`.
pub open spec fn constraint_spec(f: &FieldParams, m: Map<u64, Var>, c: &Constraint) -> Result<
    (LcSpec, LcSpec, LcSpec),
    Error,
> {
    match translate_spec(f, m, terms_view(c.a@)) {
        Err(e) => Err(e),
        Ok(a) => match translate_spec(f, m, terms_view(c.b@)) {
            Err(e) => Err(e),
            Ok(b) => match translate_spec(f, m, terms_view(c.c@)) {
                Err(e) => Err(e),
                Ok(cc) => Ok((a, b, cc)),
            },
        },
    }
}

/// Once a prefix of the terms fails, the whole list fails with that error.
pub proof fn lemma_translate_prefix_err(
    f: &FieldParams,
    m: Map<u64, Var>,
    ts: Seq<(u64, Seq<u8>)>,
    k: int,
    e: Error,
)
    requires
        0 <= k <= ts.len(),
        translate_spec(f, m, ts.take(k)) == Err::<LcSpec, Error>(e),
    ensures
        translate_spec(f, m, ts) == Err::<LcSpec, Error>(e),
    decreases ts.len(),
{
    if k == ts.len() {
        assert(ts.take(k) =~= ts);
    } else {
        assert(ts.drop_last().take(k) =~= ts.take(k));
        lemma_translate_prefix_err(f, m, ts.drop_last(), k, e);
    }
}

/// Terms whose coefficients decode and whose ids are all bound translate.
pub proof fn lemma_translate_bound_ok(f: &FieldParams, m: Map<u64, Var>, ts: Seq<(u64, Seq<u8>)>)
    requires
        forall|i: int|
            0 <= i < ts.len() ==> decode_spec(f, (#[trigger] ts[i]).1) is Ok && m.contains_key(
                ts[i].0,
            ),
    ensures
        translate_spec(f, m, ts) is Ok,
    decreases ts.len(),
{
    if ts.len() > 0 {
        lemma_translate_bound_ok(f, m, ts.drop_last());
        assert(ts.last() == ts[ts.len() - 1]);
    }
}

/// Terms whose coefficients decode but one of whose ids is unbound fail with
/// `UnknownVariable`.
pub proof fn lemma_translate_unbound(
    f: &FieldParams,
    m: Map<u64, Var>,
    ts: Seq<(u64, Seq<u8>)>,
    k: int,
)
    requires
        forall|i: int| 0 <= i < ts.len() ==> decode_spec(f, (#[trigger] ts[i]).1) is Ok,
        0 <= k < ts.len(),
        !m.contains_key(ts[k].0),
    ensures
        translate_spec(f, m, ts) == Err::<LcSpec, Error>(Error::UnknownVariable),
    decreases ts.len(),
{
    let d = ts.drop_last();
    if k == ts.len() - 1 {
        lemma_translate_errors_are_term_errors(f, m, d);
    } else {
        lemma_translate_unbound(f, m, d, k);
    }
}

/// With every coefficient decodable, translation can fail only on an
/// unbound id.
proof fn lemma_translate_errors_are_term_errors(
    f: &FieldParams,
    m: Map<u64, Var>,
    ts: Seq<(u64, Seq<u8>)>,
)
    requires
        forall|i: int| 0 <= i < ts.len() ==> decode_spec(f, (#[trigger] ts[i]).1) is Ok,
    ensures
        translate_spec(f, m, ts) is Err ==> translate_spec(f, m, ts) == Err::<LcSpec, Error>(
            Error::UnknownVariable,
        ),
    decreases ts.len(),
{
    if ts.len() > 0 {
        lemma_translate_errors_are_term_errors(f, m, ts.drop_last());
        assert(ts.last() == ts[ts.len() - 1]);
    }
}

/// A constraint all of whose coefficients decode is enforced exactly when every
/// id it names is bound, and otherwise fails with `UnknownVariable`.
pub proof fn lemma_constraint_outcome(f: &FieldParams, m: Map<u64, Var>, c: &Constraint)
    requires
        forall|i: int|
            0 <= i < c.a@.len() ==> decode_spec(f, (#[trigger] c.a@[i]).coefficient@) is Ok,
        forall|i: int|
            0 <= i < c.b@.len() ==> decode_spec(f, (#[trigger] c.b@[i]).coefficient@) is Ok,
        forall|i: int|
            0 <= i < c.c@.len() ==> decode_spec(f, (#[trigger] c.c@[i]).coefficient@) is Ok,
    ensures
        all_ids_bound(m, c) ==> constraint_spec(f, m, c) is Ok,
        !all_ids_bound(m, c) ==> constraint_spec(f, m, c) == Err::<(LcSpec, LcSpec, LcSpec), Error>(
            Error::UnknownVariable,
        ),
{
    let (a, b, cc) = (terms_view(c.a@), terms_view(c.b@), terms_view(c.c@));
    assert(forall|i: int|
        0 <= i < a.len() ==> decode_spec(f, (#[trigger] a[i]).1) is Ok && a[i] == c.a@[i]@);
    assert(forall|i: int|
        0 <= i < b.len() ==> decode_spec(f, (#[trigger] b[i]).1) is Ok && b[i] == c.b@[i]@);
    assert(forall|i: int|
        0 <= i < cc.len() ==> decode_spec(f, (#[trigger] cc[i]).1) is Ok && cc[i] == c.c@[i]@);
    lemma_translate_errors_are_term_errors(f, m, a);
    lemma_translate_errors_are_term_errors(f, m, b);
    lemma_translate_errors_are_term_errors(f, m, cc);
    if all_ids_bound(m, c) {
        assert forall|i: int| 0 <= i < a.len() implies m.contains_key((#[trigger] a[i]).0) by {
            assert(m.contains_key(c.a@[i].variable_id));
        }
        assert forall|i: int| 0 <= i < b.len() implies m.contains_key((#[trigger] b[i]).0) by {
            assert(m.contains_key(c.b@[i].variable_id));
        }
        assert forall|i: int| 0 <= i < cc.len() implies m.contains_key((#[trigger] cc[i]).0) by {
            assert(m.contains_key(c.c@[i].variable_id));
        }
        lemma_translate_bound_ok(f, m, a);
        lemma_translate_bound_ok(f, m, b);
        lemma_translate_bound_ok(f, m, cc);
    } else {
        if exists|i: int| 0 <= i < c.a@.len() && !m.contains_key(c.a@[i].variable_id) {
            let k = choose|i: int| 0 <= i < c.a@.len() && !m.contains_key(c.a@[i].variable_id);
            lemma_translate_unbound(f, m, a, k);
        } else if exists|i: int| 0 <= i < c.b@.len() && !m.contains_key(c.b@[i].variable_id) {
            let k = choose|i: int| 0 <= i < c.b@.len() && !m.contains_key(c.b@[i].variable_id);
            lemma_translate_unbound(f, m, b, k);
        } else {
            let k = choose|i: int| 0 <= i < c.c@.len() && !m.contains_key(c.c@[i].variable_id);
            lemma_translate_unbound(f, m, cc, k);
        }
    }
}

/// Whether every id that `c` names is bound in `m`.
pub open spec fn all_ids_bound(m: Map<u64, Var>, c: &Constraint) -> bool {
    &&& forall|i: int| 0 <= i < c.a@.len() ==> m.contains_key((#[trigger] c.a@[i]).variable_id)
    &&& forall|i: int| 0 <= i < c.b@.len() ==> m.contains_key((#[trigger] c.b@[i]).variable_id)
    &&& forall|i: int| 0 <= i < c.c@.len() ==> m.contains_key((#[trigger] c.c@[i]).variable_id)
}

/// Translates wire terms into a linear combination over the handles that
/// `vars` binds, decoding each coefficient in field `f`.
pub fn terms_to_lc(f: &FieldParams, vars: &BindingTable, terms: &[Term]) -> (r: Result<Vec<LcTerm>, Error>)
    requires
        f.wf(),
        vars.wf(),
    ensures
        match r {
            Ok(lc) => translate_spec(f, vars@, terms_view(terms@)) == Ok::<LcSpec, Error>(lc_view(lc@)),
            Err(e) => translate_spec(f, vars@, terms_view(terms@)) == Err::<LcSpec, Error>(e),
        },
{
    let ghost ts = terms_view(terms@);
    let mut lc: Vec<LcTerm> = Vec::new();
    let mut i: usize = 0;
    assert(ts.take(0) =~= Seq::<(u64, Seq<u8>)>::empty());
    assert(lc_view(lc@) =~= Seq::<(Var, Seq<u8>)>::empty());
    while i < terms.len()
        invariant
            f.wf(),
            vars.wf(),
            ts == terms_view(terms@),
            0 <= i <= terms@.len(),
            translate_spec(f, vars@, ts.take(i as int)) == Ok::<LcSpec, Error>(lc_view(lc@)),
        decreases terms@.len() - i,
    {
        let term = &terms[i];
        assert(ts.take(i + 1).drop_last() =~= ts.take(i as int));
        assert(ts.take(i + 1).last() == term@);
        let coeff = match le_to_fr(f, term.coefficient.as_slice()) {
            Ok(c) => c,
            Err(e) => {
                proof {
                    lemma_translate_prefix_err(f, vars@, ts, i + 1, e);
                }
                return Err(e);
            },
        };
        let var = match vars.resolve(term.variable_id) {
            Ok(v) => v,
            Err(e) => {
                proof {
                    lemma_translate_prefix_err(f, vars@, ts, i + 1, e);
                }
                return Err(e);
            },
        };
        let ghost prev = lc@;
        let ghost cv = coeff@;
        lc.push(LcTerm { var, coeff });
        assert(lc_view(lc@) =~= lc_view(prev).push((var, cv)));
        i = i + 1;
    }
    assert(ts.take(terms@.len() as int) =~= ts);
    Ok(lc)
}

/// Translates `constraint` under the bindings of `vars` and adds it to `cs`.
/// On failure `cs` is left as it was.
pub fn enforce(cs: &mut ConstraintSystem, vars: &BindingTable, constraint: &Constraint) -> (r: Result<
    (),
    Error,
>)
    requires
        old(cs).field.wf(),
        vars.wf(),
    ensures
        final(cs).field == old(cs).field,
        final(cs).inputs@ == old(cs).inputs@,
        final(cs).aux@ == old(cs).aux@,
        match constraint_spec(&old(cs).field, vars@, constraint) {
            Ok(v) => {
                &&& r is Ok
                &&& final(cs).constraints_view() == old(cs).constraints_view().push(v)
                &&& final(cs).constraints@.len() == old(cs).constraints@.len() + 1
                &&& final(cs).constraints@.take(old(cs).constraints@.len() as int)
                    == old(cs).constraints@
            },
            Err(e) => r == Err::<(), Error>(e) && final(cs).constraints@ == old(cs).constraints@,
        },
{
    let rc = translate_constraint(&cs.field, vars, constraint);
    match rc {
        Ok(c) => {
            let ghost prev = cs.constraints@;
            let ghost cv = c@;
            cs.constraints.push(c);
            assert(cs.constraints@.map_values(|c: R1csConstraint| c@) =~= prev.map_values(
                |c: R1csConstraint| c@,
            ).push(cv));
            assert(cs.constraints@.take(prev.len() as int) =~= prev);
            Ok(())
        },
        Err(e) => Err(e),
    }
}

/// Translates the three sides of `constraint` under the bindings of `vars`.
pub fn translate_constraint(f: &FieldParams, vars: &BindingTable, constraint: &Constraint) -> (r:
    Result<R1csConstraint, Error>)
    requires
        f.wf(),
        vars.wf(),
    ensures
        match r {
            Ok(c) => constraint_spec(f, vars@, constraint) == Ok::<(LcSpec, LcSpec, LcSpec), Error>(c@),
            Err(e) => constraint_spec(f, vars@, constraint) == Err::<(LcSpec, LcSpec, LcSpec), Error>(e),
        },
{
    let a = terms_to_lc(f, vars, constraint.a.as_slice())?;
    let b = terms_to_lc(f, vars, constraint.b.as_slice())?;
    let c = terms_to_lc(f, vars, constraint.c.as_slice())?;
    Ok(R1csConstraint { a, b, c })
}

} // verus!
