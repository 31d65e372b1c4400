use vstd::prelude::*;
use crate::error::Error;
use crate::r1cs::Var;

verus! {

/// Maps wire-level variable ids to the handles of one synthesis session. Id 0
/// is bound to the constant one from the start; each id is bound at most once.
pub struct BindingTable {
    ids: Vec<u64>,
    vars: Vec<Var>,
    bound: Ghost<Map<u64, Var>>,
}

impl View for BindingTable {
    type V = Map<u64, Var>;

    closed spec fn view(&self) -> Map<u64, Var> {
        self.bound@
    }
}

impl BindingTable {
    pub closed spec fn wf(&self) -> bool {
        &&& self.ids@.len() == self.vars@.len()
        &&& self.bound@.contains_key(0) && self.bound@[0] == Var::One
        &&& forall|i: int|
            0 <= i < self.ids@.len() ==> #[trigger] self.bound@.contains_key(self.ids@[i])
                && self.bound@[self.ids@[i]] == self.vars@[i]
        &&& forall|id: u64| #[trigger] self.bound@.contains_key(id) ==> self.ids@.contains(id)
    }

    /// A table holding only the binding of id 0 to the constant one.
    pub fn new() -> (r: BindingTable)
        ensures
            r.wf(),
            r@ == map![0u64 => Var::One],
    {
        let mut ids: Vec<u64> = Vec::new();
        let mut vars: Vec<Var> = Vec::new();
        ids.push(0);
        vars.push(Var::One);
        let ghost m: Map<u64, Var> = map![0u64 => Var::One];
        let r = BindingTable { ids, vars, bound: Ghost(m) };
        proof {
            assert forall|id: u64| #[trigger] r.bound@.contains_key(id) implies r.ids@.contains(id) by {
                assert(r.ids@[0] == id);
            }
        }
        r
    }

    /// The handle bound to `id`.
    pub fn resolve(&self, id: u64) -> (r: Result<Var, Error>)
        requires
            self.wf(),
        ensures
            self@.contains_key(id) <==> r is Ok,
            r matches Ok(v) ==> v == self@[id],
            r matches Err(e) ==> e == Error::UnknownVariable,
    {
        let mut i: usize = 0;
        while i < self.ids.len()
            invariant
                self.wf(),
                0 <= i <= self.ids@.len(),
                forall|j: int| 0 <= j < i ==> self.ids@[j] != id,
            decreases self.ids@.len() - i,
        {
            if self.ids[i] == id {
                assert(self.bound@.contains_key(self.ids@[i as int]));
                return Ok(self.vars[i]);
            }
            i = i + 1;
        }
        Err(Error::UnknownVariable)
    }

    /// Binds `id` to `v`, unless `id` is bound already.
    pub fn bind(&mut self, id: u64, v: Var) -> (r: Result<(), Error>)
        requires
            old(self).wf(),
        ensures
            final(self).wf(),
            old(self)@.contains_key(id) <==> r is Err,
            r matches Err(e) ==> e == Error::DuplicateBinding && final(self)@ == old(self)@,
            r is Ok ==> final(self)@ == old(self)@.insert(id, v),
    {
        match self.resolve(id) {
            Ok(_) => Err(Error::DuplicateBinding),
            Err(_) => {
                let ghost old_ids = self.ids@;
                self.ids.push(id);
                self.vars.push(v);
                let ghost m = self.bound@.insert(id, v);
                self.bound = Ghost(m);
                proof {
                    assert forall|i: int| 0 <= i < self.ids@.len() implies
                        #[trigger] self.bound@.contains_key(self.ids@[i])
                        && self.bound@[self.ids@[i]] == self.vars@[i] by {
                        if i < old_ids.len() {
                            assert(old(self).bound@.contains_key(old_ids[i]));
                        }
                    }
                    assert forall|k: u64| #[trigger] self.bound@.contains_key(k) implies
                        self.ids@.contains(k) by {
                        if k == id {
                            assert(self.ids@[old_ids.len() as int] == k);
                        } else {
                            assert(old(self).bound@.contains_key(k));
                            let j = choose|j: int| 0 <= j < old_ids.len() && old_ids[j] == k;
                            assert(self.ids@[j] == k);
                        }
                    }
                }
                Ok(())
            }
        }
    }
}

/// `base` extended by binding each of `ids` to the handle at the same place in
/// `vars`, in order.
pub open spec fn bind_seq(base: Map<u64, Var>, ids: Seq<u64>, vars: Seq<Var>) -> Map<u64, Var>
    decreases ids.len(),
{
    if ids.len() == 0 {
        base
    } else {
        bind_seq(base, ids.drop_last(), vars).insert(ids.last(), vars[ids.len() - 1])
    }
}

/// Whether `ids` are pairwise distinct and none is bound in `base`: the
/// condition under which binding them one by one never fails.
pub open spec fn ids_fresh(base: Map<u64, Var>, ids: Seq<u64>) -> bool {
    &&& forall|i: int| 0 <= i < ids.len() ==> !base.contains_key(#[trigger] ids[i])
    &&& forall|i: int, j: int| 0 <= i < j < ids.len() ==> ids[i] != ids[j]
}

/// The ids bound by `bind_seq` are those of `base` and `ids`.
pub proof fn lemma_bind_seq_dom(base: Map<u64, Var>, ids: Seq<u64>, vars: Seq<Var>, id: u64)
    ensures
        bind_seq(base, ids, vars).contains_key(id) <==> (base.contains_key(id) || ids.contains(id)),
    decreases ids.len(),
{
    if ids.len() > 0 {
        lemma_bind_seq_dom(base, ids.drop_last(), vars, id);
        if ids.drop_last().contains(id) {
            let k = choose|k: int| 0 <= k < ids.drop_last().len() && ids.drop_last()[k] == id;
            assert(ids[k] == id);
        }
        if ids.contains(id) && id != ids.last() {
            let k = choose|k: int| 0 <= k < ids.len() && ids[k] == id;
            assert(ids.drop_last()[k] == id);
        }
    }
}

/// Binding one more id, not yet bound, to `v`: the step of a loop that binds
/// `ids` in order.
pub proof fn lemma_bind_seq_step(
    base: Map<u64, Var>,
    ids: Seq<u64>,
    vars: Seq<Var>,
    j: int,
)
    requires
        0 <= j < ids.len(),
    ensures
        bind_seq(base, ids.take(j + 1), vars) == bind_seq(base, ids.take(j), vars).insert(
            ids[j],
            vars[j],
        ),
        ids_fresh(base, ids.take(j)) ==> (ids_fresh(base, ids.take(j + 1)) <==> !bind_seq(
            base,
            ids.take(j),
            vars,
        ).contains_key(ids[j])),
{
    assert(ids.take(j + 1).drop_last() =~= ids.take(j));
    lemma_bind_seq_dom(base, ids.take(j), vars, ids[j]);
    if ids_fresh(base, ids.take(j)) && !ids_fresh(base, ids.take(j + 1)) {
        if ids.take(j).contains(ids[j]) {
        } else if base.contains_key(ids[j]) {
        } else {
            assert(ids_fresh(base, ids.take(j + 1)));
        }
    }
    if ids.take(j).contains(ids[j]) {
        let k = choose|k: int| 0 <= k < ids.take(j).len() && ids.take(j)[k] == ids[j];
        assert(ids.take(j + 1)[k] == ids.take(j + 1)[j]);
    }
}

/// A prefix of fresh ids is fresh.
pub proof fn lemma_fresh_prefix(base: Map<u64, Var>, ids: Seq<u64>, k: int)
    requires
        0 <= k <= ids.len(),
        ids_fresh(base, ids),
    ensures
        ids_fresh(base, ids.take(k)),
{
}

/// Every table binds id 0 to the constant one, from its creation on and
/// through every binding; so by `bind`'s contract, binding id 0 again always
/// fails with `DuplicateBinding`.
pub proof fn lemma_zero_always_bound(t: &BindingTable)
    requires
        t.wf(),
    ensures
        t@.contains_key(0),
        t@[0] == Var::One,
{
}

} // verus!
