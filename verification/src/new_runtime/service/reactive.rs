//! Reactives of a service: variables, which hold a written value, and
//! definitions, which compute their value from the values of their inputs.
use vstd::prelude::*;

use crate::ast::{Expr, ExprV};
use crate::new_runtime::evaluator::{
    eval, full_outcome, reads_of, EvalError, EvalOutcome, Evaluator, ReadEntry, Reads, EVAL_FUEL,
};
use crate::new_runtime::message::{
    stamp_join, BasisStamp, ReactiveConfiguration, RefKey, StampedValue, Version,
};
use crate::new_runtime::service::batch::{
    applied_entries, applied_valued, applied_value, batch_stamps, batch_stamps_upto, chosen_batch, counts_view,
    count_sum, find_batch, fits_queues, gather_roots, input_roots, is_lub, lemma_lub_insert, lemma_search_fits,
    start_basis, taken_stamps, total_updates,
};
use crate::new_runtime::service::{Fault, ReactiveRef};
use crate::table::Table;

verus! {

/// What a definition knows of one of its inputs: its current value, if it
/// has one, and the updates it has received and not yet applied, oldest
/// first.
#[derive(Debug)]
pub struct Input {
    pub value: Option<StampedValue>,
    pub updates: Vec<StampedValue>,
}

impl Input {
    /// An input with no value and no updates.
    pub fn new() -> (r: Input)
        ensures
            r.value is None,
            r.updates@.len() == 0,
    {
        Input { value: None, updates: Vec::new() }
    }
}

/// The reads that the current values of the inputs allow, one entry per
/// input in table order.
pub open spec fn input_entries(keys: Seq<RefKey>, inputs: Seq<Input>) -> Seq<(RefKey, Option<ExprV>)> {
    Seq::new(keys.len(), |i: int| (keys[i], match inputs[i].value {
        Some(v) => Some(v.value@),
        None => None,
    }))
}

/// The union of the basis stamps of the inputs' current values.
pub open spec fn join_bases(inputs: Seq<Input>) -> Map<RefKey, u64>
    decreases inputs.len(),
{
    if inputs.len() == 0 {
        Map::empty()
    } else {
        let rest = join_bases(inputs.drop_last());
        match inputs.last().value {
            Some(v) => stamp_join(rest, v.basis@),
            None => rest,
        }
    }
}

/// Whether every input has a value.
pub open spec fn all_valued(inputs: Seq<Input>) -> bool {
    forall|i: int| 0 <= i < inputs.len() ==> (#[trigger] inputs[i]).value is Some
}

/// A definition: an expression and what it knows of each reactive the
/// expression reads.
pub struct Definition {
    service: u64,
    evaluator: Evaluator,
    inputs: Table<ReactiveRef, Input>,
    expr: Expr,
}

impl Definition {
    pub closed spec fn service(&self) -> u64 {
        self.service
    }

    pub closed spec fn expression(&self) -> ExprV {
        self.expr@
    }

    pub closed spec fn inputs(&self) -> Table<ReactiveRef, Input> {
        self.inputs
    }

    /// The evaluation of the expression from the current input values.
    pub open spec fn evaluation(&self) -> (ExprV, EvalOutcome) {
        eval(
            Seq::empty(),
            self.expression(),
            self.service(),
            (input_entries(self.inputs().keys(), self.inputs().values()), true),
            EVAL_FUEL as nat,
            false,
        )
    }

    /// A definition's inputs are exactly the reactives its expression reads.
    pub closed spec fn wf(&self) -> bool {
        &&& self.evaluator@ == Seq::<crate::new_runtime::evaluator::FrameV>::empty()
        &&& self.inputs.map().dom() == reads_of(Seq::empty(), self.expr@, self.service).to_set()
    }

    /// A well-formed definition reads only reactives of its own service.
    pub proof fn lemma_inputs_local(&self)
        requires
            self.wf(),
        ensures
            forall|k: RefKey| #[trigger] self.inputs().map().contains_key(k) ==> k.0 == self.service(),
            forall|j: int| 0 <= j < self.inputs().keys().len() ==> (#[trigger] self.inputs().keys()[j]).0 == self.service(),
    {
        crate::new_runtime::evaluator::lemma_reads_local(Seq::empty(), self.expr@, self.service);
        let rs = reads_of(Seq::empty(), self.expr@, self.service);
        assert forall|k: RefKey| #[trigger] self.inputs().map().contains_key(k) implies k.0 == self.service() by {
            assert(rs.to_set().contains(k));
            let i = choose|i: int| 0 <= i < rs.len() && rs[i] == k;
            assert(rs[i].0 == self.service);
        }
        assert forall|j: int| 0 <= j < self.inputs().keys().len() implies (#[trigger] self.inputs().keys()[j]).0 == self.service() by {
            assert(self.inputs().keys().contains(self.inputs().keys()[j]));
            assert(self.inputs().map().contains_key(self.inputs().keys()[j]));
        }
    }

    /// A definition of `expr`, with an input without value for each reactive
    /// that `expr` reads.
    pub fn new(expr: Expr, service: u64) -> (r: Definition)
        ensures
            r.wf(),
            r.service() == service,
            r.expression() == expr@,
            r.inputs().map().dom() == reads_of(Seq::empty(), expr@, service).to_set(),
            forall|k: RefKey| #[trigger] r.inputs().map().contains_key(k) ==> r.inputs().map()[k].value is None
                && r.inputs().map()[k].updates@.len() == 0,
            r.inputs().keys().len() > 0 ==> !all_valued(r.inputs().values()),
    {
        let mut evaluator = Evaluator::new();
        let mut refs: Vec<ReactiveRef> = Vec::new();
        evaluator.visit_reads(&expr, service, &mut refs);
        let ghost rs = crate::new_runtime::evaluator::refs_view(refs@);
        proof {
            assert(rs =~= reads_of(Seq::empty(), expr@, service));
        }
        let mut inputs: Table<ReactiveRef, Input> = Table::new();
        let mut i: usize = 0;
        while i < refs.len()
            invariant
                i <= refs.len(),
                rs == crate::new_runtime::evaluator::refs_view(refs@),
                inputs.map().dom() == rs.subrange(0, i as int).to_set(),
                forall|k: RefKey| #[trigger] inputs.map().contains_key(k) ==> inputs.map()[k].value is None
                    && inputs.map()[k].updates@.len() == 0,
            decreases refs.len() - i,
        {
            let _ = inputs.insert(refs[i].copy(), Input::new());
            proof {
                assert(rs.subrange(0, i + 1) =~= rs.subrange(0, i as int).push(rs[i as int]));
                rs.subrange(0, i as int).lemma_push_to_set_commute(rs[i as int]);
            }
            i = i + 1;
        }
        proof {
            assert(rs.subrange(0, refs@.len() as int) =~= rs);
        }
        let _ = inputs.len();
        proof {
            inputs.lemma_len();
            if inputs.keys().len() > 0 {
                inputs.lemma_entry(0);
                assert(inputs.values()[0].value is None);
            }
        }
        Definition { service, evaluator, inputs, expr }
    }
}

} // verus!

verus! {

/// The reads that the inputs' current values allow, exhaustive: reading a
/// reactive that is not an input has no result.
fn input_reads(inputs: &Table<ReactiveRef, Input>) -> (r: Reads)
    ensures
        r@ == (input_entries(inputs.keys(), inputs.values()), true),
{
    let mut entries: Vec<ReadEntry> = Vec::new();
    let n = inputs.len();
    proof {
        inputs.lemma_len();
    }
    let mut i: usize = 0;
    while i < n
        invariant
            i <= n,
            n == inputs.size(),
            inputs.keys().len() == n,
            inputs.values().len() == n,
            entries@.len() == i,
            forall|j: int| 0 <= j < i ==> #[trigger] crate::new_runtime::evaluator::entries_view(entries@)[j]
                == input_entries(inputs.keys(), inputs.values())[j],
        decreases n - i,
    {
        let k = inputs.key_at(i);
        let inp = inputs.value_at(i);
        let v = match &inp.value {
            Some(sv) => Some(sv.value.copy()),
            None => None,
        };
        let ghost before = entries@;
        entries.push(ReadEntry { reactive: k.copy(), value: v });
        proof {
            let ev = crate::new_runtime::evaluator::entries_view(entries@);
            let eb = crate::new_runtime::evaluator::entries_view(before);
            assert(entries@.drop_last() =~= before);
            assert(ev[i as int] == input_entries(inputs.keys(), inputs.values())[i as int]);
            assert forall|j: int| 0 <= j < i + 1 implies #[trigger] ev[j]
                == input_entries(inputs.keys(), inputs.values())[j] by {
                if j < i {
                    assert(ev[j] == eb[j]);
                }
            }
        }
        i = i + 1;
    }
    let r = Reads { entries, exhaustive: true };
    proof {
        inputs.lemma_len();
        assert(crate::new_runtime::evaluator::entries_view(r.entries@) =~= input_entries(inputs.keys(), inputs.values()));
    }
    r
}

/// The union of the basis stamps of the inputs' values, all of which have one.
fn joined_bases(inputs: &Table<ReactiveRef, Input>) -> (r: BasisStamp)
    requires
        all_valued(inputs.values()),
    ensures
        r@ == join_bases(inputs.values()),
{
    let mut b = BasisStamp::empty();
    let n = inputs.len();
    proof {
        inputs.lemma_len();
        assert(inputs.values().subrange(0, 0) =~= Seq::<Input>::empty());
    }
    let mut i: usize = 0;
    while i < n
        invariant
            i <= n,
            n == inputs.size(),
            inputs.values().len() == n,
            all_valued(inputs.values()),
            b@ == join_bases(inputs.values().subrange(0, i as int)),
        decreases n - i,
    {
        let inp = inputs.value_at(i);
        proof {
            assert(inputs.values()[i as int].value is Some);
        }
        match &inp.value {
            Some(sv) => b.merge_from(&sv.basis),
            None => {},
        }
        proof {
            let sub = inputs.values().subrange(0, i + 1);
            assert(sub.drop_last() =~= inputs.values().subrange(0, i as int));
        }
        i = i + 1;
    }
    proof {
        assert(inputs.values().subrange(0, n as int) =~= inputs.values());
    }
    b
}

/// Whether every input has a value.
fn inputs_valued(inputs: &Table<ReactiveRef, Input>) -> (r: bool)
    ensures
        r == all_valued(inputs.values()),
{
    let n = inputs.len();
    proof {
        inputs.lemma_len();
    }
    let mut i: usize = 0;
    while i < n
        invariant
            i <= n,
            n == inputs.values().len(),
            n == inputs.size(),
            forall|j: int| 0 <= j < i ==> (#[trigger] inputs.values()[j]).value is Some,
        decreases n - i,
    {
        if inputs.value_at(i).value.is_none() {
            return false;
        }
        i = i + 1;
    }
    true
}

/// What computing a definition gives for an evaluation `ev` of its
/// expression, when every input has a value (`valued`) or not, and the
/// inputs' bases join to `basis`.
pub open spec fn computed(ev: (ExprV, EvalOutcome), valued: bool, basis: Map<RefKey, u64>, r: Result<Option<StampedValue>, Fault>) -> bool {
    match ev.1 {
        EvalOutcome::Done => if valued {
            r matches Ok(Some(sv)) && sv.value@ == ev.0 && sv.basis@ == basis
        } else {
            r matches Err(Fault::MissingInput)
        },
        EvalOutcome::Unknown(_) => r matches Ok(None),
        EvalOutcome::Stuck => r matches Err(Fault::Stuck),
        EvalOutcome::Failed(m) => r matches Err(Fault::Evaluation(e)) && full_outcome(Err(e)) == ev.1,
        EvalOutcome::Unresolved(_) => false,
    }
}

impl Definition {
    /// Computes the value of the expression from the current input values:
    /// the value with the union of the inputs' bases, or `None` while some
    /// input it needs has no value. A failed evaluation, or a value computed
    /// while some input has none, is a fault.
    fn compute(&mut self) -> (r: Result<Option<StampedValue>, Fault>)
        requires
            old(self).wf(),
        ensures
            final(self).wf(),
            final(self).service() == old(self).service(),
            final(self).expression() == old(self).expression(),
            final(self).inputs() == old(self).inputs(),
            computed(old(self).evaluation(), all_valued(old(self).inputs().values()),
                join_bases(old(self).inputs().values()), r),
    {
        let reads = input_reads(&self.inputs);
        let mut e = self.expr.copy();
        proof {
            crate::new_runtime::evaluator::lemma_missing_kind(Seq::empty(), self.expr@, self.service, reads@,
                EVAL_FUEL as nat, false);
        }
        let result = self.evaluator.eval_expr_checked(&mut e, self.service, &reads);
        match result {
            Some(Ok(())) => {
                if inputs_valued(&self.inputs) {
                    let basis = joined_bases(&self.inputs);
                    Ok(Some(StampedValue { value: e, basis }))
                } else {
                    Err(Fault::MissingInput)
                }
            },
            Some(Err(EvalError::UnknownVariable(_))) => Ok(None),
            Some(Err(err)) => Err(Fault::Evaluation(err)),
            None => Err(Fault::Stuck),
        }
    }
}

} // verus!

verus! {

/// Whether `refs` holds `k`.
pub(crate) fn refs_contain(refs: &Vec<ReactiveRef>, k: &ReactiveRef) -> (r: bool)
    ensures
        r == crate::new_runtime::evaluator::refs_view(refs@).contains(k@),
{
    let ghost rs = crate::new_runtime::evaluator::refs_view(refs@);
    let mut i: usize = 0;
    while i < refs.len()
        invariant
            i <= refs.len(),
            rs == crate::new_runtime::evaluator::refs_view(refs@),
            forall|j: int| 0 <= j < i ==> rs[j] != k@,
        decreases refs.len() - i,
    {
        if refs[i].same(k) {
            proof {
                assert(rs[i as int] == k@);
            }
            return true;
        }
        i = i + 1;
    }
    false
}

impl Definition {
    /// Changes the expression to `expr`: inputs that `expr` still reads keep
    /// what they know, new ones start without value, others are dropped.
    #[verifier::loop_isolation(false)]
    pub fn reconfigure(&mut self, expr: Expr)
        requires
            old(self).wf(),
        ensures
            final(self).wf(),
            final(self).service() == old(self).service(),
            final(self).expression() == expr@,
            final(self).inputs().map().dom() == reads_of(Seq::empty(), expr@, old(self).service()).to_set(),
            forall|k: RefKey| #[trigger] final(self).inputs().map().contains_key(k) ==> (
                if old(self).inputs().map().contains_key(k) {
                    final(self).inputs().map()[k] == old(self).inputs().map()[k]
                } else {
                    final(self).inputs().map()[k].value is None && final(self).inputs().map()[k].updates@.len() == 0
                }),
    {
        let mut refs: Vec<ReactiveRef> = Vec::new();
        self.evaluator.visit_reads(&expr, self.service, &mut refs);
        let ghost rs = crate::new_runtime::evaluator::refs_view(refs@);
        let ghost old_map = self.inputs.map();
        let ghost svc = self.service;
        let ghost ev = self.evaluator@;
        let mut i: usize = 0;
        while i < refs.len()
            invariant
                i <= refs.len(),
                rs == crate::new_runtime::evaluator::refs_view(refs@),
                rs == reads_of(Seq::empty(), expr@, self.service),
                self.service == svc,
                self.evaluator@ == ev,
                self.inputs.map().dom() == old_map.dom() + rs.subrange(0, i as int).to_set(),
                forall|k: RefKey| #[trigger] self.inputs.map().contains_key(k) ==> (
                    if old_map.contains_key(k) {
                        self.inputs.map()[k] == old_map[k]
                    } else {
                        self.inputs.map()[k].value is None && self.inputs.map()[k].updates@.len() == 0
                    }),
            decreases refs.len() - i,
        {
            if !self.inputs.contains_key(&refs[i]) {
                let _ = self.inputs.insert(refs[i].copy(), Input::new());
            }
            proof {
                assert(rs.subrange(0, i + 1) =~= rs.subrange(0, i as int).push(rs[i as int]));
                rs.subrange(0, i as int).lemma_push_to_set_commute(rs[i as int]);
                assert(self.inputs.map().dom() =~= old_map.dom() + rs.subrange(0, i + 1).to_set());
            }
            i = i + 1;
        }
        proof {
            assert(rs.subrange(0, refs@.len() as int) =~= rs);
        }
        let n = self.inputs.len();
        let mut keys: Vec<ReactiveRef> = Vec::new();
        let mut j: usize = 0;
        while j < n
            invariant
                j <= n,
                n == self.inputs.size(),
                self.inputs.keys().len() == n,
                self.service == svc,
                self.evaluator@ == ev,
                crate::new_runtime::evaluator::refs_view(keys@) == self.inputs.keys().subrange(0, j as int),
            decreases n - j,
        {
            proof {
                self.inputs.lemma_len();
            }
            let ghost before = keys@;
            keys.push(self.inputs.key_at(j).copy());
            proof {
                assert(keys@.drop_last() =~= before);
                assert(crate::new_runtime::evaluator::refs_view(keys@) =~= self.inputs.keys().subrange(0, j + 1));
            }
            j = j + 1;
        }
        proof {
            self.inputs.lemma_len();
            assert(self.inputs.keys().subrange(0, n as int) =~= self.inputs.keys());
        }
        let ghost full = self.inputs.map();
        let ghost ks = crate::new_runtime::evaluator::refs_view(keys@);
        let mut m: usize = 0;
        while m < keys.len()
            invariant
                m <= keys.len(),
                ks == crate::new_runtime::evaluator::refs_view(keys@),
                full.dom() == ks.to_set(),
                self.service == svc,
                self.evaluator@ == ev,
                forall|k: RefKey| #[trigger] self.inputs.map().contains_key(k) <==> (full.contains_key(k)
                    && (rs.contains(k) || forall|t: int| 0 <= t < m ==> ks[t] != k)),
                forall|k: RefKey| #[trigger] self.inputs.map().contains_key(k) ==> self.inputs.map()[k] == full[k],
            decreases keys.len() - m,
        {
            let ghost before = self.inputs.map();
            if !refs_contain(&refs, &keys[m]) {
                let _ = self.inputs.remove(&keys[m]);
            }
            proof {
                assert forall|k: RefKey| #[trigger] self.inputs.map().contains_key(k) <==> (full.contains_key(k)
                    && (rs.contains(k) || forall|t: int| 0 <= t < m + 1 ==> ks[t] != k)) by {
                    if k != ks[m as int] {
                        assert((forall|t: int| 0 <= t < m + 1 ==> ks[t] != k) <==> (forall|t: int| 0 <= t < m ==> ks[t] != k));
                    }
                }
            }
            m = m + 1;
        }
        proof {
            assert forall|k: RefKey| #[trigger] self.inputs.map().contains_key(k) <==> rs.to_set().contains(k) by {
                if rs.contains(k) {
                    assert(full.contains_key(k));
                }
                if full.contains_key(k) && !rs.contains(k) {
                    let t = choose|t: int| 0 <= t < ks.len() && ks[t] == k;
                    assert(ks[t] == k);
                }
            }
            assert(self.inputs.map().dom() =~= rs.to_set());
        }
        self.expr = expr;
    }

    /// Queues an update received from input `sender`.
    pub fn add_update(&mut self, sender: ReactiveRef, value: StampedValue)
        requires
            old(self).wf(),
            old(self).inputs().map().contains_key(sender@),
        ensures
            final(self).wf(),
            final(self).service() == old(self).service(),
            final(self).expression() == old(self).expression(),
            final(self).inputs().keys() == old(self).inputs().keys(),
            final(self).inputs().map() == old(self).inputs().map().insert(sender@, Input {
                value: old(self).inputs().map()[sender@].value,
                updates: final(self).inputs().map()[sender@].updates,
            }),
            final(self).inputs().map()[sender@].updates@ == old(self).inputs().map()[sender@].updates@.push(value),
            final(self).inputs().values().len() == old(self).inputs().values().len(),
            forall|j: int| 0 <= j < old(self).inputs().values().len() ==> (#[trigger] final(self).inputs().values()[j]).value
                == old(self).inputs().values()[j].value,
    {
        proof {
            self.inputs.lemma_len();
        }
        match self.inputs.position(&sender) {
            Some(i) => {
                proof {
                    self.inputs.lemma_len();
                }
                let mut inp = self.inputs.replace_at(i, Input::new());
                proof {
                    self.inputs.lemma_len();
                }
                inp.updates.push(value);
                let _ = self.inputs.replace_at(i, inp);
            },
            None => {},
        }
    }
}

} // verus!

verus! {

/// Whether the inputs `new` are the inputs `old` after batch `c`: each input
/// has taken the first `c[i]` of its queued updates, its value being the last
/// one it took.
pub open spec fn batch_applied(old: Seq<Input>, c: Seq<int>, new: Seq<Input>) -> bool {
    &&& new.len() == old.len()
    &&& forall|i: int| 0 <= i < old.len() ==> (#[trigger] new[i]).value == applied_value(old[i], c[i])
        && new[i].updates@ == old[i].updates@.subrange(c[i], old[i].updates@.len() as int)
}

/// What evaluating the expression after a batch gives for the evaluation
/// `ev`: the value, with the least upper bound of `stamps` as basis; a fault
/// when the evaluation does not end in a value.
pub open spec fn batch_result(ev: (ExprV, EvalOutcome), stamps: Set<Map<RefKey, u64>>, r: Result<Option<StampedValue>, Fault>) -> bool {
    match ev.1 {
        EvalOutcome::Done => r matches Ok(Some(sv)) && sv.value@ == ev.0 && is_lub(sv.basis@, stamps),
        EvalOutcome::Stuck => r matches Err(Fault::Stuck),
        _ => r matches Err(Fault::Evaluation(e)) && full_outcome(Err(e)) == ev.1,
    }
}

/// What finding and applying a batch does to definition `d`, giving `r`:
/// nothing when no seed has a batch; otherwise every input takes its part of
/// the chosen batch, and the expression is evaluated exactly when every
/// input then has a value.
pub open spec fn batch_step(d: Definition, roots: Map<RefKey, Vec<ReactiveRef>>, d2: Definition, r: Result<Option<StampedValue>, Fault>) -> bool {
    &&& d2.wf()
    &&& d2.service() == d.service()
    &&& d2.expression() == d.expression()
    &&& d2.inputs().keys() == d.inputs().keys()
    &&& match chosen_batch(d.inputs().values(), input_roots(d.inputs().keys(), roots)) {
        None => r matches Ok(None) && d2.inputs() == d.inputs(),
        Some(c) => batch_applied(d.inputs().values(), c, d2.inputs().values())
            && if applied_valued(d.inputs().values(), c) {
                batch_result(d.batch_eval(c), batch_stamps(d.inputs().values(), c), r)
            } else {
                r matches Ok(None)
            },
    }
}

impl Definition {
    /// The evaluation of the expression once batch `c` is applied.
    pub open spec fn batch_eval(&self, c: Seq<int>) -> (ExprV, EvalOutcome) {
        eval(
            Seq::empty(),
            self.expression(),
            self.service(),
            (applied_entries(self.inputs().keys(), self.inputs().values(), c), true),
            EVAL_FUEL as nat,
            false,
        )
    }

    /// Finds the batch of queued updates to apply (the least batch of the
    /// last seed, in input order, that has one) and applies it. Gives the new
    /// value when every input then has a value: the expression evaluated over
    /// the inputs' values, with the least upper bound of the taken updates'
    /// bases and the bases of the inputs that took none.
    pub fn find_and_apply_batch(&mut self, roots: &Table<ReactiveRef, Vec<ReactiveRef>>) -> (r: Result<
        Option<StampedValue>,
        Fault,
    >)
        requires
            old(self).wf(),
            forall|k: RefKey| #[trigger] old(self).inputs().map().contains_key(k) ==> roots.map().contains_key(k),
        ensures
            batch_step(*old(self), roots.map(), *final(self), r),
    {
        let ghost ins = self.inputs.values();
        let ghost keys = self.inputs.keys();
        let ghost rs = input_roots(keys, roots.map());
        let rts = gather_roots(&self.inputs, roots);
        let found = find_batch(&self.inputs, &rts);
        let (counts, mut basis) = match found {
            None => {
                return Ok(None);
            },
            Some(f) => f,
        };
        let ghost cs = counts_view(counts@);
        proof {
            lemma_search_fits(ins, rs, 0, Set::empty(), None);
            assert(fits_queues(ins, cs));
            assert(batch_stamps_upto(ins, cs, 0) =~= taken_stamps(ins, cs));
        }
        let n = self.inputs.len();
        proof {
            self.inputs.lemma_len();
        }
        let mut complete = true;
        let mut i: usize = 0;
        while i < n
            invariant
                i <= n,
                n == ins.len(),
                n == keys.len(),
                counts@.len() == n,
                cs == counts_view(counts@),
                fits_queues(ins, cs),
                self.inputs.keys() == keys,
                self.inputs.size() == n,
                self.inputs.values().len() == n,
                self.service == old(self).service,
                self.evaluator == old(self).evaluator,
                self.expr == old(self).expr,
                forall|a: int| 0 <= a < i ==> (#[trigger] self.inputs.values()[a]).value == applied_value(ins[a], cs[a])
                    && self.inputs.values()[a].updates@ == ins[a].updates@.subrange(cs[a], ins[a].updates@.len() as int),
                forall|a: int| i <= a < n ==> #[trigger] self.inputs.values()[a] == ins[a],
                is_lub(basis@, batch_stamps_upto(ins, cs, i as int)),
                complete == forall|a: int| 0 <= a < i ==> (#[trigger] applied_value(ins[a], cs[a])) is Some,
            decreases n - i,
        {
            let c = counts[i];
            let ghost before = self.inputs.values();
            if c > 0 {
                let mut inp = self.inputs.replace_at(i, Input::new());
                proof {
                    self.inputs.lemma_len();
                }
                let rest = inp.updates.split_off(c);
                let last = inp.updates.pop();
                match last {
                    Some(v) => {
                        inp.value = Some(v);
                    },
                    None => {},
                }
                inp.updates = rest;
                let _ = self.inputs.replace_at(i, inp);
                proof {
                    assert(batch_stamps_upto(ins, cs, i + 1) =~= batch_stamps_upto(ins, cs, i as int));
                }
            } else {
                let inp = self.inputs.value_at(i);
                match &inp.value {
                    Some(v) => {
                        proof {
                            lemma_lub_insert(basis@, batch_stamps_upto(ins, cs, i as int), v.basis@);
                            assert(batch_stamps_upto(ins, cs, i + 1) =~= batch_stamps_upto(ins, cs, i as int).insert(
                                start_basis(ins[i as int])));
                        }
                        basis.merge_from(&v.basis);
                    },
                    None => {
                        proof {
                            assert(batch_stamps_upto(ins, cs, i + 1) =~= batch_stamps_upto(ins, cs, i as int));
                        }
                        complete = false;
                    },
                }
            }
            proof {
                self.inputs.lemma_len();
                assert forall|a: int| 0 <= a < i + 1 implies (#[trigger] self.inputs.values()[a]).value == applied_value(ins[a], cs[a])
                    && self.inputs.values()[a].updates@ == ins[a].updates@.subrange(cs[a], ins[a].updates@.len() as int) by {
                    if a < i {
                        assert(self.inputs.values()[a] == before[a]);
                    } else {
                        assert(ins[a].updates@.subrange(0, ins[a].updates@.len() as int) =~= ins[a].updates@);
                    }
                }
            }
            i = i + 1;
        }
        proof {
            assert(self.inputs.map().dom() =~= old(self).inputs.map().dom());
        }
        if !complete {
            return Ok(None);
        }
        let reads = input_reads(&self.inputs);
        proof {
            assert(input_entries(self.inputs.keys(), self.inputs.values()) =~= applied_entries(keys, ins, cs));
        }
        let mut e = self.expr.copy();
        proof {
            crate::new_runtime::evaluator::lemma_missing_kind(Seq::empty(), self.expr@, self.service, reads@,
                EVAL_FUEL as nat, false);
        }
        let result = self.evaluator.eval_expr_checked(&mut e, self.service, &reads);
        match result {
            Some(Ok(())) => Ok(Some(StampedValue { value: e, basis })),
            Some(Err(err)) => Err(Fault::Evaluation(err)),
            None => Err(Fault::Stuck),
        }
    }
}

} // verus!

verus! {

/// Whether `d` can be what reconfiguring `prev` (or, with none, creating a
/// definition on `service`) to `expr` gives: inputs that `expr` reads keep
/// what they knew, new ones start without value.
pub open spec fn reconfigured(prev: Option<Definition>, service: u64, expr: ExprV, d: Definition) -> bool {
    &&& d.wf()
    &&& d.expression() == expr
    &&& d.inputs().map().dom() == reads_of(Seq::empty(), expr, d.service()).to_set()
    &&& d.service() == match prev {
        Some(p) => p.service(),
        None => service,
    }
    &&& forall|k: RefKey| #[trigger] d.inputs().map().contains_key(k) ==> match prev {
        Some(p) => if p.inputs().map().contains_key(k) {
            d.inputs().map()[k] == p.inputs().map()[k]
        } else {
            d.inputs().map()[k].value is None && d.inputs().map()[k].updates@.len() == 0
        },
        None => d.inputs().map()[k].value is None && d.inputs().map()[k].updates@.len() == 0,
    }
}

/// A reactive of a service: a variable, whose value is written, or a
/// definition, whose value is computed from its inputs.
pub struct Reactive {
    service: u64,
    definition: Option<Definition>,
    value: Option<StampedValue>,
    read_by: BasisStamp,
    changed: bool,
    version: Version,
}

impl Reactive {
    pub closed spec fn service(&self) -> u64 {
        self.service
    }

    pub closed spec fn definition(&self) -> Option<Definition> {
        self.definition
    }

    pub closed spec fn current(&self) -> Option<StampedValue> {
        self.value
    }

    pub closed spec fn read_by(&self) -> Map<RefKey, u64> {
        self.read_by@
    }

    pub closed spec fn changed(&self) -> bool {
        self.changed
    }

    pub closed spec fn version_of(&self) -> u64 {
        self.version.0
    }

    /// Whether the reactive's value is up to date with its inputs: a
    /// definition that reads something, whose inputs all have values and
    /// whose expression evaluates over them to a value, holds that value.
    pub open spec fn up_to_date(&self) -> bool {
        match self.definition() {
            Some(d) => d.inputs().keys().len() > 0 && all_valued(d.inputs().values()) && d.evaluation().1 is Done
                ==> (self.current() matches Some(sv) && sv.value@ == d.evaluation().0),
            None => true,
        }
    }

    /// Whether the reactive is a definition whose input `k` has `v` as its
    /// latest news: the last update queued for it, or its value when none is
    /// queued.
    pub open spec fn input_latest(&self, k: RefKey, v: (ExprV, Map<RefKey, u64>)) -> bool {
        match self.definition() {
            Some(d) => d.inputs().map().contains_key(k) && if d.inputs().map()[k].updates@.len() > 0 {
                d.inputs().map()[k].updates@.last()@ == v
            } else {
                d.inputs().map()[k].value matches Some(x) && x@ == v
            },
            None => false,
        }
    }

    /// Whether the reactive is a definition whose value cannot be computed
    /// afresh: its expression gets stuck or fails over its inputs' values,
    /// or comes to a value that needs an input without one.
    pub open spec fn configuration_fails(&self) -> bool {
        self.definition() matches Some(d) && (d.evaluation().1 is Stuck || d.evaluation().1 is Failed
            || (d.evaluation().1 is Done && !all_valued(d.inputs().values())))
    }

    /// Whether the reactive is a definition whose inputs all have values and
    /// whose expression does not evaluate to a value over them.
    pub open spec fn evaluation_fails(&self) -> bool {
        self.definition() matches Some(d) && all_valued(d.inputs().values()) && !(d.evaluation().1 is Done)
    }

    /// A definition's structure is well formed.
    pub open spec fn wf(&self) -> bool {
        self.definition() matches Some(d) ==> d.wf() && d.service() == self.service()
    }

    /// A reactive configured by `config` on `service`: a variable holds its
    /// value with an empty basis and has changed; a definition has inputs
    /// without values and no value yet.
    pub fn new(config: ReactiveConfiguration, service: u64) -> (r: Reactive)
        ensures
            r.wf(),
            r.service() == service,
            r.version_of() == 0,
            r.read_by() == Map::<RefKey, u64>::empty(),
            r.up_to_date(),
            match config {
                ReactiveConfiguration::Variable { value } => r.definition() is None && r.changed()
                    && (r.current() matches Some(sv) && sv.value@ == value@ && sv.basis@ == Map::<RefKey, u64>::empty()),
                ReactiveConfiguration::Definition { expr } => !r.changed() && r.current() is None
                    && (r.definition() matches Some(d) && reconfigured(None, service, expr@, d)),
            },
    {
        match config {
            ReactiveConfiguration::Variable { value } => Reactive {
                service,
                definition: None,
                value: Some(StampedValue { value, basis: BasisStamp::empty() }),
                read_by: BasisStamp::empty(),
                changed: true,
                version: Version::zero(),
            },
            ReactiveConfiguration::Definition { expr } => Reactive {
                service,
                definition: Some(Definition::new(expr, service)),
                value: None,
                read_by: BasisStamp::empty(),
                changed: false,
                version: Version::zero(),
            },
        }
    }

    /// Reconfigures the reactive: a variable takes `value` with basis
    /// `stamp`; a definition keeps what its remaining inputs know and
    /// computes its value anew, which may fault (see `computed`). Unless it
    /// faults, the reactive has changed and its version goes up by one.
    pub fn reconfigure(&mut self, config: ReactiveConfiguration, stamp: &BasisStamp) -> (r: Result<(), Fault>)
        requires
            old(self).wf(),
            old(self).version_of() < u64::MAX,
        ensures
            final(self).wf(),
            final(self).service() == old(self).service(),
            final(self).read_by() == old(self).read_by(),
            r is Ok ==> final(self).changed() && final(self).version_of() == old(self).version_of() + 1,
            r is Ok ==> final(self).up_to_date(),
            match config {
                ReactiveConfiguration::Variable { value } => r is Ok && final(self).definition() is None
                    && (final(self).current() matches Some(sv) && sv.value@ == value@ && sv.basis@ == stamp@),
                ReactiveConfiguration::Definition { expr } => (final(self).definition() matches Some(d)
                    && reconfigured(old(self).definition(), old(self).service(), expr@, d)
                    && computed(d.evaluation(), all_valued(d.inputs().values()), join_bases(d.inputs().values()),
                        match r {
                            Ok(()) => Ok(final(self).current()),
                            Err(f) => Err(f),
                        })),
            },
    {
        match config {
            ReactiveConfiguration::Variable { value } => {
                self.definition = None;
                self.value = Some(StampedValue { value, basis: stamp.copy() });
            },
            ReactiveConfiguration::Definition { expr } => {
                let mut current: Option<Definition> = None;
                std::mem::swap(&mut current, &mut self.definition);
                let mut d = match current {
                    Some(mut d) => {
                        d.reconfigure(expr);
                        d
                    },
                    None => Definition::new(expr, self.service),
                };
                let v = d.compute();
                self.definition = Some(d);
                match v {
                    Ok(v) => {
                        self.value = v;
                    },
                    Err(f) => {
                        return Err(f);
                    },
                }
            },
        }
        self.changed = true;
        self.version = self.version.increment();
        Ok(())
    }

    /// The reactives this reactive reads: a definition's inputs, in input
    /// order; none for a variable.
    pub fn inputs(&self) -> (r: Vec<ReactiveRef>)
        ensures
            match self.definition() {
                Some(d) => crate::new_runtime::evaluator::refs_view(r@) == d.inputs().keys(),
                None => r@.len() == 0,
            },
    {
        match &self.definition {
            Some(d) => d.input_keys(),
            None => Vec::new(),
        }
    }

    /// Queues an update from input `sender` of a definition.
    pub fn add_update(&mut self, sender: ReactiveRef, value: StampedValue)
        requires
            old(self).wf(),
            old(self).definition() matches Some(d) && d.inputs().map().contains_key(sender@),
        ensures
            final(self).wf(),
            final(self).service() == old(self).service(),
            final(self).current() == old(self).current(),
            final(self).read_by() == old(self).read_by(),
            final(self).changed() == old(self).changed(),
            final(self).version_of() == old(self).version_of(),
            final(self).definition() matches Some(d2) && old(self).definition() matches Some(d)
                && d2.service() == d.service() && d2.expression() == d.expression()
                && d2.inputs().keys() == d.inputs().keys()
                && d2.inputs().map() == d.inputs().map().insert(sender@, Input {
                    value: d.inputs().map()[sender@].value,
                    updates: d2.inputs().map()[sender@].updates,
                })
                && d2.inputs().map()[sender@].updates@ == d.inputs().map()[sender@].updates@.push(value),
            old(self).up_to_date() ==> final(self).up_to_date(),
            final(self).input_latest(sender@, value@),
            forall|k: RefKey, v: (ExprV, Map<RefKey, u64>)| k != sender@ && old(self).input_latest(k, v)
                ==> #[trigger] final(self).input_latest(k, v),
    {
        let mut current: Option<Definition> = None;
        std::mem::swap(&mut current, &mut self.definition);
        match current {
            Some(mut d) => {
                let ghost d0 = d;
                d.add_update(sender, value);
                proof {
                    d0.inputs().lemma_len();
                    d.inputs().lemma_len();
                    assert(input_entries(d.inputs().keys(), d.inputs().values()) =~= input_entries(d0.inputs().keys(),
                        d0.inputs().values()));
                    assert(d.evaluation() == d0.evaluation());
                    assert(all_valued(d.inputs().values()) == all_valued(d0.inputs().values())) by {
                        if all_valued(d0.inputs().values()) {
                            assert forall|i: int| 0 <= i < d.inputs().values().len() implies (#[trigger] d.inputs().values()[i]).value
                                is Some by {
                                assert(d0.inputs().values()[i].value is Some);
                            }
                        }
                        if all_valued(d.inputs().values()) {
                            assert forall|i: int| 0 <= i < d0.inputs().values().len() implies (#[trigger] d0.inputs().values()[i]).value
                                is Some by {
                                assert(d.inputs().values()[i].value is Some);
                            }
                        }
                    }
                }
                self.definition = Some(d);
            },
            None => {
                proof {
                    assert(false);
                }
            },
        }
    }

    /// Takes the next value: the value just written or configured, if any,
    /// and otherwise the value of a definition's next batch.
    fn advance(&mut self, roots: &Table<ReactiveRef, Vec<ReactiveRef>>) -> (r: Result<Option<StampedValue>, Fault>)
        requires
            old(self).wf(),
            old(self).definition() matches Some(d) ==> (forall|k: RefKey| #[trigger] d.inputs().map().contains_key(k)
                ==> roots.map().contains_key(k)),
        ensures
            final(self).wf(),
            final(self).service() == old(self).service(),
            final(self).read_by() == old(self).read_by(),
            final(self).version_of() == old(self).version_of(),
            !final(self).changed(),
            old(self).changed() && old(self).current() is Some ==> final(self).definition() == old(self).definition()
                && final(self).current() == old(self).current()
                && (r matches Ok(Some(v)) && old(self).current() matches Some(c) && v@ == c@),
            !(old(self).changed() && old(self).current() is Some) ==> match old(self).definition() {
                None => r matches Ok(None) && final(self).definition() is None && final(self).current() == old(self).current(),
                Some(d) => final(self).definition() matches Some(d2) && match r {
                    Ok(Some(v)) => batch_step(d, roots.map(), d2, Ok(final(self).current()))
                        && (final(self).current() matches Some(c) && v@ == c@),
                    Ok(None) => batch_step(d, roots.map(), d2, Ok(None)) && final(self).current() == old(self).current(),
                    Err(f) => batch_step(d, roots.map(), d2, Err(f)),
                },
            },
    {
        if self.changed {
            self.changed = false;
            match &self.value {
                Some(v) => {
                    return Ok(Some(v.copy()));
                },
                None => {},
            }
        }
        let mut current: Option<Definition> = None;
        std::mem::swap(&mut current, &mut self.definition);
        match current {
            Some(mut d) => {
                let found = d.find_and_apply_batch(roots);
                self.definition = Some(d);
                match found {
                    Ok(Some(v)) => {
                        let out = v.copy();
                        self.value = Some(v);
                        Ok(Some(out))
                    },
                    Ok(None) => Ok(None),
                    Err(f) => Err(f),
                }
            },
            None => Ok(None),
        }
    }

    /// The reactive's current value.
    pub fn value(&self) -> (r: Option<&StampedValue>)
        ensures
            match r {
                Some(v) => self.current() == Some(*v),
                None => self.current() is None,
            },
    {
        match &self.value {
            Some(v) => Some(v),
            None => None,
        }
    }

    /// Records that a read of this reactive completed in a transaction with
    /// basis `basis`.
    pub fn finished_read(&mut self, basis: &BasisStamp)
        ensures
            final(self).read_by() == stamp_join(old(self).read_by(), basis@),
            final(self).service() == old(self).service(),
            final(self).definition() == old(self).definition(),
            final(self).current() == old(self).current(),
            final(self).changed() == old(self).changed(),
            final(self).version_of() == old(self).version_of(),
    {
        self.read_by.merge_from(basis);
    }

    /// Writes a variable: the value's basis takes in every read of the
    /// variable since the last write, the record of those reads starts
    /// afresh, and the variable has changed.
    pub fn write(&mut self, value: StampedValue)
        requires
            old(self).definition() is None,
        ensures
            final(self).definition() is None,
            final(self).service() == old(self).service(),
            final(self).current() matches Some(sv) && sv.value@ == value.value@
                && sv.basis@ == stamp_join(value.basis@, old(self).read_by()),
            final(self).read_by() == Map::<RefKey, u64>::empty(),
            final(self).changed(),
            final(self).version_of() == old(self).version_of(),
    {
        let mut value = value;
        value.basis.merge_from(&self.read_by);
        self.value = Some(value);
        self.read_by.clear();
        self.changed = true;
    }

    /// Whether the reactive is a variable.
    pub fn is_variable(&self) -> (r: bool)
        ensures
            r == self.definition() is None,
    {
        self.definition.is_none()
    }

    /// The reactive's configuration version.
    pub fn version(&self) -> (r: Version)
        ensures
            r.0 == self.version_of(),
    {
        self.version
    }
}

impl Definition {
    /// The definition's inputs, in input order.
    pub fn input_keys(&self) -> (r: Vec<ReactiveRef>)
        ensures
            crate::new_runtime::evaluator::refs_view(r@) == self.inputs().keys(),
    {
        let n = self.inputs.len();
        let mut r: Vec<ReactiveRef> = Vec::new();
        let mut i: usize = 0;
        while i < n
            invariant
                i <= n,
                n == self.inputs.size(),
                n == self.inputs.keys().len(),
                r@.len() == i,
                crate::new_runtime::evaluator::refs_view(r@) == self.inputs.keys().subrange(0, i as int),
            decreases n - i,
        {
            let ghost before = r@;
            r.push(self.inputs.key_at(i).copy());
            proof {
                assert(r@.drop_last() =~= before);
                assert(crate::new_runtime::evaluator::refs_view(r@) =~= self.inputs.keys().subrange(0, i + 1));
            }
            i = i + 1;
        }
        proof {
            assert(self.inputs.keys().subrange(0, n as int) =~= self.inputs.keys());
        }
        r
    }
}

} // verus!

verus! {

/// Applying a batch removes as many updates as the batch takes.
pub proof fn lemma_total_after(old: Seq<Input>, c: Seq<int>, new: Seq<Input>)
    requires
        batch_applied(old, c, new),
        fits_queues(old, c),
    ensures
        total_updates(new) + count_sum(c) == total_updates(old),
    decreases old.len(),
{
    if old.len() > 0 {
        let n = old.len() - 1;
        assert(batch_applied(old.drop_last(), c.drop_last(), new.drop_last())) by {
            assert forall|i: int| 0 <= i < old.drop_last().len() implies (#[trigger] new.drop_last()[i]).value
                == applied_value(old.drop_last()[i], c.drop_last()[i]) && new.drop_last()[i].updates@
                == old.drop_last()[i].updates@.subrange(c.drop_last()[i], old.drop_last()[i].updates@.len() as int) by {
                assert(new.drop_last()[i] == new[i]);
                assert(old.drop_last()[i] == old[i]);
                assert(c.drop_last()[i] == c[i]);
            }
        }
        assert(fits_queues(old.drop_last(), c.drop_last())) by {
            assert forall|a: int| 0 <= a < c.drop_last().len() implies 0 <= #[trigger] c.drop_last()[a]
                <= old.drop_last()[a].updates@.len() by {
                assert(c.drop_last()[a] == c[a]);
                assert(old.drop_last()[a] == old[a]);
            }
        }
        lemma_total_after(old.drop_last(), c.drop_last(), new.drop_last());
        assert(new[n].updates@.len() == old[n].updates@.len() - c[n]);
    }
}

/// What a reactive still has to propagate: one value when it has changed,
/// and the updates queued at a definition's inputs.
pub open spec fn work(r: Reactive) -> int {
    (if r.changed() { 1int } else { 0int }) + match r.definition() {
        Some(d) => total_updates(d.inputs().values()),
        None => 0,
    }
}

pub proof fn lemma_total_nonneg(ins: Seq<Input>)
    ensures
        total_updates(ins) >= 0,
    decreases ins.len(),
{
    if ins.len() > 0 {
        lemma_total_nonneg(ins.drop_last());
    }
}

impl Reactive {
    /// Whether the reactive is a definition with input `sender`.
    pub fn accepts_update(&self, sender: &ReactiveRef) -> (r: bool)
        ensures
            r == (self.definition() matches Some(d) && d.inputs().map().contains_key(sender@)),
    {
        match &self.definition {
            Some(d) => d.has_input(sender),
            None => false,
        }
    }

    /// The next value to propagate: the value just written or configured,
    /// if any, and otherwise the value of a definition's next batch, which
    /// may fault (see `batch_step`). A value comes out only while the
    /// reactive has work left, and taking it leaves less.
    pub fn next_value(&mut self, roots: &Table<ReactiveRef, Vec<ReactiveRef>>) -> (r: Result<Option<StampedValue>, Fault>)
        requires
            old(self).wf(),
            old(self).definition() matches Some(d) ==> (forall|k: RefKey| #[trigger] d.inputs().map().contains_key(k)
                ==> roots.map().contains_key(k)),
        ensures
            final(self).wf(),
            final(self).service() == old(self).service(),
            work(*final(self)) >= 0,
            r matches Ok(Some(_)) ==> work(*final(self)) < work(*old(self)),
            r is Ok ==> work(*final(self)) <= work(*old(self)),
            match old(self).definition() {
                Some(d) => final(self).definition() matches Some(d2) && d2.inputs().keys() == d.inputs().keys(),
                None => final(self).definition() is None,
            },
            final(self).read_by() == old(self).read_by(),
            final(self).version_of() == old(self).version_of(),
            !final(self).changed(),
            old(self).changed() && old(self).current() is Some ==> final(self).definition() == old(self).definition()
                && final(self).current() == old(self).current()
                && (r matches Ok(Some(v)) && old(self).current() matches Some(c) && v@ == c@),
            !(old(self).changed() && old(self).current() is Some) ==> match old(self).definition() {
                None => r matches Ok(None) && final(self).definition() is None && final(self).current() == old(self).current(),
                Some(d) => final(self).definition() matches Some(d2) && match r {
                    Ok(Some(v)) => batch_step(d, roots.map(), d2, Ok(final(self).current()))
                        && (final(self).current() matches Some(c) && v@ == c@),
                    Ok(None) => batch_step(d, roots.map(), d2, Ok(None)) && final(self).current() == old(self).current(),
                    Err(f) => batch_step(d, roots.map(), d2, Err(f)),
                },
            },
            r is Ok && old(self).up_to_date() ==> final(self).up_to_date(),
            r is Err ==> (r matches Err(Fault::Stuck) || r matches Err(Fault::Evaluation(_))),
            r is Err ==> final(self).evaluation_fails(),
            forall|k: RefKey, v: (ExprV, Map<RefKey, u64>)| r is Ok && old(self).input_latest(k, v)
                ==> #[trigger] final(self).input_latest(k, v),
    {
        proof {
            match self.definition() {
                Some(d) => lemma_total_nonneg(d.inputs().values()),
                None => {},
            }
        }
        let ghost before = *self;
        let r = self.advance(roots);
        proof {
            match self.definition() {
                Some(d) => lemma_total_nonneg(d.inputs().values()),
                None => {},
            }
            if !(before.changed() && before.current() is Some) {
                match before.definition() {
                    Some(d) => {
                        let d2 = self.definition().unwrap();
                        let ins = d.inputs().values();
                        let rts = input_roots(d.inputs().keys(), roots.map());
                        match chosen_batch(ins, rts) {
                            Some(c) => {
                                d.inputs().lemma_len();
                                d2.inputs().lemma_len();
                                lemma_applied_entries(d.inputs().keys(), ins, c, d2.inputs().values());
                                lemma_search_fits(ins, rts, 0, Set::empty(), None);
                                assert forall|k: RefKey, v: (ExprV, Map<RefKey, u64>)| r is Ok && before.input_latest(k, v)
                                    implies #[trigger] self.input_latest(k, v) by {
                                    let j = d.inputs().keys().index_of(k);
                                    assert(d.inputs().keys().contains(k));
                                    assert(0 <= j < ins.len() && d.inputs().keys()[j] == k);
                                    assert(d.inputs().map()[k] == ins[j]);
                                    assert(d2.inputs().keys().contains(k));
                                    assert(d2.inputs().map()[k] == d2.inputs().values()[j]);
                                    let u = ins[j].updates@;
                                    assert(0 <= c[j] <= u.len());
                                    if u.len() > 0 && c[j] == u.len() {
                                        assert(applied_value(ins[j], c[j]) == Some(u[c[j] - 1]));
                                    }
                                    if c[j] < u.len() {
                                        assert(d2.inputs().values()[j].updates@.last() == u.last());
                                    }
                                }
                                lemma_search_fits(ins, rts, 0, Set::empty(), None);
                                crate::new_runtime::service::batch::lemma_search_positive(ins, rts, 0, Set::empty(), None);
                                lemma_total_after(ins, c, d2.inputs().values());
                                let a = choose|a: int| 0 <= a < c.len() && c[a] >= 1;
                                crate::new_runtime::service::batch::lemma_count_sum_bound(c, a);
                            },
                            None => {},
                        }
                    },
                    None => {},
                }
            }
        }
        r
    }
}

/// The reads that a batch leaves the inputs with are those of the inputs
/// after the batch.
proof fn lemma_applied_entries(keys: Seq<RefKey>, ins: Seq<Input>, c: Seq<int>, ins2: Seq<Input>)
    requires
        keys.len() == ins.len(),
        batch_applied(ins, c, ins2),
    ensures
        applied_entries(keys, ins, c) == input_entries(keys, ins2),
        !applied_valued(ins, c) ==> !all_valued(ins2),
{
    assert(applied_entries(keys, ins, c) =~= input_entries(keys, ins2));
    if !applied_valued(ins, c) {
        let i = choose|i: int| 0 <= i < ins.len() && !(#[trigger] applied_value(ins[i], c[i]) is Some);
        assert(ins2[i].value is None);
    }
}

impl Definition {
    /// Whether `sender` is an input.
    pub fn has_input(&self, sender: &ReactiveRef) -> (r: bool)
        ensures
            r == self.inputs().map().contains_key(sender@),
    {
        self.inputs.contains_key(sender)
    }
}

} // verus!
