//! Committing a transaction at a service: the reads it made are recorded,
//! its writes and configuration changes take effect, and the new values
//! propagate.
use vstd::prelude::*;

use crate::new_runtime::message::{BasisStamp, Envelope, ImportConfiguration, Iteration, ReactiveConfiguration, RefKey, StampedValue};
use crate::new_runtime::service::held_locks::{ExclusiveLockState, SharedLockState};
use crate::new_runtime::service::reactive::Reactive;
use crate::new_runtime::evaluator::refs_view;
use crate::new_runtime::service::{
    closed_graph, edge, held_answers, names_of, reactives_wf, topo_ordered, Fault, Import, ReactiveName, ReactiveRef, ServiceActor,
};
use crate::table::Table;

verus! {

/// A placeholder reactive, held in a table while the real one is worked on.
fn placeholder(id: u64) -> (r: Reactive)
    ensures
        r.wf(),
        r.service() == id,
{
    Reactive::new(ReactiveConfiguration::Variable { value: crate::ast::Expr::Number { val: 0 } }, id)
}

/// Adds `n` to a list of names used as a set.
pub fn insert_name(v: &mut Vec<ReactiveName>, n: &ReactiveName)
    ensures
        names_of(final(v)@).to_set() == names_of(old(v)@).to_set().insert(n@),
{
    let mut i: usize = 0;
    while i < v.len()
        invariant
            i <= v@.len(),
            forall|j: int| 0 <= j < i ==> v@[j]@ != n@,
        decreases v@.len() - i,
    {
        if v[i].same(n) {
            proof {
                assert(names_of(v@)[i as int] == n@);
                assert(names_of(v@).to_set().insert(n@) =~= names_of(v@).to_set());
            }
            return;
        }
        i = i + 1;
    }
    let ghost before = names_of(v@);
    v.push(n.copy());
    proof {
        assert(names_of(v@) =~= before.push(n@));
        before.lemma_push_to_set_commute(n@);
    }
}

/// Removes every occurrence of `n` from a list of names used as a set.
pub fn remove_name(v: &mut Vec<ReactiveName>, n: &ReactiveName)
    ensures
        names_of(final(v)@).to_set() == names_of(old(v)@).to_set().remove(n@),
{
    let mut kept: Vec<ReactiveName> = Vec::new();
    let ghost src = names_of(v@);
    let mut i: usize = 0;
    while i < v.len()
        invariant
            i <= v@.len(),
            src == names_of(v@),
            names_of(kept@).to_set() == src.subrange(0, i as int).to_set().remove(n@),
        decreases v@.len() - i,
    {
        let ghost sub = src.subrange(0, i as int);
        proof {
            assert(src.subrange(0, i + 1) =~= sub.push(src[i as int]));
            sub.lemma_push_to_set_commute(src[i as int]);
        }
        if !v[i].same(n) {
            let ghost before = names_of(kept@);
            kept.push(v[i].copy());
            proof {
                assert(names_of(kept@) =~= before.push(src[i as int]));
                before.lemma_push_to_set_commute(src[i as int]);
                assert(names_of(kept@).to_set() =~= src.subrange(0, i + 1).to_set().remove(n@));
            }
        } else {
            proof {
                assert(names_of(kept@).to_set() =~= src.subrange(0, i + 1).to_set().remove(n@));
            }
        }
        i = i + 1;
    }
    proof {
        assert(src.subrange(0, v@.len() as int) =~= src);
    }
    *v = kept;
}

impl ServiceActor {
    /// Records, at each reactive read to completion, that it was read by a
    /// transaction with basis `basis`.
    pub(crate) fn finish_reads(&mut self, shared: &SharedLockState, basis: &BasisStamp) -> (r: Result<(), Fault>)
        requires
            reactives_wf(old(self).reactives.map(), old(self).id),
        ensures
            final(self).id == old(self).id,
            final(self).queued == old(self).queued,
            final(self).held == old(self).held,
            final(self).preempted == old(self).preempted,
            final(self).subscriptions == old(self).subscriptions,
            final(self).imports == old(self).imports,
            final(self).exports == old(self).exports,
            final(self).iterations == old(self).iterations,
            final(self).roots == old(self).roots,
            final(self).topo == old(self).topo,
            final(self).reactives.keys() == old(self).reactives.keys(),
            reactives_wf(final(self).reactives.map(), final(self).id),
            r is Ok <==> forall|j: int| 0 <= j < shared.reads.keys().len() && (#[trigger] shared.reads.values()[j]).complete@
                != Map::<RefKey, u64>::empty() ==> old(self).reactives.map().contains_key(shared.reads.keys()[j]),
            r matches Err(f) ==> f is Unknown,
            forall|k: Seq<char>| #[trigger] final(self).reactives.map().contains_key(k)
                ==> final(self).reactives.map()[k].definition() == old(self).reactives.map()[k].definition()
                && final(self).reactives.map()[k].current() == old(self).reactives.map()[k].current()
                && final(self).reactives.map()[k].changed() == old(self).reactives.map()[k].changed()
                && final(self).reactives.map()[k].version_of() == old(self).reactives.map()[k].version_of(),
            crate::new_runtime::service::values_current(old(self).reactives.map()) ==> crate::new_runtime::service::values_current(final(self).reactives.map()),
    {
        let n = shared.reads.len();
        proof {
            shared.reads.lemma_len();
        }
        let mut i: usize = 0;
        while i < n
            invariant
                i <= n,
                n == shared.reads.size(),
                n == shared.reads.keys().len(),
                n == shared.reads.values().len(),
                self.id == old(self).id,
                self.queued == old(self).queued,
                self.held == old(self).held,
                self.preempted == old(self).preempted,
                self.subscriptions == old(self).subscriptions,
                self.imports == old(self).imports,
                self.exports == old(self).exports,
                self.iterations == old(self).iterations,
                self.roots == old(self).roots,
                self.topo == old(self).topo,
                self.reactives.keys() == old(self).reactives.keys(),
                reactives_wf(self.reactives.map(), self.id),
                forall|j: int| 0 <= j < i && (#[trigger] shared.reads.values()[j]).complete@ != Map::<RefKey, u64>::empty()
                    ==> old(self).reactives.map().contains_key(shared.reads.keys()[j]),
                forall|k: Seq<char>| #[trigger] self.reactives.map().contains_key(k)
                    ==> self.reactives.map()[k].definition() == old(self).reactives.map()[k].definition()
                    && self.reactives.map()[k].current() == old(self).reactives.map()[k].current()
                    && self.reactives.map()[k].changed() == old(self).reactives.map()[k].changed()
                    && self.reactives.map()[k].version_of() == old(self).reactives.map()[k].version_of(),
                crate::new_runtime::service::values_current(old(self).reactives.map()) ==> crate::new_runtime::service::values_current(self.reactives.map()),
            decreases n - i,
        {
            let rd = shared.reads.value_at(i);
            if !rd.complete.is_empty() {
                let name = shared.reads.key_at(i);
                match self.reactives.position(name) {
                    Some(p) => {
                        proof {
                            self.reactives.lemma_len();
                        }
                        let ghost before = self.reactives.map();
                        let ghost key = self.reactives.keys()[p as int];
                        let mut x = self.reactives.replace_at(p, placeholder(self.id));
                        proof {
                            assert(before.contains_key(key));
                            self.reactives.lemma_len();
                        }
                        x.finished_read(basis);
                        let _ = self.reactives.replace_at(p, x);
                        proof {
                            assert forall|m: Seq<char>| #[trigger] self.reactives.map().contains_key(m) implies
                                self.reactives.map()[m].wf() && self.reactives.map()[m].service() == self.id by {
                                if m != key {
                                    assert(before.contains_key(m));
                                }
                            }
                            assert forall|m: Seq<char>| #[trigger] self.reactives.map().contains_key(m) implies
                                self.reactives.map()[m].definition() == old(self).reactives.map()[m].definition()
                                && self.reactives.map()[m].current() == old(self).reactives.map()[m].current()
                                && self.reactives.map()[m].changed() == old(self).reactives.map()[m].changed()
                                && self.reactives.map()[m].version_of() == old(self).reactives.map()[m].version_of() by {
                                assert(before.contains_key(m));
                            }
                            if crate::new_runtime::service::values_current(old(self).reactives.map()) {
                                assert forall|m: Seq<char>| #[trigger] self.reactives.map().contains_key(m) implies
                                    self.reactives.map()[m].up_to_date() by {
                                    assert(before.contains_key(m));
                                }
                            }
                        }
                    },
                    None => {
                        return Err(Fault::Unknown);
                    },
                }
            }
            i = i + 1;
        }
        Ok(())
    }

    /// Writes each written variable, with `basis` raised to the iteration
    /// prepared for it; the basis grows with each write.
    pub(crate) fn apply_writes(&mut self, exclusive: &mut ExclusiveLockState, basis: &mut BasisStamp) -> (r: Result<(), Fault>)
        requires
            reactives_wf(old(self).reactives.map(), old(self).id),
        ensures
            final(self).id == old(self).id,
            final(self).queued == old(self).queued,
            final(self).held == old(self).held,
            final(self).preempted == old(self).preempted,
            final(self).subscriptions == old(self).subscriptions,
            final(self).imports == old(self).imports,
            final(self).exports == old(self).exports,
            final(self).iterations == old(self).iterations,
            final(self).roots == old(self).roots,
            final(self).topo == old(self).topo,
            final(self).reactives.keys() == old(self).reactives.keys(),
            reactives_wf(final(self).reactives.map(), final(self).id),
            final(exclusive).reactives == old(exclusive).reactives,
            final(exclusive).imports == old(exclusive).imports,
            final(exclusive).exports == old(exclusive).exports,
            final(exclusive).prepared_iterations == old(exclusive).prepared_iterations,
            final(exclusive).writes.keys() == old(exclusive).writes.keys(),
            r is Ok ==> forall|j: int| 0 <= j < old(exclusive).writes.keys().len() ==> #[trigger] old(exclusive).prepared_iterations.map().contains_key(
                old(exclusive).writes.keys()[j]) && old(self).reactives.map().contains_key(old(exclusive).writes.keys()[j])
                && final(self).reactives.map()[old(exclusive).writes.keys()[j]].definition() is None
                && final(self).reactives.map()[old(exclusive).writes.keys()[j]].changed()
                && (final(self).reactives.map()[old(exclusive).writes.keys()[j]].current() matches Some(sv)
                    && sv.value@ == old(exclusive).writes.values()[j]@
                    && crate::new_runtime::message::latest_of(sv.basis@, (old(self).id, old(exclusive).writes.keys()[j]))
                    >= old(exclusive).prepared_iterations.map()[old(exclusive).writes.keys()[j]].0),
            r is Ok <==> forall|j: int| 0 <= j < old(exclusive).writes.keys().len() ==> #[trigger] old(exclusive).prepared_iterations.map().contains_key(
                old(exclusive).writes.keys()[j]) && old(self).reactives.map().contains_key(old(exclusive).writes.keys()[j])
                && old(self).reactives.map()[old(exclusive).writes.keys()[j]].definition() is None,
            r matches Err(f) ==> f is Unknown || f is NotVariable,
            forall|m: Seq<char>| #[trigger] old(self).reactives.map().contains_key(m) && !old(exclusive).writes.map().contains_key(m)
                ==> final(self).reactives.map()[m] == old(self).reactives.map()[m],
            forall|m: Seq<char>| #[trigger] old(self).reactives.map().contains_key(m)
                ==> final(self).reactives.map()[m].version_of() == old(self).reactives.map()[m].version_of(),
            crate::new_runtime::service::values_current(old(self).reactives.map()) ==> crate::new_runtime::service::values_current(final(self).reactives.map()),
    {
        let n = exclusive.writes.len();
        proof {
            exclusive.writes.lemma_len();
        }
        let ghost wkeys = exclusive.writes.keys();
        let mut i: usize = 0;
        while i < n
            invariant
                i <= n,
                n == exclusive.writes.size(),
                n == wkeys.len(),
                wkeys == exclusive.writes.keys(),
                wkeys == old(exclusive).writes.keys(),
                exclusive.reactives == old(exclusive).reactives,
                exclusive.imports == old(exclusive).imports,
                exclusive.exports == old(exclusive).exports,
                exclusive.prepared_iterations == old(exclusive).prepared_iterations,
                self.id == old(self).id,
                self.queued == old(self).queued,
                self.held == old(self).held,
                self.preempted == old(self).preempted,
                self.subscriptions == old(self).subscriptions,
                self.imports == old(self).imports,
                self.exports == old(self).exports,
                self.iterations == old(self).iterations,
                self.roots == old(self).roots,
                self.topo == old(self).topo,
                self.reactives.keys() == old(self).reactives.keys(),
                reactives_wf(self.reactives.map(), self.id),
                forall|j: int| #![trigger wkeys[j]] 0 <= j < i ==> old(exclusive).prepared_iterations.map().contains_key(wkeys[j])
                    && old(self).reactives.map().contains_key(wkeys[j])
                    && self.reactives.map()[wkeys[j]].definition() is None && self.reactives.map()[wkeys[j]].changed()
                    && (self.reactives.map()[wkeys[j]].current() matches Some(sv) && sv.value@ == old(exclusive).writes.values()[j]@
                    && crate::new_runtime::message::latest_of(sv.basis@, (old(self).id, wkeys[j]))
                    >= old(exclusive).prepared_iterations.map()[wkeys[j]].0)
                    && old(self).reactives.map()[wkeys[j]].definition() is None,
                forall|j: int| #![trigger wkeys[j]] i <= j < n ==> self.reactives.map()[wkeys[j]] == old(self).reactives.map()[wkeys[j]],
                forall|j: int| i <= j < n ==> exclusive.writes.values()[j] == old(exclusive).writes.values()[j],
                exclusive.writes.values().len() == n,
                old(exclusive).writes.values().len() == n,
                wkeys.no_duplicates(),
                forall|m: Seq<char>| #[trigger] old(self).reactives.map().contains_key(m)
                    ==> self.reactives.map()[m].version_of() == old(self).reactives.map()[m].version_of(),
                forall|m: Seq<char>| #[trigger] old(self).reactives.map().contains_key(m) && !wkeys.contains(m)
                    ==> self.reactives.map()[m] == old(self).reactives.map()[m],
                crate::new_runtime::service::values_current(old(self).reactives.map()) ==> crate::new_runtime::service::values_current(self.reactives.map()),
            decreases n - i,
        {
            let name = exclusive.writes.key_at(i).copy();
            let it = match exclusive.prepared_iterations.get(&name) {
                Some(it) => *it,
                None => {
                    return Err(Fault::Unknown);
                },
            };
            proof {
                exclusive.writes.lemma_len();
            }
            let value = exclusive.writes.replace_at(i, crate::ast::Expr::Number { val: 0 });
            proof {
                exclusive.writes.lemma_len();
            }
            basis.insert(ReactiveRef { service: self.id, name: name.copy() }, it);
            let p = match self.reactives.position(&name) {
                Some(p) => p,
                None => {
                    return Err(Fault::Unknown);
                },
            };
            proof {
                self.reactives.lemma_len();
            }
            let ghost before = self.reactives.map();
            let ghost key = self.reactives.keys()[p as int];
            let mut x = self.reactives.replace_at(p, placeholder(self.id));
            proof {
                assert(before.contains_key(key));
                self.reactives.lemma_len();
            }
            proof {
                assert(key == wkeys[i as int]);
                assert(x == old(self).reactives.map()[key]);
            }
            if !x.is_variable() {
                let _ = self.reactives.replace_at(p, x);
                return Err(Fault::NotVariable);
            }
            x.write(StampedValue { value, basis: basis.copy() });
            let ghost xv = x;
            let _ = self.reactives.replace_at(p, x);
            proof {
                assert(self.reactives.map() =~= before.insert(key, xv));
                assert(key == wkeys[i as int]);
                assert(old(self).reactives.keys()[p as int] == key);
                assert(old(self).reactives.keys().contains(key));
                assert(old(self).reactives.map().contains_key(key));
                assert(old(exclusive).prepared_iterations.map().contains_key(key));
                assert(self.reactives.map()[key] == xv);
                assert forall|m: Seq<char>| #[trigger] self.reactives.map().contains_key(m) implies
                    self.reactives.map()[m].wf() && self.reactives.map()[m].service() == self.id by {
                    if m != key {
                        assert(before.contains_key(m));
                    }
                }
                if crate::new_runtime::service::values_current(old(self).reactives.map()) {
                    assert forall|m: Seq<char>| #[trigger] self.reactives.map().contains_key(m) implies
                        self.reactives.map()[m].up_to_date() by {
                        assert(before.contains_key(m));
                    }
                }
                assert forall|j: int| #![trigger wkeys[j]] 0 <= j < i + 1 implies old(exclusive).prepared_iterations.map().contains_key(wkeys[j])
                    && old(self).reactives.map().contains_key(wkeys[j])
                    && self.reactives.map()[wkeys[j]].definition() is None && self.reactives.map()[wkeys[j]].changed()
                    && (self.reactives.map()[wkeys[j]].current() matches Some(sv) && sv.value@ == old(exclusive).writes.values()[j]@) by {
                    if j < i {
                        assert(wkeys[j] != wkeys[i as int]);
                        assert(self.reactives.map()[wkeys[j]] == before[wkeys[j]]);
                        assert(old(exclusive).prepared_iterations.map().contains_key(wkeys[j]));
                        assert(before[wkeys[j]].definition() is None);
                        assert(before[wkeys[j]].changed());
                    } else {
                        assert(j == i);
                    }
                }
                assert forall|m: Seq<char>| #[trigger] old(self).reactives.map().contains_key(m) && !wkeys.contains(m)
                    implies self.reactives.map()[m] == old(self).reactives.map()[m] by {
                    assert(m != wkeys[i as int]);
                }
                assert forall|j: int| #![trigger wkeys[j]] i + 1 <= j < n implies
                    self.reactives.map()[wkeys[j]] == old(self).reactives.map()[wkeys[j]] by {
                    assert(wkeys[j] != wkeys[i as int]);
                }
            }
            i = i + 1;
        }
        Ok(())
    }
}

} // verus!

verus! {

/// Whether every name of `names` is configured.
fn all_configured(names: &Vec<ReactiveName>, configured: &Table<ReactiveName, Option<ReactiveConfiguration>>) -> (r: bool)
    ensures
        r == forall|j: int| 0 <= j < names@.len() ==> configured.map().contains_key(#[trigger] names@[j]@),
{
    let mut k: usize = 0;
    while k < names.len()
        invariant
            k <= names@.len(),
            forall|j: int| 0 <= j < k ==> configured.map().contains_key(#[trigger] names@[j]@),
        decreases names@.len() - k,
    {
        if !configured.contains_key(&names[k]) {
            return false;
        }
        k = k + 1;
    }
    true
}

/// Whether the transaction removes import `a` while a reactive that it does
/// not configure still imports it.
pub(crate) open spec fn import_removal_blocked(
    imports: Map<RefKey, Import>,
    cfg: Map<RefKey, Option<ImportConfiguration>>,
    configured: Map<Seq<char>, Option<ReactiveConfiguration>>,
    a: RefKey,
) -> bool {
    &&& cfg.contains_key(a)
    &&& cfg[a] is None
    &&& imports.contains_key(a)
    &&& exists|j: int| 0 <= j < imports[a].importers@.len() && !configured.contains_key(#[trigger] imports[a].importers@[j]@)
}

impl ServiceActor {
    /// Sets the imports the transaction configures: a configured import
    /// takes its new roots, keeping its importers; a removed one goes, which
    /// is a fault unless each of its importers is reconfigured too.
    pub(crate) fn apply_imports(&mut self, exclusive: &mut ExclusiveLockState) -> (r: Result<(), Fault>)
        ensures
            final(self).id == old(self).id,
            final(self).queued == old(self).queued,
            final(self).held == old(self).held,
            final(self).preempted == old(self).preempted,
            final(self).reactives == old(self).reactives,
            final(self).subscriptions == old(self).subscriptions,
            final(self).exports == old(self).exports,
            final(self).iterations == old(self).iterations,
            final(self).roots == old(self).roots,
            final(self).topo == old(self).topo,
            final(exclusive).writes == old(exclusive).writes,
            final(exclusive).reactives == old(exclusive).reactives,
            final(exclusive).exports == old(exclusive).exports,
            final(exclusive).prepared_iterations == old(exclusive).prepared_iterations,
            r is Ok ==> forall|a: RefKey| #![trigger final(self).imports.map().contains_key(a)]
                old(exclusive).imports.map().contains_key(a) ==> (final(self).imports.map().contains_key(a)
                <==> old(exclusive).imports.map()[a] is Some),
            r is Ok ==> forall|a: RefKey| #![trigger final(self).imports.map().contains_key(a)]
                old(exclusive).imports.map().contains_key(a) && old(exclusive).imports.map()[a] is Some ==> refs_view(
                final(self).imports.map()[a].roots@) == refs_view(old(exclusive).imports.map()[a]->Some_0.roots@),
            r is Ok ==> forall|a: RefKey| #![trigger final(self).imports.map().contains_key(a)]
                !old(exclusive).imports.map().contains_key(a) ==> (final(self).imports.map().contains_key(a)
                <==> old(self).imports.map().contains_key(a)) && (old(self).imports.map().contains_key(a)
                ==> final(self).imports.map()[a] == old(self).imports.map()[a]),
            r is Err <==> exists|a: RefKey| import_removal_blocked(old(self).imports.map(), old(exclusive).imports.map(),
                old(exclusive).reactives.map(), a),
            r matches Err(f) ==> f is Unknown,
    {
        let n = exclusive.imports.len();
        proof {
            exclusive.imports.lemma_len();
        }
        let ghost cfg = exclusive.imports.map();
        let ghost ckeys = exclusive.imports.keys();
        let mut i: usize = 0;
        while i < n
            invariant
                i <= n,
                n == exclusive.imports.size(),
                n == ckeys.len(),
                ckeys == exclusive.imports.keys(),
                ckeys.no_duplicates(),
                cfg == old(exclusive).imports.map(),
                ckeys == old(exclusive).imports.keys(),
                forall|j: int| #![trigger ckeys[j]] i <= j < n ==> exclusive.imports.map()[ckeys[j]] == cfg[ckeys[j]],
                exclusive.writes == old(exclusive).writes,
                exclusive.reactives == old(exclusive).reactives,
                exclusive.exports == old(exclusive).exports,
                exclusive.prepared_iterations == old(exclusive).prepared_iterations,
                self.id == old(self).id,
                self.queued == old(self).queued,
                self.held == old(self).held,
                self.preempted == old(self).preempted,
                self.reactives == old(self).reactives,
                self.subscriptions == old(self).subscriptions,
                self.exports == old(self).exports,
                self.iterations == old(self).iterations,
                self.roots == old(self).roots,
                self.topo == old(self).topo,
                forall|j: int| #![trigger ckeys[j]] 0 <= j < i ==> (self.imports.map().contains_key(ckeys[j]) <==> cfg[ckeys[j]] is Some)
                    && (cfg[ckeys[j]] is Some ==> refs_view(self.imports.map()[ckeys[j]].roots@) == refs_view(cfg[ckeys[j]]->Some_0.roots@)),
                forall|a: RefKey| #![trigger self.imports.map().contains_key(a)] !cfg.contains_key(a) ==> (self.imports.map().contains_key(a)
                    <==> old(self).imports.map().contains_key(a)) && (old(self).imports.map().contains_key(a)
                    ==> self.imports.map()[a] == old(self).imports.map()[a]),
                forall|j: int| #![trigger ckeys[j]] i <= j < n ==> (self.imports.map().contains_key(ckeys[j])
                    <==> old(self).imports.map().contains_key(ckeys[j])) && (old(self).imports.map().contains_key(ckeys[j])
                    ==> self.imports.map()[ckeys[j]] == old(self).imports.map()[ckeys[j]]),
                forall|j: int| #![trigger ckeys[j]] 0 <= j < i ==> !import_removal_blocked(old(self).imports.map(), cfg,
                    old(exclusive).reactives.map(), ckeys[j]),
            decreases n - i,
        {
            let address = exclusive.imports.key_at(i).copy();
            proof {
                exclusive.imports.lemma_len();
            }
            let ghost before_cfg = exclusive.imports.map();
            let c = exclusive.imports.replace_at(i, None);
            proof {
                exclusive.imports.lemma_len();
                assert(c == cfg[ckeys[i as int]]);
                assert forall|j: int| #![trigger ckeys[j]] i < j < n implies exclusive.imports.map()[ckeys[j]] == cfg[ckeys[j]] by {
                    assert(ckeys[j] != ckeys[i as int]);
                }
            }
            let ghost before = self.imports.map();
            match c {
                Some(config) => {
                    match self.imports.position(&address) {
                        Some(p) => {
                            proof {
                                self.imports.lemma_len();
                            }
                            let mut imp = self.imports.replace_at(p, Import { roots: Vec::new(), importers: Vec::new() });
                            proof {
                                self.imports.lemma_len();
                            }
                            imp.roots = config.roots;
                            let _ = self.imports.replace_at(p, imp);
                        },
                        None => {
                            let _ = self.imports.insert(address, Import { roots: config.roots, importers: Vec::new() });
                        },
                    }
                },
                None => {
                    match self.imports.remove(&address) {
                        Some(removed) => {
                            if !all_configured(&removed.importers, &exclusive.reactives) {
                                proof {
                                    assert(removed == old(self).imports.map()[ckeys[i as int]]);
                                    assert(import_removal_blocked(old(self).imports.map(), cfg,
                                        old(exclusive).reactives.map(), ckeys[i as int]));
                                }
                                return Err(Fault::Unknown);
                            }
                        },
                        None => {},
                    }
                },
            }
            proof {
                assert forall|j: int| #![trigger ckeys[j]] 0 <= j < i + 1 implies (self.imports.map().contains_key(ckeys[j]) <==> cfg[ckeys[j]] is Some)
                    && (cfg[ckeys[j]] is Some ==> refs_view(self.imports.map()[ckeys[j]].roots@) == refs_view(cfg[ckeys[j]]->Some_0.roots@)) by {
                    if j < i {
                        assert(ckeys[j] != ckeys[i as int]);
                        assert(self.imports.map().contains_key(ckeys[j]) == before.contains_key(ckeys[j]));
                        if before.contains_key(ckeys[j]) {
                            assert(self.imports.map()[ckeys[j]] == before[ckeys[j]]);
                        }
                    }
                }
                assert forall|a: RefKey| #![trigger self.imports.map().contains_key(a)] !cfg.contains_key(a) implies (self.imports.map().contains_key(a)
                    <==> old(self).imports.map().contains_key(a)) && (old(self).imports.map().contains_key(a)
                    ==> self.imports.map()[a] == old(self).imports.map()[a]) by {
                    assert(a != ckeys[i as int]);
                    assert(self.imports.map().contains_key(a) == before.contains_key(a));
                    if before.contains_key(a) {
                        assert(self.imports.map()[a] == before[a]);
                    }
                }
                assert forall|j: int| #![trigger ckeys[j]] i + 1 <= j < n implies (self.imports.map().contains_key(ckeys[j])
                    <==> old(self).imports.map().contains_key(ckeys[j])) && (old(self).imports.map().contains_key(ckeys[j])
                    ==> self.imports.map()[ckeys[j]] == old(self).imports.map()[ckeys[j]]) by {
                    assert(ckeys[j] != ckeys[i as int]);
                    assert(self.imports.map().contains_key(ckeys[j]) == before.contains_key(ckeys[j]));
                    if before.contains_key(ckeys[j]) {
                        assert(self.imports.map()[ckeys[j]] == before[ckeys[j]]);
                    }
                }
                assert(!import_removal_blocked(old(self).imports.map(), cfg, old(exclusive).reactives.map(), ckeys[i as int]));
            }
            i = i + 1;
        }
        proof {
            assert forall|a: RefKey| #![trigger self.imports.map().contains_key(a)] cfg.contains_key(a) implies (
                self.imports.map().contains_key(a) <==> cfg[a] is Some) && (cfg[a] is Some ==> refs_view(
                self.imports.map()[a].roots@) == refs_view(cfg[a]->Some_0.roots@)) by {
                assert(ckeys.contains(a));
                let j = choose|j: int| 0 <= j < ckeys.len() && ckeys[j] == a;
                assert(ckeys[j] == a);
            }
            assert forall|a: RefKey| !import_removal_blocked(old(self).imports.map(), cfg, old(exclusive).reactives.map(), a) by {
                if cfg.contains_key(a) {
                    assert(ckeys.contains(a));
                    let j = choose|j: int| 0 <= j < ckeys.len() && ckeys[j] == a;
                    assert(ckeys[j] == a);
                }
            }
        }
        Ok(())
    }
}

} // verus!

verus! {

/// Whether two services differ only in their subscriptions.
pub(crate) open spec fn only_subscriptions(a: &ServiceActor, b: &ServiceActor) -> bool {
    &&& a.id == b.id
    &&& a.queued == b.queued
    &&& a.held == b.held
    &&& a.preempted == b.preempted
    &&& a.imports == b.imports
    &&& a.reactives == b.reactives
    &&& a.iterations == b.iterations
    &&& a.exports == b.exports
    &&& a.roots == b.roots
    &&& a.topo == b.topo
}

/// Whether two services differ only in their imports.
pub(crate) open spec fn only_imports(a: &ServiceActor, b: &ServiceActor) -> bool {
    &&& a.id == b.id
    &&& a.queued == b.queued
    &&& a.held == b.held
    &&& a.preempted == b.preempted
    &&& a.subscriptions == b.subscriptions
    &&& a.reactives == b.reactives
    &&& a.iterations == b.iterations
    &&& a.exports == b.exports
    &&& a.roots == b.roots
    &&& a.topo == b.topo
}

/// Removes `k` from a list of references used as a set.
fn remove_ref(v: &mut Vec<ReactiveRef>, k: &ReactiveRef)
    ensures
        refs_view(final(v)@).to_set() == refs_view(old(v)@).to_set().remove(k@),
{
    let mut kept: Vec<ReactiveRef> = Vec::new();
    let ghost src = refs_view(v@);
    let mut i: usize = 0;
    while i < v.len()
        invariant
            i <= v@.len(),
            src == refs_view(v@),
            refs_view(kept@).to_set() == src.subrange(0, i as int).to_set().remove(k@),
        decreases v@.len() - i,
    {
        let ghost sub = src.subrange(0, i as int);
        proof {
            assert(src.subrange(0, i + 1) =~= sub.push(src[i as int]));
            sub.lemma_push_to_set_commute(src[i as int]);
        }
        if !v[i].same(k) {
            let ghost before = refs_view(kept@);
            kept.push(v[i].copy());
            proof {
                assert(refs_view(kept@) =~= before.push(src[i as int]));
                before.lemma_push_to_set_commute(src[i as int]);
                assert(refs_view(kept@).to_set() =~= src.subrange(0, i + 1).to_set().remove(k@));
            }
        } else {
            proof {
                assert(refs_view(kept@).to_set() =~= src.subrange(0, i + 1).to_set().remove(k@));
            }
        }
        i = i + 1;
    }
    proof {
        assert(src.subrange(0, v@.len() as int) =~= src);
    }
    *v = kept;
}

impl ServiceActor {
    /// Makes `name` a subscriber of the local reactive `input`.
    pub(crate) fn subscribe(&mut self, input: &ReactiveName, name: &ReactiveName)
        requires
            closed_graph(old(self).subscriptions.map()),
            old(self).subscriptions.map().contains_key(name@),
        ensures
            only_subscriptions(final(self), old(self)),
            closed_graph(final(self).subscriptions.map()),
            final(self).subscriptions.map().dom() == old(self).subscriptions.map().dom().insert(input@),
            forall|a: Seq<char>, b: Seq<char>| #[trigger] edge(final(self).subscriptions.map(), a, b)
                <==> edge(old(self).subscriptions.map(), a, b) || (a == input@ && b == name@),
    {
        if !self.subscriptions.contains_key(input) {
            let _ = self.subscriptions.insert(input.copy(), Vec::new());
            proof {
                let g = self.subscriptions.map();
                assert forall|a: Seq<char>, b: Seq<char>| #[trigger] edge(g, a, b) implies g.contains_key(b) by {
                    if a == input@ {
                        assert(names_of(g[a]@) =~= Seq::<Seq<char>>::empty());
                    } else {
                        assert(edge(old(self).subscriptions.map(), a, b));
                    }
                }
            }
        }
        let ghost g0 = self.subscriptions.map();
        proof {
            assert(g0.contains_key(input@));
        }
        let p = match self.subscriptions.position(input) {
            Some(p) => p,
            None => {
                proof {
                    assert(self.subscriptions.keys().contains(input@));
                }
                return;
            },
        };
        proof {
            self.subscriptions.lemma_len();
        }
        let mut subs = self.subscriptions.replace_at(p, Vec::new());
        proof {
            self.subscriptions.lemma_len();
        }
        insert_name(&mut subs, name);
        let ghost sv = subs;
        let _ = self.subscriptions.replace_at(p, subs);
        proof {
            let g = self.subscriptions.map();
            assert(g =~= g0.insert(input@, sv));
            assert forall|a: Seq<char>, b: Seq<char>| #[trigger] edge(g, a, b) implies g.contains_key(b) by {
                if a == input@ {
                    assert(names_of(sv@).to_set().contains(b));
                    if b != name@ {
                        assert(names_of(g0[a]@).to_set().contains(b));
                        assert(edge(g0, a, b));
                    }
                } else {
                    assert(edge(g0, a, b));
                }
            }
            assert(g.dom() =~= old(self).subscriptions.map().dom().insert(input@));
            assert forall|a: Seq<char>, b: Seq<char>| #[trigger] edge(g, a, b) <==> edge(old(self).subscriptions.map(), a, b)
                || (a == input@ && b == name@) by {
                if a == input@ {
                    assert(names_of(sv@).contains(b) <==> names_of(sv@).to_set().contains(b));
                    assert(names_of(g0[a]@).contains(b) <==> names_of(g0[a]@).to_set().contains(b));
                    if edge(old(self).subscriptions.map(), a, b) {
                        assert(edge(g0, a, b));
                    }
                    if edge(g0, a, b) && !old(self).subscriptions.map().contains_key(a) {
                        assert(names_of(g0[a]@) =~= Seq::<Seq<char>>::empty());
                    }
                } else {
                    assert(g[a] == g0[a]);
                }
            }
        }
    }

    /// Stops `name` subscribing to the local reactive `input`; a fault when
    /// `input` has no subscriptions.
    pub(crate) fn unsubscribe(&mut self, input: &ReactiveName, name: &ReactiveName) -> (r: Result<(), Fault>)
        requires
            closed_graph(old(self).subscriptions.map()),
        ensures
            only_subscriptions(final(self), old(self)),
            closed_graph(final(self).subscriptions.map()),
            final(self).subscriptions.map().dom() == old(self).subscriptions.map().dom(),
            r is Ok <==> old(self).subscriptions.map().contains_key(input@),
            r is Err ==> final(self).subscriptions == old(self).subscriptions,
            forall|a: Seq<char>, b: Seq<char>| #[trigger] edge(final(self).subscriptions.map(), a, b)
                <==> edge(old(self).subscriptions.map(), a, b) && !(a == input@ && b == name@),
    {
        let ghost g0 = self.subscriptions.map();
        let p = match self.subscriptions.position(input) {
            Some(p) => p,
            None => {
                return Err(Fault::Unknown);
            },
        };
        proof {
            self.subscriptions.lemma_len();
        }
        let mut subs = self.subscriptions.replace_at(p, Vec::new());
        proof {
            self.subscriptions.lemma_len();
        }
        remove_name(&mut subs, name);
        let ghost sv = subs;
        let _ = self.subscriptions.replace_at(p, subs);
        proof {
            let g = self.subscriptions.map();
            assert(g =~= g0.insert(input@, sv));
            assert forall|a: Seq<char>, b: Seq<char>| #[trigger] edge(g, a, b) implies g.contains_key(b) by {
                if a == input@ {
                    assert(names_of(sv@).to_set().contains(b));
                    assert(names_of(g0[a]@).to_set().contains(b));
                    assert(edge(g0, a, b));
                } else {
                    assert(edge(g0, a, b));
                }
            }
            assert(g.dom() =~= g0.dom());
            assert forall|a: Seq<char>, b: Seq<char>| #[trigger] edge(g, a, b) <==> edge(g0, a, b) && !(a == input@ && b == name@) by {
                if a == input@ {
                    assert(names_of(sv@).contains(b) <==> names_of(sv@).to_set().contains(b));
                    assert(names_of(g0[a]@).contains(b) <==> names_of(g0[a]@).to_set().contains(b));
                } else {
                    assert(g[a] == g0[a]);
                }
            }
        }
        Ok(())
    }

    /// Makes `name` an importer of `input`; a fault when `input` is not
    /// imported.
    pub(crate) fn add_importer(&mut self, input: &ReactiveRef, name: &ReactiveName) -> (r: Result<(), Fault>)
        ensures
            only_imports(final(self), old(self)),
            r is Ok <==> old(self).imports.map().contains_key(input@),
            final(self).imports.map().dom() == old(self).imports.map().dom(),
    {
        let p = match self.imports.position(input) {
            Some(p) => p,
            None => {
                return Err(Fault::Unknown);
            },
        };
        proof {
            self.imports.lemma_len();
        }
        let mut imp = self.imports.replace_at(p, Import { roots: Vec::new(), importers: Vec::new() });
        proof {
            self.imports.lemma_len();
        }
        insert_name(&mut imp.importers, name);
        let _ = self.imports.replace_at(p, imp);
        proof {
            assert(self.imports.map().dom() =~= old(self).imports.map().dom());
        }
        Ok(())
    }

    /// Stops `name` importing `input`, and drops the import when nothing
    /// imports it any more; a fault when `input` is not imported.
    pub(crate) fn drop_importer(&mut self, input: &ReactiveRef, name: &ReactiveName) -> (r: Result<(), Fault>)
        ensures
            only_imports(final(self), old(self)),
            r is Ok <==> old(self).imports.map().contains_key(input@),
            final(self).imports.map().dom().subset_of(old(self).imports.map().dom()),
    {
        let p = match self.imports.position(input) {
            Some(p) => p,
            None => {
                return Err(Fault::Unknown);
            },
        };
        proof {
            self.imports.lemma_len();
        }
        let mut imp = self.imports.replace_at(p, Import { roots: Vec::new(), importers: Vec::new() });
        proof {
            self.imports.lemma_len();
        }
        remove_name(&mut imp.importers, name);
        if imp.importers.len() == 0 {
            let _ = self.imports.remove(input);
        } else {
            let _ = self.imports.replace_at(p, imp);
        }
        proof {
            assert(self.imports.map().dom().subset_of(old(self).imports.map().dom()));
        }
        Ok(())
    }
}

} // verus!

verus! {

/// Whether the graph structure the service keeps is sound: subscriptions
/// name only reactives with subscriptions of their own, every reactive has
/// subscriptions, and every reactive is well formed.
pub(crate) open spec fn graph_wf(s: &ServiceActor) -> bool {
    &&& closed_graph(s.subscriptions.map())
    &&& s.reactives.map().dom().subset_of(s.subscriptions.map().dom())
    &&& reactives_wf(s.reactives.map(), s.id)
}

impl ServiceActor {
    /// Configures reactive `name`: `Some` creates or reconfigures it and
    /// brings its subscriptions and imports in line with its new inputs;
    /// `None` removes it.
    pub(crate) fn configure_one(
        &mut self,
        name: &ReactiveName,
        config: Option<ReactiveConfiguration>,
        basis: &BasisStamp,
    ) -> (r: Result<(), Fault>)
        requires
            graph_wf(old(self)),
        ensures
            final(self).id == old(self).id,
            final(self).queued == old(self).queued,
            final(self).held == old(self).held,
            final(self).preempted == old(self).preempted,
            final(self).exports == old(self).exports,
            final(self).roots == old(self).roots,
            final(self).topo == old(self).topo,
            r is Ok ==> graph_wf(final(self)),
            r is Ok ==> final(self).reactives.map().dom() == if config is Some {
                old(self).reactives.map().dom().insert(name@)
            } else {
                old(self).reactives.map().dom().remove(name@)
            },
            r is Ok ==> forall|m: Seq<char>| m != name@ && #[trigger] old(self).reactives.map().contains_key(m)
                ==> final(self).reactives.map()[m] == old(self).reactives.map()[m],
            r is Ok ==> (config is Some ==> final(self).iterations.map().contains_key(name@)),
            r is Ok ==> forall|m: Seq<char>| m != name@ ==> (#[trigger] final(self).iterations.map().contains_key(m)
                <==> old(self).iterations.map().contains_key(m)),
            r is Ok ==> forall|m: Seq<char>| m != name@ && #[trigger] old(self).iterations.map().contains_key(m)
                ==> final(self).iterations.map()[m] == old(self).iterations.map()[m],
            (config is None || !old(self).reactives.map().contains_key(name@)) ==> r is Ok,
            config is Some && old(self).reactives.map().contains_key(name@)
                && old(self).reactives.map()[name@].version_of() == u64::MAX ==> (r matches Err(f) && f is Stuck),
            r is Ok && crate::new_runtime::service::values_current(old(self).reactives.map()) ==> crate::new_runtime::service::values_current(final(self).reactives.map()),
            r is Ok ==> match config {
                Some(c) => final(self).reactives.map().contains_key(name@) && crate::new_runtime::service::reactive_inputs(final(self).reactives.map()[name@]).to_set()
                    == crate::new_runtime::service::config_reads(c, old(self).id),
                None => true,
            },
            crate::new_runtime::service::subs_exact(old(self)) && r is Ok ==> crate::new_runtime::service::subs_exact(final(self)),
            crate::new_runtime::service::subs_exact(old(self)) && r is Err ==> (r matches Err(Fault::Stuck) || r matches Err(Fault::Evaluation(_)) || r matches Err(Fault::MissingInput)),
            crate::new_runtime::service::subs_exact(old(self)) && r is Err ==> (r matches Err(Fault::Stuck) && config is Some
                && old(self).reactives.map().contains_key(name@) && old(self).reactives.map()[name@].version_of() == u64::MAX)
                || (final(self).reactives.map().contains_key(name@) && final(self).reactives.map()[name@].configuration_fails()),
    {
        let ghost fresh = !self.reactives.map().contains_key(name@);
        match config {
            Some(c) => {
                if !self.subscriptions.contains_key(name) {
                    let _ = self.subscriptions.insert(name.copy(), Vec::new());
                    proof {
                        let g = self.subscriptions.map();
                        assert forall|a: Seq<char>, b: Seq<char>| #[trigger] edge(g, a, b) implies g.contains_key(b) by {
                            if a == name@ {
                                assert(names_of(g[a]@) =~= Seq::<Seq<char>>::empty());
                            } else {
                                assert(edge(old(self).subscriptions.map(), a, b));
                            }
                        }
                        assert forall|a: Seq<char>, b: Seq<char>| #[trigger] edge(g, a, b) <==> edge(old(self).subscriptions.map(), a, b) by {
                            if a == name@ {
                                assert(names_of(g[a]@) =~= Seq::<Seq<char>>::empty());
                            }
                        }
                    }
                }
                if !self.iterations.contains_key(name) {
                    let _ = self.iterations.insert(name.copy(), Iteration::zero());
                }
                let ghost r0 = self.reactives.map();
                let ghost cfg = c;
                let ghost mut made: Option<Reactive> = None;
                let mut prior: Vec<ReactiveRef> = match self.reactives.position(name) {
                    None => {
                        let x = Reactive::new(c, self.id);
                        proof {
                            made = Some(x);
                        }
                        let _ = self.reactives.insert(name.copy(), x);
                        proof {
                            if crate::new_runtime::service::values_current(old(self).reactives.map()) {
                                assert forall|m: Seq<char>| #[trigger] self.reactives.map().contains_key(m) implies
                                    self.reactives.map()[m].up_to_date() by {
                                    if m != name@ {
                                        assert(r0.contains_key(m));
                                    }
                                }
                            }
                        }
                        Vec::new()
                    },
                    Some(p) => {
                        proof {
                            self.reactives.lemma_len();
                        }
                        let mut x = self.reactives.replace_at(p, placeholder(self.id));
                        proof {
                            self.reactives.lemma_len();
                            assert(r0.contains_key(name@));
                        }
                        let prior = x.inputs();
                        proof {
                            assert(x == old(self).reactives.map()[name@]);
                        }
                        if x.version().0 == u64::MAX {
                            let _ = self.reactives.replace_at(p, x);
                            return Err(Fault::Stuck);
                        }
                        let res = x.reconfigure(c, basis);
                        let ghost xr = x;
                        let ghost r1 = self.reactives.map();
                        let _ = self.reactives.replace_at(p, x);
                        match res {
                            Ok(()) => {
                                proof {
                                    if crate::new_runtime::service::values_current(old(self).reactives.map()) {
                                        assert forall|m: Seq<char>| #[trigger] self.reactives.map().contains_key(m) implies
                                            self.reactives.map()[m].up_to_date() by {
                                            if m != name@ {
                                                assert(r1.contains_key(m));
                                                assert(r0.contains_key(m));
                                            } else {
                                                assert(self.reactives.map()[m] == xr);
                                            }
                                        }
                                    }
                                }
                            },
                            Err(f) => {
                                return Err(f);
                            },
                        }
                        prior
                    },
                };
                proof {
                    assert(self.reactives.map().dom() =~= r0.dom().insert(name@));
                    assert forall|m: Seq<char>| #[trigger] self.reactives.map().contains_key(m) implies self.reactives.map()[m].wf()
                        && self.reactives.map()[m].service() == self.id by {
                        if m != name@ {
                            assert(r0.contains_key(m));
                        }
                    }
                }
                let ghost p0 = crate::new_runtime::evaluator::refs_view(prior@);
                proof {
                    if fresh {
                        assert(p0 =~= Seq::<crate::new_runtime::message::RefKey>::empty());
                    }
                }
                let current = match self.reactives.get(name) {
                    Some(x) => x.inputs(),
                    None => {
                        proof {
                            assert(false);
                        }
                        Vec::new()
                    },
                };
                proof {
                    if fresh {
                        assert(prior@.len() == 0);
                        assert(self.reactives.map()[name@] == made->Some_0);
                        if let ReactiveConfiguration::Definition { expr } = cfg {
                            let d = made->Some_0.definition()->Some_0;
                            crate::new_runtime::evaluator::lemma_reads_local(Seq::empty(), expr@, self.id);
                            assert forall|j: int| 0 <= j < current@.len() implies (#[trigger] current@[j]).service == self.id by {
                                assert(crate::new_runtime::evaluator::refs_view(current@)[j] == current@[j]@);
                                assert(d.inputs().keys()[j] == current@[j]@);
                                assert(d.inputs().keys().contains(current@[j]@));
                                assert(d.inputs().map().contains_key(current@[j]@));
                                let rs = crate::new_runtime::evaluator::reads_of(Seq::empty(), expr@, self.id);
                                assert(rs.to_set().contains(current@[j]@));
                                let t = choose|t: int| 0 <= t < rs.len() && rs[t] == current@[j]@;
                                assert(rs[t].0 == self.id);
                            }
                        }
                    }
                }
                let ghost rs = self.reactives;
                let ghost its = self.iterations;
                let ghost cs = crate::new_runtime::evaluator::refs_view(current@);
                proof {
                    let nr = rs.map()[name@];
                    assert(cs == crate::new_runtime::service::reactive_inputs(nr));
                    assert(rs.map()[name@].wf() && rs.map()[name@].service() == self.id);
                    if let Some(d) = nr.definition() {
                        d.lemma_inputs_local();
                    }
                    if !fresh {
                        let orr = old(self).reactives.map()[name@];
                        assert(p0 == crate::new_runtime::service::reactive_inputs(orr));
                        if let Some(d) = orr.definition() {
                            d.lemma_inputs_local();
                        }
                    }
                    assert(crate::new_runtime::evaluator::refs_view(prior@).to_set() =~= p0.to_set().difference(cs.subrange(0, 0).to_set()));
                    if crate::new_runtime::service::subs_exact(old(self)) {
                        assert forall|a: Seq<char>| #[trigger] edge(self.subscriptions.map(), a, name@) <==> (p0.contains((self.id, a))
                            || cs.subrange(0, 0).contains((self.id, a))) by {
                            assert(edge(self.subscriptions.map(), a, name@) == edge(old(self).subscriptions.map(), a, name@));
                            assert(edge(old(self).subscriptions.map(), a, name@) == crate::new_runtime::service::reads_local(old(self).reactives.map(), self.id, name@, a));
                        }
                    }
                }
                let mut i: usize = 0;
                while i < current.len()
                    invariant
                        i <= current@.len(),
                        self.reactives == rs,
                        self.iterations == its,
                        self.id == old(self).id,
                        self.queued == old(self).queued,
                        self.held == old(self).held,
                        self.preempted == old(self).preempted,
                        self.exports == old(self).exports,
                        self.roots == old(self).roots,
                        self.topo == old(self).topo,
                        closed_graph(self.subscriptions.map()),
                        self.subscriptions.map().contains_key(name@),
                        rs.map().dom().subset_of(self.subscriptions.map().dom()),
                        crate::new_runtime::service::values_current(old(self).reactives.map()) ==> crate::new_runtime::service::values_current(rs.map()),
                        fresh ==> prior@.len() == 0,
                        fresh ==> forall|j: int| 0 <= j < current@.len() ==> (#[trigger] current@[j]).service == self.id,
                        fresh || old(self).reactives.map()[name@].version_of() != u64::MAX,
                        fresh == !old(self).reactives.map().contains_key(name@),
                        config is Some,
                        cs == crate::new_runtime::evaluator::refs_view(current@),
                        forall|j: int| 0 <= j < p0.len() ==> (#[trigger] p0[j]).0 == self.id,
                        !fresh ==> p0 == crate::new_runtime::service::reactive_inputs(old(self).reactives.map()[name@]),
                        fresh ==> p0.len() == 0,
                        forall|j: int| 0 <= j < cs.len() ==> (#[trigger] cs[j]).0 == self.id,
                        crate::new_runtime::evaluator::refs_view(prior@).to_set() == p0.to_set().difference(cs.subrange(0, i as int).to_set()),
                        old(self).subscriptions.map().dom().subset_of(self.subscriptions.map().dom()),
                        forall|a: Seq<char>, b: Seq<char>| #![trigger edge(self.subscriptions.map(), a, b)] b != name@
                            ==> (edge(self.subscriptions.map(), a, b) <==> edge(old(self).subscriptions.map(), a, b)),
                        crate::new_runtime::service::subs_exact(old(self)) ==> forall|a: Seq<char>| #[trigger] edge(self.subscriptions.map(), a, name@)
                            <==> (p0.contains((self.id, a)) || cs.subrange(0, i as int).contains((self.id, a))),
                        crate::new_runtime::service::subs_exact(old(self)) ==> forall|j: int| 0 <= j < i ==> self.subscriptions.map().contains_key(
                            (#[trigger] cs[j]).1),
                    decreases current@.len() - i,
                {
                    let input = &current[i];
                    let ghost g0 = self.subscriptions.map();
                    let ghost pr0 = crate::new_runtime::evaluator::refs_view(prior@);
                    proof {
                        assert(cs[i as int] == input@);
                        assert(cs.subrange(0, i + 1) =~= cs.subrange(0, i as int).push(input@));
                        cs.subrange(0, i as int).lemma_push_to_set_commute(input@);
                    }
                    if crate::new_runtime::service::reactive::refs_contain(&prior, input) {
                        remove_ref(&mut prior, input);
                        proof {
                            assert(pr0.to_set().contains(input@));
                            if crate::new_runtime::service::subs_exact(old(self)) {
                                assert(p0.to_set().contains(input@));
                                let j = choose|j: int| 0 <= j < p0.len() && p0[j] == input@;
                                assert(p0[j].0 == self.id);
                                assert(crate::new_runtime::service::reads_local(old(self).reactives.map(), self.id, name@, input.name@));
                                assert(old(self).subscriptions.map().contains_key(input.name@));
                            }
                            assert(crate::new_runtime::evaluator::refs_view(prior@).to_set() =~= p0.to_set().difference(cs.subrange(0, i + 1).to_set()));
                            if crate::new_runtime::service::subs_exact(old(self)) {
                                assert forall|a: Seq<char>| #[trigger] edge(self.subscriptions.map(), a, name@) <==> (p0.contains((self.id, a))
                                    || cs.subrange(0, i + 1).contains((self.id, a))) by {
                                    if cs.subrange(0, i + 1).contains((self.id, a)) && !cs.subrange(0, i as int).contains((self.id, a)) {
                                        assert(cs.subrange(0, i + 1).to_set().contains((self.id, a)));
                                        assert(p0.to_set().contains(input@));
                                    }
                                    if cs.subrange(0, i as int).contains((self.id, a)) {
                                        let j = choose|j: int| 0 <= j < i && cs.subrange(0, i as int)[j] == (self.id, a);
                                        assert(cs.subrange(0, i + 1)[j] == (self.id, a));
                                    }
                                }
                            }
                        }
                    } else if input.service == self.id {
                        self.subscribe(&input.name, name);
                        proof {
                            assert(!pr0.to_set().contains(input@));
                            assert(crate::new_runtime::evaluator::refs_view(prior@).to_set() =~= p0.to_set().difference(cs.subrange(0, i + 1).to_set()));
                            if crate::new_runtime::service::subs_exact(old(self)) {
                                assert forall|a: Seq<char>| #[trigger] edge(self.subscriptions.map(), a, name@) <==> (p0.contains((self.id, a))
                                    || cs.subrange(0, i + 1).contains((self.id, a))) by {
                                    assert(edge(self.subscriptions.map(), a, name@) == (edge(g0, a, name@) || a == input.name@));
                                    if cs.subrange(0, i + 1).contains((self.id, a)) && !cs.subrange(0, i as int).contains((self.id, a)) {
                                        assert(cs.subrange(0, i + 1).to_set().contains((self.id, a)));
                                    }
                                    if cs.subrange(0, i as int).contains((self.id, a)) {
                                        let j = choose|j: int| 0 <= j < i && cs.subrange(0, i as int)[j] == (self.id, a);
                                        assert(cs.subrange(0, i + 1)[j] == (self.id, a));
                                    }
                                    if a == input.name@ {
                                        assert(cs.subrange(0, i + 1)[i as int] == (self.id, a));
                                    }
                                }
                            }
                        }
                    } else {
                        match self.add_importer(input, name) {
                            Ok(()) => {},
                            Err(f) => {
                                return Err(f);
                            },
                        }
                    }
                    i = i + 1;
                }
                proof {
                    assert(cs.subrange(0, cs.len() as int) =~= cs);
                    assert(crate::new_runtime::evaluator::refs_view(prior@).subrange(0, 0) =~= Seq::<crate::new_runtime::message::RefKey>::empty());
                }
                let mut k: usize = 0;
                while k < prior.len()
                    invariant
                        k <= prior@.len(),
                        self.reactives == rs,
                        self.iterations == its,
                        self.id == old(self).id,
                        self.queued == old(self).queued,
                        self.held == old(self).held,
                        self.preempted == old(self).preempted,
                        self.exports == old(self).exports,
                        self.roots == old(self).roots,
                        self.topo == old(self).topo,
                        closed_graph(self.subscriptions.map()),
                        rs.map().dom().subset_of(self.subscriptions.map().dom()),
                        crate::new_runtime::service::values_current(old(self).reactives.map()) ==> crate::new_runtime::service::values_current(rs.map()),
                        fresh ==> prior@.len() == 0,
                        fresh || old(self).reactives.map()[name@].version_of() != u64::MAX,
                        fresh == !old(self).reactives.map().contains_key(name@),
                        config is Some,
                        cs == crate::new_runtime::evaluator::refs_view(current@),
                        forall|j: int| 0 <= j < p0.len() ==> (#[trigger] p0[j]).0 == self.id,
                        !fresh ==> p0 == crate::new_runtime::service::reactive_inputs(old(self).reactives.map()[name@]),
                        fresh ==> p0.len() == 0,
                        forall|j: int| 0 <= j < cs.len() ==> (#[trigger] cs[j]).0 == self.id,
                        crate::new_runtime::evaluator::refs_view(prior@).to_set() == p0.to_set().difference(cs.to_set()),
                        old(self).subscriptions.map().dom().subset_of(self.subscriptions.map().dom()),
                        forall|a: Seq<char>, b: Seq<char>| #![trigger edge(self.subscriptions.map(), a, b)] b != name@
                            ==> (edge(self.subscriptions.map(), a, b) <==> edge(old(self).subscriptions.map(), a, b)),
                        crate::new_runtime::service::subs_exact(old(self)) ==> forall|a: Seq<char>| #[trigger] edge(self.subscriptions.map(), a, name@)
                            <==> ((p0.contains((self.id, a)) || cs.contains((self.id, a))) && !crate::new_runtime::evaluator::refs_view(prior@).subrange(0, k as int).contains(
                            (self.id, a))),
                        crate::new_runtime::service::subs_exact(old(self)) ==> forall|j: int| 0 <= j < cs.len() ==> self.subscriptions.map().contains_key(
                            (#[trigger] cs[j]).1),
                    decreases prior@.len() - k,
                {
                    let removed = &prior[k];
                    let ghost g0 = self.subscriptions.map();
                    let ghost pv = crate::new_runtime::evaluator::refs_view(prior@);
                    proof {
                        assert(pv[k as int] == removed@);
                        assert(pv.to_set().contains(removed@));
                        assert(p0.to_set().contains(removed@));
                        let j = choose|j: int| 0 <= j < p0.len() && p0[j] == removed@;
                        assert(p0[j].0 == self.id);
                        assert(pv.subrange(0, k + 1) =~= pv.subrange(0, k as int).push(removed@));
                    }
                    let res = if removed.service == self.id {
                        self.unsubscribe(&removed.name, name)
                    } else {
                        self.drop_importer(removed, name)
                    };
                    match res {
                        Ok(()) => {},
                        Err(f) => {
                            proof {
                                if crate::new_runtime::service::subs_exact(old(self)) {
                                    assert(crate::new_runtime::service::reads_local(old(self).reactives.map(), self.id, name@, removed.name@));
                                    assert(old(self).subscriptions.map().contains_key(removed.name@));
                                }
                            }
                            return Err(f);
                        },
                    }
                    proof {
                        if crate::new_runtime::service::subs_exact(old(self)) {
                            assert forall|a: Seq<char>| #[trigger] edge(self.subscriptions.map(), a, name@) <==> ((p0.contains((self.id, a))
                                || cs.contains((self.id, a))) && !pv.subrange(0, k + 1).contains((self.id, a))) by {
                                assert(edge(self.subscriptions.map(), a, name@) == (edge(g0, a, name@) && a != removed.name@));
                                if pv.subrange(0, k as int).contains((self.id, a)) {
                                    let j = choose|j: int| 0 <= j < k && pv.subrange(0, k as int)[j] == (self.id, a);
                                    assert(pv.subrange(0, k + 1)[j] == (self.id, a));
                                }
                                if pv.subrange(0, k + 1).contains((self.id, a)) && !pv.subrange(0, k as int).contains((self.id, a)) {
                                    let j = choose|j: int| 0 <= j < k + 1 && #[trigger] pv.subrange(0, k + 1)[j] == (self.id, a);
                                    if j < k {
                                        assert(pv.subrange(0, k as int)[j] == (self.id, a));
                                    }
                                }
                                if a == removed.name@ {
                                    assert(pv.subrange(0, k + 1)[k as int] == (self.id, a));
                                    assert(!cs.to_set().contains(removed@));
                                }
                            }
                        }
                    }
                    k = k + 1;
                }
                proof {
                    if crate::new_runtime::service::subs_exact(old(self)) {
                        assert(crate::new_runtime::evaluator::refs_view(prior@).subrange(0, prior@.len() as int) =~= crate::new_runtime::evaluator::refs_view(prior@));
                        let fr = self.reactives.map();
                        assert forall|a: Seq<char>, b: Seq<char>| #![trigger edge(self.subscriptions.map(), a, b)]
                            #![trigger crate::new_runtime::service::reads_local(fr, self.id, b, a)]
                            edge(self.subscriptions.map(), a, b) <==> crate::new_runtime::service::reads_local(fr, self.id, b, a) by {
                            if b != name@ {
                                assert(edge(old(self).subscriptions.map(), a, b) == crate::new_runtime::service::reads_local(old(self).reactives.map(), self.id, b, a));
                                if fr.contains_key(b) {
                                    assert(old(self).reactives.map().contains_key(b));
                                }
                            } else {
                                if p0.contains((self.id, a)) && !cs.contains((self.id, a)) {
                                    assert(p0.to_set().contains((self.id, a)));
                                    assert(crate::new_runtime::evaluator::refs_view(prior@).to_set().contains((self.id, a)));
                                }
                                if crate::new_runtime::evaluator::refs_view(prior@).contains((self.id, a)) {
                                    assert(crate::new_runtime::evaluator::refs_view(prior@).to_set().contains((self.id, a)));
                                    assert(!cs.to_set().contains((self.id, a)));
                                }
                            }
                        }
                        assert forall|a: Seq<char>, b: Seq<char>| #[trigger] crate::new_runtime::service::reads_local(fr, self.id, b, a)
                            implies self.subscriptions.map().contains_key(a) by {
                            if b != name@ {
                                assert(crate::new_runtime::service::reads_local(old(self).reactives.map(), self.id, b, a));
                            } else {
                                let j = choose|j: int| 0 <= j < cs.len() && cs[j] == (self.id, a);
                                assert(self.subscriptions.map().contains_key(cs[j].1));
                            }
                        }
                    }
                }
                Ok(())
            },
            None => {
                let ghost r0 = self.reactives.map();
                let ghost g_start = self.subscriptions.map();
                match self.reactives.remove(name) {
                    Some(removed) => {
                        let _ = self.iterations.remove(name);
                        let ins = removed.inputs();
                        let ghost rs = self.reactives;
                        let ghost its = self.iterations;
                        proof {
                            assert forall|m: Seq<char>| #[trigger] self.reactives.map().contains_key(m) implies self.reactives.map()[m].wf()
                                && self.reactives.map()[m].service() == self.id by {
                                assert(r0.contains_key(m));
                            }
                            if crate::new_runtime::service::values_current(old(self).reactives.map()) {
                                assert forall|m: Seq<char>| #[trigger] self.reactives.map().contains_key(m) implies
                                    self.reactives.map()[m].up_to_date() by {
                                    assert(r0.contains_key(m));
                                }
                            }
                        }
                        let mut i: usize = 0;
                        while i < ins.len()
                            invariant
                                i <= ins@.len(),
                                self.reactives == rs,
                                self.iterations == its,
                                self.id == old(self).id,
                                self.queued == old(self).queued,
                                self.held == old(self).held,
                                self.preempted == old(self).preempted,
                                self.exports == old(self).exports,
                                self.roots == old(self).roots,
                                self.topo == old(self).topo,
                                closed_graph(self.subscriptions.map()),
                                rs.map().dom().subset_of(self.subscriptions.map().dom()),
                        crate::new_runtime::service::values_current(old(self).reactives.map()) ==> crate::new_runtime::service::values_current(rs.map()),
                                reactives_wf(rs.map(), self.id),
                                rs.map() == old(self).reactives.map().remove(name@),
                                old(self).reactives.map().contains_key(name@),
                                crate::new_runtime::evaluator::refs_view(ins@) == crate::new_runtime::service::reactive_inputs(old(self).reactives.map()[name@]),
                                self.subscriptions.map().dom() == old(self).subscriptions.map().dom(),
                                forall|a: Seq<char>, b: Seq<char>| #![trigger edge(self.subscriptions.map(), a, b)] b != name@
                                    ==> (edge(self.subscriptions.map(), a, b) <==> edge(old(self).subscriptions.map(), a, b)),
                                forall|a: Seq<char>| #[trigger] edge(self.subscriptions.map(), a, name@)
                                    ==> edge(old(self).subscriptions.map(), a, name@) && !crate::new_runtime::evaluator::refs_view(ins@).subrange(0, i as int).contains(
                                    (self.id, a)),
                            decreases ins@.len() - i,
                        {
                            let input = &ins[i];
                            let ghost g0 = self.subscriptions.map();
                            let ghost iv = crate::new_runtime::evaluator::refs_view(ins@);
                            proof {
                                assert(iv[i as int] == input@);
                                assert(iv.subrange(0, i + 1) =~= iv.subrange(0, i as int).push(input@));
                            }
                            if input.service == self.id {
                                let _ = self.unsubscribe(&input.name, name);
                            } else {
                                let _ = self.drop_importer(input, name);
                            }
                            proof {
                                assert forall|a: Seq<char>| #[trigger] edge(self.subscriptions.map(), a, name@)
                                    implies edge(old(self).subscriptions.map(), a, name@) && !iv.subrange(0, i + 1).contains((self.id, a)) by {
                                    assert(edge(g0, a, name@));
                                    if iv.subrange(0, i + 1).contains((self.id, a)) {
                                        let j = choose|j: int| 0 <= j < i + 1 && #[trigger] iv.subrange(0, i + 1)[j] == (self.id, a);
                                        if j < i {
                                            assert(iv.subrange(0, i as int)[j] == (self.id, a));
                                        } else {
                                            assert(input.service == self.id && input.name@ == a);
                                        }
                                    }
                                }
                            }
                            i = i + 1;
                        }
                        proof {
                            if crate::new_runtime::service::subs_exact(old(self)) {
                                let iv = crate::new_runtime::evaluator::refs_view(ins@);
                                assert(iv.subrange(0, iv.len() as int) =~= iv);
                                let fr = self.reactives.map();
                                assert forall|a: Seq<char>, b: Seq<char>| #![trigger edge(self.subscriptions.map(), a, b)]
                                    #![trigger crate::new_runtime::service::reads_local(fr, self.id, b, a)]
                                    edge(self.subscriptions.map(), a, b) <==> crate::new_runtime::service::reads_local(fr, self.id, b, a) by {
                                    if b != name@ {
                                        assert(edge(old(self).subscriptions.map(), a, b) == crate::new_runtime::service::reads_local(old(self).reactives.map(),
                                            self.id, b, a));
                                    } else {
                                        if edge(self.subscriptions.map(), a, name@) {
                                            assert(crate::new_runtime::service::reads_local(old(self).reactives.map(), self.id, name@, a));
                                        }
                                    }
                                }
                                assert forall|a: Seq<char>, b: Seq<char>| #[trigger] crate::new_runtime::service::reads_local(fr, self.id, b, a)
                                    implies self.subscriptions.map().contains_key(a) by {
                                    assert(crate::new_runtime::service::reads_local(old(self).reactives.map(), self.id, b, a));
                                }
                            }
                        }
                        Ok(())
                    },
                    None => {
                        proof {
                            assert(r0.dom().remove(name@) =~= r0.dom());
                            assert(self.reactives.map() =~= old(self).reactives.map());
                        }
                        Ok(())
                    },
                }
            },
        }
    }
}

} // verus!

verus! {

impl ServiceActor {
    /// Configures every reactive the transaction configures, in order, and
    /// adds the names of those it creates or reconfigures to `modified`.
    pub(crate) fn apply_reactives(
        &mut self,
        exclusive: &mut ExclusiveLockState,
        basis: &BasisStamp,
        modified: &mut Vec<ReactiveName>,
    ) -> (r: Result<(), Fault>)
        requires
            graph_wf(old(self)),
        ensures
            final(self).id == old(self).id,
            final(self).queued == old(self).queued,
            final(self).held == old(self).held,
            final(self).preempted == old(self).preempted,
            final(self).exports == old(self).exports,
            final(self).roots == old(self).roots,
            final(self).topo == old(self).topo,
            final(exclusive).writes == old(exclusive).writes,
            final(exclusive).imports == old(exclusive).imports,
            final(exclusive).exports == old(exclusive).exports,
            final(exclusive).prepared_iterations == old(exclusive).prepared_iterations,
            final(exclusive).reactives.keys() == old(exclusive).reactives.keys(),
            r is Ok ==> graph_wf(final(self)),
            r is Ok ==> forall|m: Seq<char>| #![trigger final(self).reactives.map().contains_key(m)]
                old(exclusive).reactives.map().contains_key(m) ==> (final(self).reactives.map().contains_key(m)
                <==> old(exclusive).reactives.map()[m] is Some),
            r is Ok ==> forall|m: Seq<char>| #![trigger final(self).reactives.map().contains_key(m)]
                !old(exclusive).reactives.map().contains_key(m) ==> (final(self).reactives.map().contains_key(m)
                <==> old(self).reactives.map().contains_key(m)),
            r is Ok ==> names_of(final(modified)@).to_set() == names_of(old(modified)@).to_set() + Set::new(
                |m: Seq<char>| old(exclusive).reactives.map().contains_key(m) && old(exclusive).reactives.map()[m] is Some),
            r is Ok ==> forall|m: Seq<char>| #![trigger old(self).reactives.map().contains_key(m)]
                !old(exclusive).reactives.map().contains_key(m) && old(self).reactives.map().contains_key(m)
                ==> final(self).reactives.map()[m] == old(self).reactives.map()[m],
            (forall|m: Seq<char>| #[trigger] old(exclusive).reactives.map().contains_key(m) && old(exclusive).reactives.map()[m] is Some
                ==> !old(self).reactives.map().contains_key(m)) ==> r is Ok,
            old(exclusive).reactives.map().dom() == Set::<Seq<char>>::empty() ==> final(self).reactives == old(self).reactives
                && final(self).subscriptions == old(self).subscriptions && final(self).imports == old(self).imports,
            r is Ok && crate::new_runtime::service::values_current(old(self).reactives.map()) ==> crate::new_runtime::service::values_current(final(self).reactives.map()),
            crate::new_runtime::service::subs_exact(old(self)) && r is Ok ==> crate::new_runtime::service::subs_exact(final(self)),
            r is Ok ==> forall|m: Seq<char>| #[trigger] old(exclusive).reactives.map().contains_key(m)
                && old(exclusive).reactives.map()[m] is Some ==> final(self).reactives.map().contains_key(m)
                && crate::new_runtime::service::reactive_inputs(final(self).reactives.map()[m]).to_set() == crate::new_runtime::service::config_reads(
                old(exclusive).reactives.map()[m]->Some_0, old(self).id),
            crate::new_runtime::service::subs_exact(old(self)) && r is Err ==> (r matches Err(Fault::Stuck) || r matches Err(Fault::Evaluation(_)) || r matches Err(Fault::MissingInput)),
            crate::new_runtime::service::subs_exact(old(self)) && r is Err ==> (r matches Err(Fault::Stuck) && exists|m: Seq<char>|
                #[trigger] old(exclusive).reactives.map().contains_key(m) && old(exclusive).reactives.map()[m] is Some
                && old(self).reactives.map().contains_key(m) && old(self).reactives.map()[m].version_of() == u64::MAX)
                || exists|m: Seq<char>| #[trigger] final(self).reactives.map().contains_key(m)
                && final(self).reactives.map()[m].configuration_fails(),
    {
        let n = exclusive.reactives.len();
        proof {
            exclusive.reactives.lemma_len();
        }
        let ghost cfg = exclusive.reactives.map();
        let ghost ckeys = exclusive.reactives.keys();
        let ghost conf = |m: Seq<char>| cfg.contains_key(m) && cfg[m] is Some;
        proof {
            if cfg.dom() == Set::<Seq<char>>::empty() && n > 0 {
                assert(cfg.contains_key(ckeys[0]));
            }
        }
        let mut i: usize = 0;
        while i < n
            invariant
                i <= n,
                n == exclusive.reactives.size(),
                n == ckeys.len(),
                ckeys == exclusive.reactives.keys(),
                ckeys.no_duplicates(),
                cfg == old(exclusive).reactives.map(),
                ckeys == old(exclusive).reactives.keys(),
                forall|j: int| #![trigger ckeys[j]] i <= j < n ==> exclusive.reactives.map()[ckeys[j]] == cfg[ckeys[j]],
                exclusive.writes == old(exclusive).writes,
                exclusive.imports == old(exclusive).imports,
                exclusive.exports == old(exclusive).exports,
                exclusive.prepared_iterations == old(exclusive).prepared_iterations,
                self.id == old(self).id,
                self.queued == old(self).queued,
                self.held == old(self).held,
                self.preempted == old(self).preempted,
                self.exports == old(self).exports,
                self.roots == old(self).roots,
                self.topo == old(self).topo,
                graph_wf(self),
                forall|j: int| #![trigger ckeys[j]] 0 <= j < i ==> (self.reactives.map().contains_key(ckeys[j])
                    <==> cfg[ckeys[j]] is Some),
                forall|m: Seq<char>| #![trigger self.reactives.map().contains_key(m)] !cfg.contains_key(m) ==> (
                    self.reactives.map().contains_key(m) <==> old(self).reactives.map().contains_key(m)),
                forall|m: Seq<char>| #![trigger old(self).reactives.map().contains_key(m)] !cfg.contains_key(m)
                    && old(self).reactives.map().contains_key(m) ==> self.reactives.map()[m] == old(self).reactives.map()[m],
                names_of(modified@).to_set() == names_of(old(modified)@).to_set() + Set::new(|m: Seq<char>| exists|j: int|
                    0 <= j < i && ckeys[j] == m && cfg[m] is Some),
                forall|j: int| #![trigger ckeys[j]] i <= j < n ==> (self.reactives.map().contains_key(ckeys[j])
                    <==> old(self).reactives.map().contains_key(ckeys[j])),
                n == 0 ==> self.reactives == old(self).reactives && self.subscriptions == old(self).subscriptions
                    && self.imports == old(self).imports,
                crate::new_runtime::service::values_current(old(self).reactives.map()) ==> crate::new_runtime::service::values_current(self.reactives.map()),
                crate::new_runtime::service::subs_exact(old(self)) ==> crate::new_runtime::service::subs_exact(self),
                forall|j: int| #![trigger ckeys[j]] 0 <= j < i && cfg[ckeys[j]] is Some ==> self.reactives.map().contains_key(ckeys[j])
                    && crate::new_runtime::service::reactive_inputs(self.reactives.map()[ckeys[j]]).to_set() == crate::new_runtime::service::config_reads(cfg[ckeys[j]]->Some_0,
                    old(self).id),
                forall|j: int| #![trigger ckeys[j]] i <= j < n && old(self).reactives.map().contains_key(ckeys[j])
                    ==> self.reactives.map()[ckeys[j]] == old(self).reactives.map()[ckeys[j]],
            decreases n - i,
        {
            let name = exclusive.reactives.key_at(i).copy();
            proof {
                exclusive.reactives.lemma_len();
            }
            let c = exclusive.reactives.replace_at(i, None);
            proof {
                exclusive.reactives.lemma_len();
                assert(c == cfg[ckeys[i as int]]);
                assert forall|j: int| #![trigger ckeys[j]] i < j < n implies exclusive.reactives.map()[ckeys[j]] == cfg[ckeys[j]] by {
                    assert(ckeys[j] != ckeys[i as int]);
                }
            }
            let is_some = c.is_some();
            let ghost before = self.reactives.map();
            let ghost mods = names_of(modified@).to_set();
            match self.configure_one(&name, c, basis) {
                Ok(()) => {},
                Err(f) => {
                    proof {
                        assert(ckeys[i as int] == name@);
                        assert(cfg.contains_key(name@) && cfg[name@] is Some && old(self).reactives.map().contains_key(name@));
                        if crate::new_runtime::service::subs_exact(old(self)) {
                            if !(self.reactives.map().contains_key(name@) && self.reactives.map()[name@].configuration_fails()) {
                                assert(before[name@] == old(self).reactives.map()[name@]);
                                assert(cfg.contains_key(name@));
                            }
                        }
                    }
                    return Err(f);
                },
            }
            if is_some {
                crate::new_runtime::service::commit::insert_name(modified, &name);
            }
            proof {
                assert forall|j: int| #![trigger ckeys[j]] 0 <= j < i + 1 implies (self.reactives.map().contains_key(ckeys[j])
                    <==> cfg[ckeys[j]] is Some) by {
                    if j < i {
                        assert(ckeys[j] != ckeys[i as int]);
                        assert(self.reactives.map().contains_key(ckeys[j]) == before.contains_key(ckeys[j]));
                    }
                }
                assert forall|m: Seq<char>| #![trigger self.reactives.map().contains_key(m)] !cfg.contains_key(m) implies (
                    self.reactives.map().contains_key(m) <==> old(self).reactives.map().contains_key(m)) by {
                    assert(ckeys[i as int] == name@);
                    assert(cfg.contains_key(name@));
                    assert(m != name@);
                    assert(self.reactives.map().contains_key(m) == before.contains_key(m));
                }
                assert forall|m: Seq<char>| #![trigger old(self).reactives.map().contains_key(m)] !cfg.contains_key(m)
                    && old(self).reactives.map().contains_key(m) implies self.reactives.map()[m] == old(self).reactives.map()[m] by {
                    assert(ckeys[i as int] == name@);
                    assert(m != name@);
                    assert(before.contains_key(m));
                }
                assert forall|j: int| #![trigger ckeys[j]] i + 1 <= j < n implies (self.reactives.map().contains_key(ckeys[j])
                    <==> old(self).reactives.map().contains_key(ckeys[j])) by {
                    assert(ckeys[j] != ckeys[i as int]);
                    assert(self.reactives.map().contains_key(ckeys[j]) == before.contains_key(ckeys[j]));
                }
                let want = names_of(old(modified)@).to_set() + Set::new(|m: Seq<char>| exists|j: int|
                    0 <= j < i + 1 && ckeys[j] == m && cfg[m] is Some);
                assert(names_of(modified@).to_set() =~= want) by {
                    assert forall|m: Seq<char>| #[trigger] want.contains(m) implies names_of(modified@).to_set().contains(m) by {
                        if !names_of(old(modified)@).to_set().contains(m) {
                            let j = choose|j: int| 0 <= j < i + 1 && ckeys[j] == m && cfg[m] is Some;
                            if j < i {
                                assert(mods.contains(m));
                            } else {
                                assert(m == name@);
                            }
                        }
                    }
                    assert forall|m: Seq<char>| names_of(modified@).to_set().contains(m) implies #[trigger] want.contains(m) by {
                        if m != name@ || !is_some {
                            assert(mods.contains(m));
                            if !names_of(old(modified)@).to_set().contains(m) {
                                let j = choose|j: int| 0 <= j < i && ckeys[j] == m && cfg[m] is Some;
                                assert(0 <= j < i + 1 && ckeys[j] == m && cfg[m] is Some);
                            }
                        } else {
                            assert(0 <= i < i + 1 && ckeys[i as int] == m && cfg[m] is Some);
                        }
                    }
                }
            }
            i = i + 1;
        }
        proof {
            assert forall|m: Seq<char>| #![trigger self.reactives.map().contains_key(m)] cfg.contains_key(m) implies (
                self.reactives.map().contains_key(m) <==> cfg[m] is Some) by {
                assert(ckeys.contains(m));
                let j = choose|j: int| 0 <= j < ckeys.len() && ckeys[j] == m;
                assert(ckeys[j] == m);
            }
            assert(Set::new(|m: Seq<char>| exists|j: int| 0 <= j < n && ckeys[j] == m && cfg[m] is Some) =~= Set::new(
                |m: Seq<char>| cfg.contains_key(m) && cfg[m] is Some)) by {
                assert forall|m: Seq<char>| cfg.contains_key(m) && cfg[m] is Some implies exists|j: int| 0 <= j < n && ckeys[j] == m
                    && cfg[m] is Some by {
                    assert(ckeys.contains(m));
                }
            }
        }
        Ok(())
    }

    /// Sets the exports the transaction configures: an export with
    /// importers takes them, with the roots from other services of its
    /// reactive; one without importers goes.
    pub(crate) fn apply_exports(&mut self, exclusive: &mut ExclusiveLockState) -> (r: Result<(), Fault>)
        ensures
            final(self).id == old(self).id,
            final(self).queued == old(self).queued,
            final(self).held == old(self).held,
            final(self).preempted == old(self).preempted,
            final(self).reactives == old(self).reactives,
            final(self).subscriptions == old(self).subscriptions,
            final(self).imports == old(self).imports,
            final(self).iterations == old(self).iterations,
            final(self).roots == old(self).roots,
            final(self).topo == old(self).topo,
            final(exclusive).prepared_iterations == old(exclusive).prepared_iterations,
            r is Ok ==> forall|m: Seq<char>| #![trigger final(self).exports.map().contains_key(m)]
                old(exclusive).exports.map().contains_key(m) ==> (final(self).exports.map().contains_key(m)
                <==> old(exclusive).exports.map()[m]@.len() > 0),
            r is Ok ==> forall|m: Seq<char>| #![trigger final(self).exports.map().contains_key(m)]
                !old(exclusive).exports.map().contains_key(m) ==> (final(self).exports.map().contains_key(m)
                <==> old(self).exports.map().contains_key(m)),
            r is Ok ==> forall|m: Seq<char>| #![trigger final(self).exports.map()[m]]
                old(exclusive).exports.map().contains_key(m) && old(exclusive).exports.map()[m]@.len() > 0
                ==> final(self).exports.map()[m].importers@ == old(exclusive).exports.map()[m]@
                && refs_view(final(self).exports.map()[m].roots@).to_set() == crate::new_runtime::service::foreign(
                refs_view(old(self).roots.map()[m]@).to_set(), old(self).id),
            r is Ok ==> forall|m: Seq<char>| #![trigger final(self).exports.map()[m]]
                !old(exclusive).exports.map().contains_key(m) && old(self).exports.map().contains_key(m)
                ==> final(self).exports.map()[m] == old(self).exports.map()[m],
            r is Err <==> exists|m: Seq<char>| #[trigger] old(exclusive).exports.map().contains_key(m)
                && old(exclusive).exports.map()[m]@.len() > 0 && !old(self).roots.map().contains_key(m),
            r matches Err(f) ==> f is Unknown,
    {
        let n = exclusive.exports.len();
        proof {
            exclusive.exports.lemma_len();
        }
        let ghost cfg = exclusive.exports.map();
        let ghost ckeys = exclusive.exports.keys();
        let mut i: usize = 0;
        while i < n
            invariant
                i <= n,
                n == exclusive.exports.size(),
                n == ckeys.len(),
                ckeys == exclusive.exports.keys(),
                ckeys.no_duplicates(),
                cfg == old(exclusive).exports.map(),
                ckeys == old(exclusive).exports.keys(),
                forall|j: int| #![trigger ckeys[j]] i <= j < n ==> exclusive.exports.map()[ckeys[j]] == cfg[ckeys[j]],
                exclusive.prepared_iterations == old(exclusive).prepared_iterations,
                self.id == old(self).id,
                self.queued == old(self).queued,
                self.held == old(self).held,
                self.preempted == old(self).preempted,
                self.reactives == old(self).reactives,
                self.subscriptions == old(self).subscriptions,
                self.imports == old(self).imports,
                self.iterations == old(self).iterations,
                self.roots == old(self).roots,
                self.topo == old(self).topo,
                forall|j: int| #![trigger ckeys[j]] 0 <= j < i ==> (self.exports.map().contains_key(ckeys[j])
                    <==> cfg[ckeys[j]]@.len() > 0),
                forall|m: Seq<char>| #![trigger self.exports.map().contains_key(m)] !cfg.contains_key(m) ==> (
                    self.exports.map().contains_key(m) <==> old(self).exports.map().contains_key(m)),
                forall|j: int| #![trigger ckeys[j]] 0 <= j < i ==> cfg[ckeys[j]]@.len() > 0 ==> (
                    self.roots.map().contains_key(ckeys[j]) && self.exports.map()[ckeys[j]].importers@ == cfg[ckeys[j]]@
                    && refs_view(self.exports.map()[ckeys[j]].roots@).to_set() == crate::new_runtime::service::foreign(
                    refs_view(self.roots.map()[ckeys[j]]@).to_set(), self.id)),
                forall|m: Seq<char>| #![trigger self.exports.map()[m]] !cfg.contains_key(m) && old(self).exports.map().contains_key(m)
                    ==> self.exports.map()[m] == old(self).exports.map()[m],
            decreases n - i,
        {
            let name = exclusive.exports.key_at(i).copy();
            proof {
                exclusive.exports.lemma_len();
            }
            let addrs = exclusive.exports.replace_at(i, Vec::new());
            proof {
                exclusive.exports.lemma_len();
                assert(addrs == cfg[ckeys[i as int]]);
                assert forall|j: int| #![trigger ckeys[j]] i < j < n implies exclusive.exports.map()[ckeys[j]] == cfg[ckeys[j]] by {
                    assert(ckeys[j] != ckeys[i as int]);
                }
            }
            let ghost before = self.exports.map();
            if addrs.len() == 0 {
                let _ = self.exports.remove(&name);
            } else {
                let roots = match self.roots.get(&name) {
                    Some(v) => crate::new_runtime::service::foreign_refs(v, self.id),
                    None => {
                        proof {
                            assert(cfg.contains_key(ckeys[i as int]));
                        }
                        return Err(Fault::Unknown);
                    },
                };
                let _ = self.exports.insert(name.copy(), crate::new_runtime::service::Export { roots, importers: addrs });
            }
            proof {
                assert forall|j: int| #![trigger ckeys[j]] 0 <= j < i + 1 implies (self.exports.map().contains_key(ckeys[j])
                    <==> cfg[ckeys[j]]@.len() > 0) by {
                    if j < i {
                        assert(ckeys[j] != ckeys[i as int]);
                        assert(self.exports.map().contains_key(ckeys[j]) == before.contains_key(ckeys[j]));
                    }
                }
                assert forall|j: int| #![trigger ckeys[j]] 0 <= j < i + 1 implies cfg[ckeys[j]]@.len() > 0 ==> (
                    self.roots.map().contains_key(ckeys[j]) && self.exports.map()[ckeys[j]].importers@ == cfg[ckeys[j]]@
                    && refs_view(self.exports.map()[ckeys[j]].roots@).to_set() == crate::new_runtime::service::foreign(
                    refs_view(self.roots.map()[ckeys[j]]@).to_set(), self.id)) by {
                    if j < i {
                        assert(ckeys[j] != ckeys[i as int]);
                        if cfg[ckeys[j]]@.len() > 0 {
                            assert(self.exports.map()[ckeys[j]] == before[ckeys[j]]);
                        }
                    }
                }
                assert forall|m: Seq<char>| #![trigger self.exports.map()[m]] !cfg.contains_key(m)
                    && old(self).exports.map().contains_key(m) implies self.exports.map()[m] == old(self).exports.map()[m] by {
                    assert(ckeys.contains(ckeys[i as int]));
                    assert(m != name@);
                }
                assert forall|m: Seq<char>| #![trigger self.exports.map().contains_key(m)] !cfg.contains_key(m) implies (
                    self.exports.map().contains_key(m) <==> old(self).exports.map().contains_key(m)) by {
                    assert(ckeys.contains(ckeys[i as int]));
                    assert(cfg.contains_key(ckeys[i as int]));
                    assert(m != name@);
                    assert(self.exports.map().contains_key(m) == before.contains_key(m));
                }
            }
            i = i + 1;
        }
        proof {
            assert forall|m: Seq<char>| #![trigger self.exports.map().contains_key(m)] cfg.contains_key(m) implies (
                self.exports.map().contains_key(m) <==> cfg[m]@.len() > 0) by {
                assert(ckeys.contains(m));
                let j = choose|j: int| 0 <= j < ckeys.len() && ckeys[j] == m;
                assert(ckeys[j] == m);
            }
            assert forall|m: Seq<char>| #![trigger self.exports.map()[m]] cfg.contains_key(m) && cfg[m]@.len() > 0 implies
                self.exports.map()[m].importers@ == cfg[m]@ && refs_view(self.exports.map()[m].roots@).to_set()
                == crate::new_runtime::service::foreign(refs_view(old(self).roots.map()[m]@).to_set(), old(self).id) by {
                assert(ckeys.contains(m));
                let j = choose|j: int| 0 <= j < ckeys.len() && ckeys[j] == m;
                assert(ckeys[j] == m);
            }
            assert forall|m: Seq<char>| !(#[trigger] cfg.contains_key(m) && cfg[m]@.len() > 0
                && !old(self).roots.map().contains_key(m)) by {
                if cfg.contains_key(m) {
                    assert(ckeys.contains(m));
                    let j = choose|j: int| 0 <= j < ckeys.len() && ckeys[j] == m;
                    assert(ckeys[j] == m);
                }
            }
        }
        Ok(())
    }

    /// Records the iterations prepared for the transaction.
    pub(crate) fn extend_iterations(&mut self, prepared: &Table<ReactiveName, Iteration>)
        ensures
            final(self).id == old(self).id,
            final(self).queued == old(self).queued,
            final(self).held == old(self).held,
            final(self).preempted == old(self).preempted,
            final(self).reactives == old(self).reactives,
            final(self).subscriptions == old(self).subscriptions,
            final(self).imports == old(self).imports,
            final(self).exports == old(self).exports,
            final(self).roots == old(self).roots,
            final(self).topo == old(self).topo,
            final(self).iterations.map() == old(self).iterations.map().union_prefer_right(prepared.map()),
    {
        let n = prepared.len();
        proof {
            prepared.lemma_len();
        }
        let mut i: usize = 0;
        while i < n
            invariant
                i <= n,
                n == prepared.size(),
                n == prepared.keys().len(),
                prepared.keys().no_duplicates(),
                self.id == old(self).id,
                self.queued == old(self).queued,
                self.held == old(self).held,
                self.preempted == old(self).preempted,
                self.reactives == old(self).reactives,
                self.subscriptions == old(self).subscriptions,
                self.imports == old(self).imports,
                self.exports == old(self).exports,
                self.roots == old(self).roots,
                self.topo == old(self).topo,
                self.iterations.map() == old(self).iterations.map().union_prefer_right(prepared.map().restrict(
                    prepared.keys().subrange(0, i as int).to_set())),
            decreases n - i,
        {
            let name = prepared.key_at(i).copy();
            let it = *prepared.value_at(i);
            let _ = self.iterations.insert(name, it);
            proof {
                let ks = prepared.keys();
                assert(ks.subrange(0, i + 1) =~= ks.subrange(0, i as int).push(ks[i as int]));
                ks.subrange(0, i as int).lemma_push_to_set_commute(ks[i as int]);
                assert(self.iterations.map() =~= old(self).iterations.map().union_prefer_right(prepared.map().restrict(
                    ks.subrange(0, i + 1).to_set())));
            }
            i = i + 1;
        }
        proof {
            let ks = prepared.keys();
            assert(ks.subrange(0, n as int) =~= ks);
            assert(prepared.map().restrict(ks.to_set()) =~= prepared.map());
        }
    }
}

} // verus!

verus! {

/// Whether reactive `m` is hosted once configuration `cfg` is applied to
/// `reactives`.
pub open spec fn hosted_after(reactives: Map<Seq<char>, Reactive>, cfg: Map<Seq<char>, Option<ReactiveConfiguration>>, m: Seq<char>) -> bool {
    if cfg.contains_key(m) {
        cfg[m] is Some
    } else {
        reactives.contains_key(m)
    }
}

/// Whether, once configuration `cfg` is applied to `reactives`, the hosted
/// reactive `b` reads the local reactive `a`.
pub open spec fn reads_after(
    reactives: Map<Seq<char>, Reactive>,
    cfg: Map<Seq<char>, Option<ReactiveConfiguration>>,
    id: u64,
    b: Seq<char>,
    a: Seq<char>,
) -> bool {
    &&& hosted_after(reactives, cfg, b)
    &&& if cfg.contains_key(b) {
        crate::new_runtime::service::config_reads(cfg[b]->Some_0, id).contains((id, a))
    } else {
        crate::new_runtime::service::reactive_inputs(reactives[b]).contains((id, a))
    }
}

/// Whether each name of `p` is read by the next once `cfg` is applied.
pub open spec fn reads_path(
    reactives: Map<Seq<char>, Reactive>,
    cfg: Map<Seq<char>, Option<ReactiveConfiguration>>,
    id: u64,
    p: Seq<Seq<char>>,
) -> bool {
    forall|i: int| 0 <= i < p.len() - 1 ==> #[trigger] reads_after(reactives, cfg, id, p[i + 1], p[i])
}

/// Whether configuring `cfg` on `reactives` leaves a dependency graph that
/// can be ordered and propagated along: no reactive reads itself through a
/// chain of reads, every reactive read is hosted, and every name exported
/// (by `exports`, or with importers by `cfg_exports`) is hosted.
pub open spec fn configuration_sound(
    reactives: Map<Seq<char>, Reactive>,
    cfg: Map<Seq<char>, Option<ReactiveConfiguration>>,
    id: u64,
    exports: Map<Seq<char>, crate::new_runtime::service::Export>,
    cfg_exports: Map<Seq<char>, Vec<u64>>,
) -> bool {
    &&& forall|p: Seq<Seq<char>>| p.len() >= 2 && #[trigger] reads_path(reactives, cfg, id, p) ==> p[0] != p.last()
    &&& forall|a: Seq<char>, b: Seq<char>| #[trigger] reads_after(reactives, cfg, id, b, a) ==> hosted_after(reactives, cfg, a)
    &&& forall|m: Seq<char>| #[trigger] exports.contains_key(m) ==> hosted_after(reactives, cfg, m)
    &&& forall|m: Seq<char>| #[trigger] cfg_exports.contains_key(m) && cfg_exports[m]@.len() > 0 ==> hosted_after(reactives, cfg, m)
}

/// The subscription graph of a sound configuration has no cycle, and leads
/// from hosted reactives to hosted reactives only.
proof fn lemma_graph_after(
    g: Map<Seq<char>, Vec<ReactiveName>>,
    rs: Map<Seq<char>, Reactive>,
    id: u64,
    r0: Map<Seq<char>, Reactive>,
    cfg: Map<Seq<char>, Option<ReactiveConfiguration>>,
    exports: Map<Seq<char>, crate::new_runtime::service::Export>,
    cfg_exports: Map<Seq<char>, Vec<u64>>,
)
    requires
        forall|a: Seq<char>, b: Seq<char>| #[trigger] edge(g, a, b) <==> crate::new_runtime::service::reads_local(rs, id, b, a),
        forall|a: Seq<char>, b: Seq<char>| #[trigger] crate::new_runtime::service::reads_local(rs, id, b, a) <==> reads_after(r0, cfg, id, b, a),
        forall|m: Seq<char>| #[trigger] rs.contains_key(m) <==> hosted_after(r0, cfg, m),
        configuration_sound(r0, cfg, id, exports, cfg_exports),
    ensures
        crate::new_runtime::service::acyclic(g),
        crate::new_runtime::service::closed_in(g, rs.dom()),
        forall|a: Seq<char>, b: Seq<char>| #[trigger] crate::new_runtime::service::reads_local(rs, id, b, a) ==> rs.contains_key(a),
        forall|a: Seq<char>| !#[trigger] edge(g, a, a),
{
    assert forall|p: Seq<Seq<char>>| p.len() >= 2 && #[trigger] crate::new_runtime::service::is_path(g, p) implies p[0] != p.last() by {
        assert forall|i: int| 0 <= i < p.len() - 1 implies #[trigger] reads_after(r0, cfg, id, p[i + 1], p[i]) by {
            assert(edge(g, p[i], p[i + 1]));
        }
        assert(reads_path(r0, cfg, id, p));
    }
    assert forall|a: Seq<char>| !#[trigger] edge(g, a, a) by {
        if edge(g, a, a) {
            let p = seq![a, a];
            assert(crate::new_runtime::service::is_path(g, p));
        }
    }
    assert forall|a: Seq<char>, b: Seq<char>| rs.dom().contains(a) && #[trigger] edge(g, a, b) implies rs.dom().contains(b) by {
        assert(crate::new_runtime::service::reads_local(rs, id, b, a));
    }
    assert forall|a: Seq<char>, b: Seq<char>| #[trigger] crate::new_runtime::service::reads_local(rs, id, b, a) implies rs.contains_key(a) by {
        assert(reads_after(r0, cfg, id, b, a));
    }
}

/// A reactive's inputs are local: well formed and hosted by `id`, it reads
/// only reactives of `id`.
proof fn lemma_reactive_inputs_local(r: Reactive, id: u64)
    requires
        r.wf(),
        r.service() == id,
    ensures
        forall|j: int| 0 <= j < crate::new_runtime::service::reactive_inputs(r).len() ==> (#[trigger] crate::new_runtime::service::reactive_inputs(r)[j]).0 == id,
{
    if let Some(d) = r.definition() {
        d.lemma_inputs_local();
    }
}

/// In an order of the subscription graph that holds exactly the hosted
/// reactives, each reactive's inputs come before it, so its roots can be
/// worked out.
proof fn lemma_roots_known(
    t: Seq<Seq<char>>,
    g: Map<Seq<char>, Vec<ReactiveName>>,
    rs: Map<Seq<char>, Reactive>,
    id: u64,
    imports: Map<RefKey, Import>,
    exports: Map<Seq<char>, crate::new_runtime::service::Export>,
)
    requires
        topo_ordered(g, t),
        forall|n: Seq<char>| #[trigger] t.contains(n) <==> rs.contains_key(n),
        forall|a: Seq<char>, b: Seq<char>| #[trigger] edge(g, a, b) <==> crate::new_runtime::service::reads_local(rs, id, b, a),
        forall|a: Seq<char>, b: Seq<char>| #[trigger] crate::new_runtime::service::reads_local(rs, id, b, a) ==> rs.contains_key(a),
        reactives_wf(rs, id),
        forall|m: Seq<char>| #[trigger] exports.contains_key(m) ==> rs.contains_key(m),
    ensures
        crate::new_runtime::service::roots_known(t, rs, id, imports, exports),
{
    assert forall|i: int| 0 <= i < t.len() implies rs.contains_key(#[trigger] t[i]) && crate::new_runtime::service::inputs_known(
        crate::new_runtime::service::reactive_inputs(rs[t[i]]), id, t.subrange(0, i).to_set(), imports) by {
        assert(t.contains(t[i]));
        let n = t[i];
        let ins = crate::new_runtime::service::reactive_inputs(rs[n]);
        lemma_reactive_inputs_local(rs[n], id);
        assert forall|j: int| 0 <= j < ins.len() implies if (#[trigger] ins[j]).0 == id {
            t.subrange(0, i).to_set().contains(ins[j].1)
        } else {
            imports.contains_key(ins[j])
        } by {
            let a = ins[j].1;
            assert(ins[j] == (id, a));
            assert(ins.contains((id, a)));
            assert(crate::new_runtime::service::reads_local(rs, id, n, a));
            assert(rs.contains_key(a));
            assert(t.contains(a));
            let j2 = choose|j2: int| 0 <= j2 < t.len() && t[j2] == a;
            assert(edge(g, t[j2], t[i]));
            assert(j2 < i);
            assert(t.subrange(0, i)[j2] == a);
        }
    }
    assert forall|n: Seq<char>| #[trigger] exports.contains_key(n) implies t.contains(n) by {
        assert(rs.contains_key(n));
    }
}

/// A service whose order holds exactly its hosted reactives, whose
/// subscriptions are its local reads with no reactive reading itself, and
/// whose roots are recorded for the names of its order can propagate along
/// that order.
proof fn lemma_sound_after(s: &ServiceActor)
    requires
        topo_ordered(s.subscriptions.map(), names_of(s.topo@)),
        forall|n: Seq<char>| #[trigger] names_of(s.topo@).contains(n) <==> s.reactives.map().contains_key(n),
        forall|n: Seq<char>| #[trigger] names_of(s.topo@).contains(n) ==> s.subscriptions.map().contains_key(n),
        forall|a: Seq<char>, b: Seq<char>| #[trigger] edge(s.subscriptions.map(), a, b) <==> crate::new_runtime::service::reads_local(s.reactives.map(),
            s.id, b, a),
        forall|a: Seq<char>, b: Seq<char>| #[trigger] crate::new_runtime::service::reads_local(s.reactives.map(), s.id, b, a) ==> s.reactives.map().contains_key(a),
        forall|a: Seq<char>| !#[trigger] edge(s.subscriptions.map(), a, a),
        reactives_wf(s.reactives.map(), s.id),
        s.roots.map().dom() == names_of(s.topo@).to_set(),
    ensures
        crate::new_runtime::service::propagation_sound(s),
{
    let t = names_of(s.topo@);
    let g = s.subscriptions.map();
    let rs = s.reactives.map();
    assert forall|i: int| 0 <= i < s.topo@.len() implies #[trigger] crate::new_runtime::service::sound_at(s, names_of(s.topo@)[i]) by {
        let n = t[i];
        assert(t.contains(n));
        assert forall|j: int| 0 <= j < g[n]@.len() implies crate::new_runtime::service::subscriber_ok(s, n, #[trigger] g[n]@[j]@) by {
            let m = g[n]@[j]@;
            assert(names_of(g[n]@)[j] == m);
            assert(edge(g, n, m));
            assert(crate::new_runtime::service::reads_local(rs, s.id, m, n));
            assert(crate::new_runtime::service::reactive_inputs(rs[m]).contains((s.id, n)));
            let d = rs[m].definition()->Some_0;
            assert(d.inputs().keys().contains((s.id, n)));
        }
        lemma_reactive_inputs_local(rs[n], s.id);
        assert forall|j: int| 0 <= j < crate::new_runtime::service::reactive_inputs(rs[n]).len() implies crate::new_runtime::service::input_known(s,
            #[trigger] crate::new_runtime::service::reactive_inputs(rs[n])[j]) by {
            let k = crate::new_runtime::service::reactive_inputs(rs[n])[j];
            assert(k == (s.id, k.1));
            assert(crate::new_runtime::service::reactive_inputs(rs[n]).contains((s.id, k.1)));
            assert(crate::new_runtime::service::reads_local(rs, s.id, n, k.1));
            assert(t.contains(k.1));
            assert(t.to_set().contains(k.1));
        }
    }
}

/// Whether every read that returned a value names a reactive of `reactives`.
pub(crate) open spec fn reads_hosted(shared: SharedLockState, reactives: Map<Seq<char>, Reactive>) -> bool {
    forall|j: int| 0 <= j < shared.reads.keys().len() && (#[trigger] shared.reads.values()[j]).complete@
        != Map::<RefKey, u64>::empty() ==> reactives.contains_key(shared.reads.keys()[j])
}

/// Whether each written name has a prepared iteration and names a variable
/// of `reactives`.
pub(crate) open spec fn writes_applicable(exclusive: ExclusiveLockState, reactives: Map<Seq<char>, Reactive>) -> bool {
    forall|j: int| 0 <= j < exclusive.writes.keys().len() ==> #[trigger] exclusive.prepared_iterations.map().contains_key(
        exclusive.writes.keys()[j]) && reactives.contains_key(exclusive.writes.keys()[j])
        && reactives[exclusive.writes.keys()[j]].definition() is None
}

/// Whether an exclusive lock configures no import, reactive or export.
pub(crate) open spec fn configures_nothing(exclusive: ExclusiveLockState) -> bool {
    &&& exclusive.imports.map().dom() == Set::<RefKey>::empty()
    &&& exclusive.reactives.map().dom() == Set::<Seq<char>>::empty()
    &&& exclusive.exports.map().dom() == Set::<Seq<char>>::empty()
}

/// Whether an exclusive lock has nothing to write and nothing to configure.
pub(crate) open spec fn nothing_to_apply(exclusive: ExclusiveLockState) -> bool {
    &&& exclusive.writes.map().dom() == Set::<Seq<char>>::empty()
    &&& exclusive.imports.map().dom() == Set::<RefKey>::empty()
    &&& exclusive.reactives.map().dom() == Set::<Seq<char>>::empty()
    &&& exclusive.exports.map().dom() == Set::<Seq<char>>::empty()
}

impl ServiceActor {
    /// Commits a transaction with basis `basis`: records its completed
    /// reads, writes its variables, applies its configuration (recomputing
    /// the dependency order and the roots when reactives change) and the
    /// iterations prepared for it, then propagates from the written and
    /// configured reactives. Never asks the service to stop.
    #[verifier::spinoff_prover]
    #[verifier::rlimit(50)]
    pub(crate) fn commit(
        &mut self,
        basis: BasisStamp,
        shared: SharedLockState,
        exclusive: ExclusiveLockState,
        out: &mut Vec<Envelope>,
    ) -> (r: Result<bool, Fault>)
        requires
            old(self).locks_wf(),
            graph_wf(old(self)),
        ensures
            final(self).id == old(self).id,
            final(self).queued == old(self).queued,
            final(self).preempted == old(self).preempted,
            r is Ok ==> r == Ok::<bool, Fault>(false),
            r is Ok ==> final(self).locks_wf() && graph_wf(final(self)),
            r is Ok ==> final(self).held.view() == old(self).held.view(),
            r is Ok ==> final(out)@.subrange(0, old(out)@.len() as int) == old(out)@,
            r is Ok ==> forall|j: int| old(out)@.len() <= j < final(out)@.len() ==> crate::new_runtime::service::is_propagation(
                #[trigger] final(out)@[j], old(self).id) || crate::new_runtime::service::is_answer(final(out)@[j], old(self).id),
            r is Ok ==> forall|m: Seq<char>| #![trigger final(self).reactives.map().contains_key(m)]
                exclusive.reactives.map().contains_key(m) ==> (final(self).reactives.map().contains_key(m)
                <==> exclusive.reactives.map()[m] is Some),
            r is Ok ==> forall|m: Seq<char>| #![trigger final(self).reactives.map().contains_key(m)]
                !exclusive.reactives.map().contains_key(m) ==> (final(self).reactives.map().contains_key(m)
                <==> old(self).reactives.map().contains_key(m)),
            r is Ok ==> forall|m: Seq<char>| #![trigger final(self).exports.map().contains_key(m)]
                exclusive.exports.map().contains_key(m) ==> (final(self).exports.map().contains_key(m)
                <==> exclusive.exports.map()[m]@.len() > 0),
            r is Ok ==> forall|m: Seq<char>| #[trigger] exclusive.prepared_iterations.map().contains_key(m)
                ==> final(self).iterations.map().contains_key(m)
                && final(self).iterations.map()[m] == exclusive.prepared_iterations.map()[m],
            r is Ok && exclusive.reactives.map().dom().len() > 0 ==> topo_ordered(final(self).subscriptions.map(),
                final(self).topo_names()),
            r is Ok ==> forall|k: Seq<char>| #[trigger] exclusive.writes.map().contains_key(k)
                && !exclusive.reactives.map().contains_key(k) ==> final(self).reactives.map().contains_key(k)
                && (final(self).reactives.map()[k].current() matches Some(sv) && sv.value@ == exclusive.writes.map()[k]@
                && crate::new_runtime::message::latest_of(sv.basis@, (old(self).id, k)) >= exclusive.prepared_iterations.map()[k].0)
                && exclusive.prepared_iterations.map().contains_key(k),
            r is Ok ==> forall|m: Seq<char>| #[trigger] exclusive.exports.map().contains_key(m) && exclusive.exports.map()[m]@.len() > 0
                ==> final(self).exports.map()[m].importers@ == exclusive.exports.map()[m]@,
            !reads_hosted(shared, old(self).reactives.map()) ==> (r matches Err(f) && f is Unknown),
            reads_hosted(shared, old(self).reactives.map()) && !writes_applicable(exclusive, old(self).reactives.map())
                ==> r is Err,
            reads_hosted(shared, old(self).reactives.map()) && writes_applicable(exclusive, old(self).reactives.map())
                && (exists|a: RefKey| import_removal_blocked(old(self).imports.map(), exclusive.imports.map(),
                exclusive.reactives.map(), a)) ==> (r matches Err(f) && f is Unknown),
            reads_hosted(shared, old(self).reactives.map()) && nothing_to_apply(exclusive) ==> (r is Ok <==> held_answers(
                old(self).held, final(self).reactives.map(), old(self).roots.map()).0),
            r is Ok ==> held_answers(old(self).held, final(self).reactives.map(), final(self).roots.map()).0,
            crate::new_runtime::service::subs_exact(old(self)) && r is Ok ==> crate::new_runtime::service::subs_exact(final(self)),
            r is Ok && crate::new_runtime::service::values_current(old(self).reactives.map()) ==> crate::new_runtime::service::values_current(final(self).reactives.map()),
            configures_nothing(exclusive) && reads_hosted(shared, old(self).reactives.map()) && writes_applicable(exclusive,
                old(self).reactives.map()) && crate::new_runtime::service::propagation_sound(old(self)) && r is Err ==> (r matches Err(Fault::Stuck)
                || r matches Err(Fault::Evaluation(_)) || !held_answers(old(self).held, final(self).reactives.map(),
                old(self).roots.map()).0),
            configures_nothing(exclusive) && (r matches Err(Fault::Stuck) || r matches Err(Fault::Evaluation(_))) ==> exists|n: Seq<char>|
                #[trigger] final(self).reactives.map().contains_key(n) && final(self).reactives.map()[n].evaluation_fails(),
            configures_nothing(exclusive) && r is Ok ==> forall|n: Seq<char>| #[trigger] exclusive.writes.map().contains_key(n)
                && old(self).topo_names().contains(n) && old(self).exports.map().contains_key(n) ==> (final(self).reactives.map()[n].current()
                matches Some(sv) && crate::new_runtime::service::sent_to_importers(final(out)@, old(out)@.len() as int, old(self).exports.map(), old(self).id, n,
                sv.value@)),
            configures_nothing(exclusive) && r is Ok ==> crate::new_runtime::service::changes_sent(old(self).reactives.map(), final(self).reactives.map(),
                old(self).exports.map(), final(out)@, old(out)@.len() as int, old(self).id, exclusive.writes.map().dom()),
            reads_hosted(shared, old(self).reactives.map()) && writes_applicable(exclusive, old(self).reactives.map())
                && configures_nothing(exclusive) && crate::new_runtime::service::plain_variables(old(self)) ==> (r is Ok
                <==> held_answers(old(self).held, final(self).reactives.map(), old(self).roots.map()).0),
            reads_hosted(shared, old(self).reactives.map()) && writes_applicable(exclusive, old(self).reactives.map())
                && !(exists|a: RefKey| import_removal_blocked(old(self).imports.map(), exclusive.imports.map(),
                exclusive.reactives.map(), a)) && crate::new_runtime::service::subs_exact(old(self)) && exclusive.reactives.map().dom()
                != Set::<Seq<char>>::empty() && configuration_sound(old(self).reactives.map(), exclusive.reactives.map(),
                old(self).id, old(self).exports.map(), exclusive.exports.map()) && r is Err ==> (r matches Err(Fault::Stuck)
                && exists|m: Seq<char>| #[trigger] exclusive.reactives.map().contains_key(m) && exclusive.reactives.map()[m] is Some
                && old(self).reactives.map().contains_key(m) && old(self).reactives.map()[m].version_of() == u64::MAX)
                || ((r matches Err(Fault::Stuck) || r matches Err(Fault::Evaluation(_)) || r matches Err(Fault::MissingInput))
                && exists|n: Seq<char>| #[trigger] final(self).reactives.map().contains_key(n) && (
                final(self).reactives.map()[n].configuration_fails() || final(self).reactives.map()[n].evaluation_fails()))
                || !held_answers(old(self).held, final(self).reactives.map(), final(self).roots.map()).0,
    {
        let mut basis = basis;
        let mut exclusive = exclusive;
        let ghost ex0 = exclusive;
        let ghost empty = nothing_to_apply(exclusive);
        let ghost plain = configures_nothing(exclusive) && crate::new_runtime::service::plain_variables(old(self));
        match self.finish_reads(&shared, &basis) {
            Ok(()) => {},
            Err(f) => {
                return Err(f);
            },
        }
        proof {
            exclusive.writes.lemma_len();
            if empty && exclusive.writes.keys().len() > 0 {
                assert(exclusive.writes.map().dom().contains(exclusive.writes.keys()[0]));
            }
        }
        let mut modified: Vec<ReactiveName> = Vec::new();
        let nw = exclusive.writes.len();
        let mut w: usize = 0;
        while w < nw
            invariant
                w <= nw,
                nw == exclusive.writes.size(),
                modified@.len() == w,
                names_of(modified@) == exclusive.writes.keys().subrange(0, w as int),
                exclusive == ex0,
            decreases nw - w,
        {
            let ghost m0 = modified@;
            modified.push(exclusive.writes.key_at(w).copy());
            proof {
                exclusive.writes.lemma_len();
                assert(names_of(modified@) =~= names_of(m0).push(exclusive.writes.keys()[w as int]));
                assert(exclusive.writes.keys().subrange(0, w + 1) =~= exclusive.writes.keys().subrange(0, w as int).push(
                    exclusive.writes.keys()[w as int]));
            }
            w = w + 1;
        }
        proof {
            exclusive.writes.lemma_len();
            assert(exclusive.writes.keys().subrange(0, nw as int) =~= exclusive.writes.keys());
        }
        let ghost before_writes = *self;
        let ghost r1 = self.reactives.map();
        proof {
            assert(writes_applicable(ex0, old(self).reactives.map()) == forall|j: int| 0 <= j < ex0.writes.keys().len()
                ==> #[trigger] ex0.prepared_iterations.map().contains_key(ex0.writes.keys()[j]) && r1.contains_key(
                ex0.writes.keys()[j]) && r1[ex0.writes.keys()[j]].definition() is None) by {
                assert forall|j: int| 0 <= j < ex0.writes.keys().len() implies (r1.contains_key(#[trigger] ex0.writes.keys()[j])
                    == old(self).reactives.map().contains_key(ex0.writes.keys()[j])) && (r1.contains_key(ex0.writes.keys()[j])
                    ==> r1[ex0.writes.keys()[j]].definition() == old(self).reactives.map()[ex0.writes.keys()[j]].definition()) by {
                    let k = ex0.writes.keys()[j];
                    assert(r1.contains_key(k) == self.reactives.keys().contains(k));
                    if r1.contains_key(k) {
                        assert(self.reactives.map().contains_key(k));
                    }
                }
            }
        }
        proof {
            assert(exclusive == ex0);
            assert(self.reactives.map() == r1);
        }
        match self.apply_writes(&mut exclusive, &mut basis) {
            Ok(()) => {
                proof {
                    assert(writes_applicable(ex0, old(self).reactives.map()));
                }
            },
            Err(f) => {
                proof {
                    if writes_applicable(ex0, old(self).reactives.map()) {
                        assert(forall|j: int| 0 <= j < ex0.writes.keys().len() ==> #[trigger] ex0.prepared_iterations.map().contains_key(
                            ex0.writes.keys()[j]) && r1.contains_key(ex0.writes.keys()[j]) && r1[ex0.writes.keys()[j]].definition()
                            is None);
                        assert(false);
                    }
                }
                return Err(f);
            },
        }
        let ghost after_writes = self.reactives.map();
        match self.apply_imports(&mut exclusive) {
            Ok(()) => {},
            Err(f) => {
                return Err(f);
            },
        }
        let ghost imps = self.imports;
        let reactives_changed = exclusive.reactives.len() > 0;
        proof {
            exclusive.reactives.lemma_len();
            if ex0.reactives.map().dom() != Set::<Seq<char>>::empty() {
                assert(exists|x: Seq<char>| ex0.reactives.map().dom().contains(x)) by {
                    if !(exists|x: Seq<char>| ex0.reactives.map().dom().contains(x)) {
                        assert(ex0.reactives.map().dom() =~= Set::<Seq<char>>::empty());
                    }
                }
                let m = choose|x: Seq<char>| ex0.reactives.map().dom().contains(x);
                assert(exclusive.reactives.keys().contains(m));
                assert(reactives_changed);
            }
        }
        let ghost mods0 = modified@;
        proof {
            assert(graph_wf(self));
        }
        let ghost before_config = self.reactives.map();
        let ghost subs_before_config = self.subscriptions;
        let ghost cfg = ex0.reactives.map();
        let ghost pc = reads_hosted(shared, old(self).reactives.map()) && writes_applicable(ex0, old(self).reactives.map())
            && !(exists|a: RefKey| import_removal_blocked(old(self).imports.map(), ex0.imports.map(), cfg, a))
            && crate::new_runtime::service::subs_exact(old(self)) && cfg.dom() != Set::<Seq<char>>::empty() && configuration_sound(old(self).reactives.map(),
            cfg, old(self).id, old(self).exports.map(), ex0.exports.map());
        proof {
            if crate::new_runtime::service::subs_exact(old(self)) {
                assert(self.reactives.map().dom() =~= old(self).reactives.map().dom());
                assert forall|m: Seq<char>| #[trigger] old(self).reactives.map().contains_key(m) implies
                    crate::new_runtime::service::reactive_inputs(old(self).reactives.map()[m]) == crate::new_runtime::service::reactive_inputs(self.reactives.map()[m])
                    && (old(self).reactives.map()[m].definition() is Some <==> self.reactives.map()[m].definition() is Some)
                    && self.reactives.map()[m].version_of() == old(self).reactives.map()[m].version_of() by {
                    assert(r1.contains_key(m));
                    if ex0.writes.map().contains_key(m) {
                        ex0.writes.lemma_len();
                        assert(ex0.writes.keys().contains(m));
                        let j = ex0.writes.keys().index_of(m);
                        assert(0 <= j < ex0.writes.keys().len() && ex0.writes.keys()[j] == m);
                        assert(ex0.prepared_iterations.map().contains_key(ex0.writes.keys()[j]));
                        assert(r1[m].definition() is None);
                        assert(after_writes[m].definition() is None);
                    } else {
                        assert(after_writes[m] == r1[m]);
                    }
                    assert(self.reactives.map()[m] == after_writes[m]);
                }
                assert(crate::new_runtime::service::same_shape(old(self).reactives.map(), self.reactives.map()));
                crate::new_runtime::service::lemma_subs_exact_transfer(old(self), self);
            }
        }
        let ghost s1 = *self;
        match self.apply_reactives(&mut exclusive, &basis, &mut modified) {
            Ok(()) => {},
            Err(f) => {
                proof {
                    if pc && !(exists|n: Seq<char>| #[trigger] self.reactives.map().contains_key(n)
                        && self.reactives.map()[n].configuration_fails()) {
                        let m = choose|m: Seq<char>| #[trigger] cfg.contains_key(m) && cfg[m] is Some
                            && s1.reactives.map().contains_key(m) && s1.reactives.map()[m].version_of() == u64::MAX;
                        assert(old(self).reactives.map().contains_key(m));
                    }
                }
                return Err(f);
            },
        }
        let ghost after_config = self.reactives.map();
        proof {
            if pc {
                let rs = self.reactives.map();
                assert forall|m: Seq<char>| #[trigger] rs.contains_key(m) <==> hosted_after(old(self).reactives.map(), cfg, m) by {
                    if !cfg.contains_key(m) {
                        assert(rs.contains_key(m) == s1.reactives.map().contains_key(m));
                    }
                }
                assert forall|x: Seq<char>, y: Seq<char>| #[trigger] crate::new_runtime::service::reads_local(rs, self.id, y, x)
                    <==> reads_after(old(self).reactives.map(), cfg, self.id, y, x) by {
                    if cfg.contains_key(y) {
                        if cfg[y] is Some {
                            assert(crate::new_runtime::service::reactive_inputs(rs[y]).to_set() == crate::new_runtime::service::config_reads(cfg[y]->Some_0, self.id));
                            assert(crate::new_runtime::service::reactive_inputs(rs[y]).contains((self.id, x)) <==> crate::new_runtime::service::reactive_inputs(rs[y]).to_set().contains(
                                (self.id, x)));
                        }
                    } else {
                        if s1.reactives.map().contains_key(y) {
                            assert(rs[y] == s1.reactives.map()[y]);
                        }
                    }
                }
                lemma_graph_after(self.subscriptions.map(), rs, self.id, old(self).reactives.map(), cfg, old(self).exports.map(),
                    ex0.exports.map());
                assert(reactives_changed);
            }
        }
        proof {
            if plain {
                let topo = names_of(self.topo@);
                assert forall|a: int| 0 <= a < topo.len() implies {
                    let n = #[trigger] topo[a];
                    &&& self.reactives.map().contains_key(n)
                    &&& self.reactives.map()[n].definition() is None
                    &&& self.subscriptions.map().contains_key(n)
                    &&& self.subscriptions.map()[n]@.len() == 0
                } by {
                    let n = topo[a];
                    assert(self.reactives.map() == after_writes);
                    assert(self.subscriptions == old(self).subscriptions);
                    assert(self.topo == old(self).topo);
                    assert(names_of(old(self).topo@)[a] == n);
                    assert(old(self).reactives.map().contains_key(n));
                    assert(old(self).reactives.map()[n].definition() is None);
                    assert(old(self).subscriptions.map().contains_key(n));
                    assert(r1.contains_key(n));
                    assert(r1[n].definition() is None);
                    assert(after_writes.contains_key(n));
                    if !ex0.writes.map().contains_key(n) {
                        assert(after_writes[n] == r1[n]);
                    } else {
                        ex0.writes.lemma_len();
                        assert(ex0.writes.keys().contains(n));
                        let j = ex0.writes.keys().index_of(n);
                        assert(0 <= j < ex0.writes.keys().len() && ex0.writes.keys()[j] == n);
                        assert(ex0.prepared_iterations.map().contains_key(ex0.writes.keys()[j]));
                    }
                    assert(after_writes[n].definition() is None);
                }
                assert(crate::new_runtime::service::plain_variables(self));
            }
        }
        proof {
            if empty {
                assert(mods0.len() == 0);
                assert(names_of(mods0).to_set() =~= Set::<Seq<char>>::empty());
                assert(names_of(modified@).to_set() =~= Set::<Seq<char>>::empty());
                let topo = self.topo_names();
                assert forall|a: int| 0 <= a < topo.len() implies !names_of(modified@).contains(#[trigger] topo[a]) by {
                    if names_of(modified@).contains(topo[a]) {
                        assert(names_of(modified@).to_set().contains(topo[a]));
                    }
                }
                crate::new_runtime::service::lemma_first_modified(topo, names_of(modified@), topo.len() as int);
                crate::new_runtime::service::lemma_first_modified_nonneg(topo, names_of(modified@));
            }
        }
        let ghost mut st_topo = *self;
        let ghost pre_topo = *self;
        if reactives_changed {
            match self.recompute_topo() {
                Ok(()) => {},
                Err(f) => {
                    return Err(f);
                },
            }
            proof {
                st_topo = *self;
                if pc {
                    self.lemma_views();
                    pre_topo.lemma_views();
                    let rs = self.reactives.map();
                    assert forall|n: Seq<char>| #[trigger] names_of(self.topo@).contains(n) <==> rs.contains_key(n) by {
                        assert(self.topo_names().contains(n) == names_of(self.topo@).contains(n));
                    }
                    assert forall|m: Seq<char>| #[trigger] self.exports.map().contains_key(m) implies rs.contains_key(m) by {
                        assert(hosted_after(old(self).reactives.map(), cfg, m));
                    }
                    lemma_roots_known(names_of(self.topo@), self.subscriptions.map(), rs, self.id, self.imports.map(),
                        self.exports.map());
                    assert(topo_ordered(self.subscriptions.map(), names_of(self.topo@)));
                    assert forall|n: Seq<char>| #[trigger] names_of(self.topo@).contains(n) implies self.subscriptions.map().contains_key(n) by {
                        assert(self.topo_names().contains(n));
                    }
                }
            }
            match self.recompute_roots() {
                Ok(()) => {},
                Err(f) => {
                    return Err(f);
                },
            }
        }
        let ghost subs_now = self.subscriptions.map();
        let ghost topo_now = self.topo_names();
        let ghost reactive_keys = self.reactives.map().dom();
        match self.apply_exports(&mut exclusive) {
            Ok(()) => {},
            Err(f) => {
                proof {
                    if pc {
                        self.lemma_views();
                        let m = choose|m: Seq<char>| #[trigger] ex0.exports.map().contains_key(m)
                            && ex0.exports.map()[m]@.len() > 0 && !self.roots.map().contains_key(m);
                        assert(hosted_after(old(self).reactives.map(), cfg, m));
                        assert(st_topo.reactives.map().contains_key(m));
                        assert(names_of(st_topo.topo@).contains(m));
                        assert(self.topo == st_topo.topo);
                        assert(names_of(self.topo@).to_set().contains(m));
                    }
                }
                return Err(f);
            },
        }
        self.extend_iterations(&exclusive.prepared_iterations);
        let ghost its = self.iterations;
        let ghost ex_keys_react = self.reactives.map();
        let ghost pre = *self;
        proof {
            if pc {
                self.lemma_views();
                assert(self.topo == st_topo.topo);
                assert(self.subscriptions == st_topo.subscriptions);
                assert(self.reactives == st_topo.reactives);
                assert forall|n: Seq<char>| #[trigger] names_of(self.topo@).contains(n) implies self.subscriptions.map().contains_key(n) by {
                    assert(names_of(st_topo.topo@).contains(n));
                }
                lemma_sound_after(self);
            }
        }
        proof {
            if configures_nothing(ex0) {
                assert forall|m: Seq<char>| #[trigger] old(self).reactives.map().contains_key(m) && !ex0.writes.map().contains_key(m)
                    implies self.reactives.map().contains_key(m) && self.reactives.map()[m].current()
                    == old(self).reactives.map()[m].current() && self.reactives.map()[m].definition()
                    == old(self).reactives.map()[m].definition() && self.reactives.map()[m].changed()
                    == old(self).reactives.map()[m].changed() by {
                    assert(r1.contains_key(m));
                    assert(after_writes[m] == r1[m]);
                    assert(self.reactives.map()[m] == after_writes[m]);
                }
                assert(self.exports.map() =~= old(self).exports.map());
                if reads_hosted(shared, old(self).reactives.map()) && writes_applicable(ex0, old(self).reactives.map()) {
                    assert(self.imports == imps);
                    assert forall|a: RefKey| #[trigger] imps.map().contains_key(a) <==> old(self).imports.map().contains_key(a) by {
                        assert(!ex0.imports.map().dom().contains(a));
                    }
                    assert forall|a: RefKey| #[trigger] old(self).imports.map().contains_key(a) implies imps.map()[a]
                        == old(self).imports.map()[a] by {
                        assert(!ex0.imports.map().dom().contains(a));
                        assert(imps.map().contains_key(a));
                    }
                    assert(self.imports.map() =~= old(self).imports.map());
                    assert(self.reactives.map().dom() =~= old(self).reactives.map().dom());
                    assert forall|m: Seq<char>| #[trigger] old(self).reactives.map().contains_key(m) implies
                        crate::new_runtime::service::reactive_inputs(old(self).reactives.map()[m]) == crate::new_runtime::service::reactive_inputs(self.reactives.map()[m])
                        && (old(self).reactives.map()[m].definition() is Some <==> self.reactives.map()[m].definition() is Some) by {
                        if ex0.writes.map().contains_key(m) {
                            ex0.writes.lemma_len();
                            assert(ex0.writes.keys().contains(m));
                            let j = ex0.writes.keys().index_of(m);
                            assert(0 <= j < ex0.writes.keys().len() && ex0.writes.keys()[j] == m);
                            assert(ex0.prepared_iterations.map().contains_key(ex0.writes.keys()[j]));
                            assert(r1[m].definition() is None);
                            assert(after_writes[m].definition() is None);
                            assert(self.reactives.map()[m] == after_writes[m]);
                        }
                    }
                    if crate::new_runtime::service::propagation_sound(old(self)) {
                        crate::new_runtime::service::lemma_sound_transfer(old(self), self);
                    }
                }
            }
        }
        let ghost mods_p = names_of(modified@);
        let ghost pre_p = self.reactives.map();
        proof {
            if configures_nothing(ex0) {
                assert forall|n: Seq<char>| #[trigger] ex0.writes.map().contains_key(n) implies mods_p.contains(n)
                    && pre_p.contains_key(n) && pre_p[n].changed() && pre_p[n].current() is Some by {
                    ex0.writes.lemma_len();
                    assert(ex0.writes.keys().contains(n));
                    let j = ex0.writes.keys().index_of(n);
                    assert(0 <= j < ex0.writes.keys().len() && ex0.writes.keys()[j] == n);
                    assert(ex0.prepared_iterations.map().contains_key(ex0.writes.keys()[j]));
                    assert(names_of(mods0)[j] == n);
                    assert(names_of(mods0).to_set().contains(n));
                    assert(names_of(modified@).to_set().contains(n));
                    assert(after_writes[n].changed());
                    assert(pre_p[n] == after_writes[n]);
                }
            }
        }
        let ghost s_prop = *self;
        proof {
            if crate::new_runtime::service::subs_exact(old(self)) {
                assert(crate::new_runtime::service::subs_exact(self));
            }
        }
        match self.propagate(&modified, out) {
            Ok(()) => {},
            Err(f) => {
                return Err(f);
            },
        }
        proof {
            if configures_nothing(ex0) {
                assert forall|n: Seq<char>| #[trigger] ex0.writes.map().contains_key(n) && old(self).topo_names().contains(n)
                    && old(self).exports.map().contains_key(n) implies (self.reactives.map()[n].current() matches Some(sv)
                    && crate::new_runtime::service::sent_to_importers(out@, old(out)@.len() as int, old(self).exports.map(), old(self).id, n, sv.value@)) by {
                    let topo = old(self).topo_names();
                    let a = topo.index_of(n);
                    assert(0 <= a < topo.len() && topo[a] == n);
                    assert(pre.topo_names() == topo);
                    crate::new_runtime::service::lemma_first_modified_le(topo, mods_p, a);
                    assert(!self.reactives.map()[topo[a]].changed());
                    assert(self.reactives.map()[n].current() != pre_p[n].current() || (pre_p[n].changed()
                        && pre_p[n].current() is Some && !self.reactives.map()[n].changed()));
                }
            }
            assert forall|k: Seq<char>| #[trigger] ex0.writes.map().contains_key(k) && !ex0.reactives.map().contains_key(k)
                implies self.reactives.map().contains_key(k) && (self.reactives.map()[k].current() matches Some(sv)
                && sv.value@ == ex0.writes.map()[k]@
                && crate::new_runtime::message::latest_of(sv.basis@, (old(self).id, k)) >= ex0.prepared_iterations.map()[k].0)
                && ex0.prepared_iterations.map().contains_key(k) by {
                ex0.writes.lemma_len();
                assert(ex0.writes.keys().contains(k));
                let j = ex0.writes.keys().index_of(k);
                assert(0 <= j < ex0.writes.keys().len());
                assert(ex0.writes.keys()[j] == k);
                ex0.writes.lemma_entry(j);
                assert(ex0.prepared_iterations.map().contains_key(ex0.writes.keys()[j]));
                assert(after_writes[k].definition() is None);
                assert(before_writes.reactives.map().contains_key(k));
                assert(before_config == after_writes);
                assert(after_config[k] == before_config[k]);
                assert(ex_keys_react.contains_key(k));
            }
            assert(self.reactives.map().dom() =~= ex_keys_react.dom());
            assert forall|m: Seq<char>| #[trigger] exclusive.prepared_iterations.map().contains_key(m) implies
                self.iterations.map().contains_key(m) && self.iterations.map()[m] == exclusive.prepared_iterations.map()[m] by {
            }
        }
        proof {
            if crate::new_runtime::service::subs_exact(old(self)) {
                assert(crate::new_runtime::service::same_shape(s_prop.reactives.map(), self.reactives.map()));
                crate::new_runtime::service::lemma_subs_exact_transfer(&s_prop, self);
            }
        }
        Ok(false)
    }
}

} // verus!
