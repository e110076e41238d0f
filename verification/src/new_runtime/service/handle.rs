//! The messages a service handles: lock requests and releases, reads,
//! writes, configuration, commits and propagated values.
use vstd::prelude::*;

use crate::new_runtime::message::{
    law_tx_lt_total, law_tx_lt_transitive, tx_lt, Envelope, LockKind, TxId, TxKey,
};
use crate::new_runtime::service::commit::graph_wf;
use crate::new_runtime::service::held_locks::{shared_keys, shared_position, tx_sorted, HeldLocks, HeldV};
use crate::new_runtime::service::{grant_from, queue_view, Fault, ServiceActor};

verus! {

/// The identities of queued requests.
pub open spec fn queue_keys(q: Seq<(TxKey, LockKind)>) -> Seq<TxKey> {
    q.map_values(|e: (TxKey, LockKind)| e.0)
}

/// Inserts a request into the queue, keeping it in transaction order.
fn insert_queued(q: &mut Vec<(TxId, LockKind)>, txid: TxId, kind: LockKind)
    requires
        tx_sorted(queue_keys(queue_view(old(q)@))),
        !queue_keys(queue_view(old(q)@)).contains(txid@),
    ensures
        tx_sorted(queue_keys(queue_view(final(q)@))),
        exists|pos: int| 0 <= pos <= old(q)@.len() && queue_view(final(q)@) == queue_view(old(q)@).insert(pos, (txid@, kind)),
{
    let ghost ks = queue_keys(queue_view(q@));
    let ghost qv = queue_view(q@);
    let mut i: usize = 0;
    while i < q.len() && q[i].0.precedes(&txid)
        invariant
            i <= q@.len(),
            ks == queue_keys(queue_view(q@)),
            qv == queue_view(q@),
            forall|j: int| 0 <= j < i ==> tx_lt(#[trigger] ks[j], txid@),
        decreases q@.len() - i,
    {
        proof {
            assert(ks[i as int] == q@[i as int].0@);
        }
        i = i + 1;
    }
    let ghost k = txid@;
    q.insert(i, (txid, kind));
    proof {
        assert(queue_view(q@) =~= qv.insert(i as int, (k, kind)));
        let nk = queue_keys(queue_view(q@));
        assert(nk =~= ks.insert(i as int, k));
        if i < ks.len() {
            assert(ks[i as int] == q@[i as int + 1].0@) by {
                assert(queue_view(q@)[i as int + 1] == qv[i as int]);
            }
            assert(!tx_lt(ks[i as int], k));
            assert(ks[i as int] != k);
            law_tx_lt_total(ks[i as int], k);
        }
        assert forall|a: int, b: int| 0 <= a < b < nk.len() implies tx_lt(#[trigger] nk[a], #[trigger] nk[b]) by {
            if b < i {
            } else if a < i && b == i {
            } else if a < i {
                assert(tx_lt(ks[a], ks[b - 1]));
            } else if a == i {
                if b - 1 > i {
                    law_tx_lt_transitive(k, ks[i as int], ks[b - 1]);
                }
            } else {
            }
        }
    }
}

/// Whether the queue holds a request of `txid`.
fn queued_contains(q: &Vec<(TxId, LockKind)>, txid: &TxId) -> (r: bool)
    ensures
        r == queue_keys(queue_view(q@)).contains(txid@),
{
    let mut i: usize = 0;
    while i < q.len()
        invariant
            i <= q@.len(),
            forall|j: int| 0 <= j < i ==> q@[j].0@ != txid@,
        decreases q@.len() - i,
    {
        if q[i].0.same(txid) {
            proof {
                assert(queue_keys(queue_view(q@))[i as int] == txid@);
            }
            return true;
        }
        i = i + 1;
    }
    proof {
        if queue_keys(queue_view(q@)).contains(txid@) {
            let j = choose|j: int| 0 <= j < queue_keys(queue_view(q@)).len() && queue_keys(queue_view(q@))[j] == txid@;
            assert(q@[j].0@ == txid@);
        }
    }
    false
}

/// The state of the lock that `t` holds among `h`, if it holds one.
pub open spec fn lock_state_of(h: HeldLocks, t: TxKey) -> Option<crate::new_runtime::service::held_locks::SharedLockState> {
    match h {
        HeldLocks::Exclusive(x, s, _) => if x@ == t { Some(s) } else { None },
        HeldLocks::Shared(v) => if shared_keys(v@).contains(t) {
            Some(v@[shared_keys(v@).index_of(t)].1)
        } else {
            None
        },
        HeldLocks::Free => None,
    }
}

/// In a sorted list of identities, each occurs at its own position only.
proof fn lemma_sorted_index(ks: Seq<TxKey>, p: int)
    requires
        tx_sorted(ks),
        0 <= p < ks.len(),
    ensures
        ks.contains(ks[p]),
        ks.index_of(ks[p]) == p,
{
    assert(ks[p] == ks[p]);
    let i = ks.index_of(ks[p]);
    crate::new_runtime::message::law_tx_lt_irreflexive(ks[p]);
    if i < p {
        assert(tx_lt(ks[i], ks[p]));
    } else if i > p {
        assert(tx_lt(ks[p], ks[i]));
    }
}

/// Whether `txid` holds a lock among those held.
pub open spec fn holds(h: HeldV, t: TxKey) -> bool {
    match h {
        HeldV::Free => false,
        HeldV::Shared(s) => s.contains(t),
        HeldV::Exclusive(x) => x == t,
    }
}

/// The locks held once `t` gives up its lock.
pub open spec fn release(h: HeldV, t: TxKey) -> HeldV {
    match h {
        HeldV::Shared(s) => if s.remove(t).len() == 0 {
            HeldV::Free
        } else {
            HeldV::Shared(s.remove(t))
        },
        HeldV::Exclusive(x) => if x == t {
            HeldV::Free
        } else {
            h
        },
        HeldV::Free => HeldV::Free,
    }
}

impl ServiceActor {
    /// Queues a lock request of `txid` and grants what can be granted; a
    /// transaction asking twice is a fault.
    pub(crate) fn handle_lock(&mut self, txid: TxId, kind: LockKind, out: &mut Vec<Envelope>) -> (r: Result<(), Fault>)
        requires
            old(self).locks_wf(),
        ensures
            final(self).id == old(self).id,
            final(self).reactives == old(self).reactives,
            final(self).subscriptions == old(self).subscriptions,
            final(self).imports == old(self).imports,
            final(self).exports == old(self).exports,
            final(self).iterations == old(self).iterations,
            final(self).roots == old(self).roots,
            final(self).topo == old(self).topo,
            r is Err <==> queue_keys(old(self).queue()).contains(txid@),
            r is Err ==> (r matches Err(Fault::LockDoubleRequested) && *final(self) == *old(self) && final(out)@ == old(out)@),
            r is Ok ==> final(self).locks_wf(),
            r is Ok ==> final(out)@.subrange(0, old(out)@.len() as int) == old(out)@,
            r is Ok ==> exists|pos: int| #![trigger old(self).queue().insert(pos, (txid@, kind))] 0 <= pos <= old(self).queue().len() && ({
                let q = old(self).queue().insert(pos, (txid@, kind));
                let g = grant_from(q, 0, old(self).held_locks());
                &&& final(self).queue() == q.subrange(g.0, q.len() as int)
                &&& final(self).held_locks() == g.1
                &&& final(self).preempted() == old(self).preempted() + g.2
                &&& crate::new_runtime::service::grant_messages(old(out)@, final(out)@, q, old(self).held_locks(),
                    old(self).id(), old(self).versions(), old(self).preempted())
            }),
    {
        if queued_contains(&self.queued, &txid) {
            return Err(Fault::LockDoubleRequested);
        }
        proof {
            assert(queue_keys(queue_view(self.queued@)) == queue_view(self.queued@).map_values(|e: (TxKey, LockKind)| e.0));
        }
        let ghost before = *self;
        insert_queued(&mut self.queued, txid, kind);
        let ghost mid = *self;
        proof {
            assert(queue_keys(queue_view(self.queued@)) == queue_view(self.queued@).map_values(|e: (TxKey, LockKind)| e.0));
            assert(self.locks_wf());
        }
        self.grant_locks(out);
        proof {
            let pos = choose|pos: int| 0 <= pos <= before.queue().len() && queue_view(mid.queued@)
                == queue_view(before.queued@).insert(pos, (txid@, kind));
            assert(mid.queue() == before.queue().insert(pos, (txid@, kind)));
            ServiceActor::lemma_versions_same(&mid, &before);
        }
        Ok(())
    }
}

} // verus!

verus! {

/// Removing one lock keeps the shared locks sorted and removes its
/// transaction.
proof fn lemma_remove_shared(v: Seq<(TxId, crate::new_runtime::service::held_locks::SharedLockState)>, p: int)
    requires
        0 <= p < v.len(),
        tx_sorted(shared_keys(v)),
    ensures
        tx_sorted(shared_keys(v.remove(p))),
        shared_keys(v.remove(p)).to_set() == shared_keys(v).to_set().remove(v[p].0@),
{
    let ks = shared_keys(v);
    let nk = shared_keys(v.remove(p));
    assert(nk =~= ks.remove(p));
    assert forall|a: int, b: int| 0 <= a < b < nk.len() implies tx_lt(#[trigger] nk[a], #[trigger] nk[b]) by {
        if a < p && b >= p {
            assert(nk[b] == ks[b + 1]);
        } else if a >= p {
            assert(nk[a] == ks[a + 1]);
            assert(nk[b] == ks[b + 1]);
        }
    }
    assert(nk.to_set() =~= ks.to_set().remove(v[p].0@)) by {
        assert forall|x: TxKey| nk.to_set().contains(x) <==> ks.to_set().remove(v[p].0@).contains(x) by {
            if nk.contains(x) {
                let j = choose|j: int| 0 <= j < nk.len() && nk[j] == x;
                if j < p {
                    assert(ks[j] == x);
                    assert(tx_lt(ks[j], ks[p]));
                    crate::new_runtime::message::law_tx_lt_irreflexive(x);
                } else {
                    assert(ks[j + 1] == x);
                    assert(tx_lt(ks[p], ks[j + 1]));
                    crate::new_runtime::message::law_tx_lt_irreflexive(x);
                }
            }
            if ks.contains(x) && x != v[p].0@ {
                let j = choose|j: int| 0 <= j < ks.len() && ks[j] == x;
                if j < p {
                    assert(nk[j] == x);
                } else {
                    assert(j != p);
                    assert(nk[j - 1] == x);
                }
            }
        }
    }
}

impl ServiceActor {
    /// Takes away the lock of `txid`, if it holds one; the shared state of
    /// the lock, and its exclusive state when it was exclusive, come back.
    fn take_lock(&mut self, txid: &TxId) -> (r: Option<(crate::new_runtime::service::held_locks::SharedLockState, crate::new_runtime::service::held_locks::ExclusiveLockState)>)
        requires
            old(self).locks_wf(),
        ensures
            final(self).id == old(self).id,
            final(self).queued == old(self).queued,
            final(self).preempted == old(self).preempted,
            final(self).reactives == old(self).reactives,
            final(self).subscriptions == old(self).subscriptions,
            final(self).imports == old(self).imports,
            final(self).exports == old(self).exports,
            final(self).iterations == old(self).iterations,
            final(self).roots == old(self).roots,
            final(self).topo == old(self).topo,
            final(self).locks_wf(),
            r is Some <==> holds(old(self).held_locks(), txid@),
            r is Some ==> final(self).held_locks() == release(old(self).held_locks(), txid@),
            r is None ==> final(self).held == old(self).held,
            r matches Some((s, e)) ==> match old(self).held {
                HeldLocks::Exclusive(_, s0, e0) => s == s0 && e == e0,
                HeldLocks::Shared(v) => exists|p: int| 0 <= p < v@.len() && v@[p].0@ == txid@ && v@[p].1 == s
                    && e.writes.map().dom().len() == 0 && e.reactives.map().dom().len() == 0
                    && e.imports.map().dom().len() == 0 && e.exports.map().dom().len() == 0
                    && e.prepared_iterations.map().dom().len() == 0
                    && crate::new_runtime::service::commit::nothing_to_apply(e)
                    && (if v@.len() == 1 { final(self).held is Free } else { final(self).held matches HeldLocks::Shared(w)
                        && w@ == v@.remove(p) }),
                HeldLocks::Free => false,
            },
    {
        let mut held = HeldLocks::Free;
        std::mem::swap(&mut held, &mut self.held);
        match held {
            HeldLocks::Free => None,
            HeldLocks::Exclusive(t, s, e) => {
                if t.same(txid) {
                    Some((s, e))
                } else {
                    self.held = HeldLocks::Exclusive(t, s, e);
                    None
                }
            },
            HeldLocks::Shared(mut v) => {
                let ghost v0 = v@;
                match shared_position(&v, txid) {
                    None => {
                        proof {
                            assert(!shared_keys(v0).to_set().contains(txid@));
                        }
                        self.held = HeldLocks::Shared(v);
                        None
                    },
                    Some(p) => {
                        let (_, st) = v.remove(p);
                        proof {
                            lemma_remove_shared(v0, p as int);
                            assert(v@ == v0.remove(p as int));
                            assert(shared_keys(v0)[p as int] == txid@);
                        }
                        if v.len() > 0 {
                            self.held = HeldLocks::Shared(v);
                        } else {
                            proof {
                                assert(shared_keys(v@) =~= Seq::<TxKey>::empty());
                                assert(shared_keys(v@).to_set() =~= Set::<TxKey>::empty());
                            }
                        }
                        let e = crate::new_runtime::service::held_locks::ExclusiveLockState::new();
                        proof {
                            if v@.len() > 0 {
                                assert(shared_keys(v@).len() > 0);
                                assert(shared_keys(v@).to_set().contains(shared_keys(v@)[0]));
                            }
                        }
                        Some((st, e))
                    },
                }
            },
        }
    }

    /// Gives up the lock of `txid` without effect and grants what can be
    /// granted; a transaction that holds no lock is a fault.
    pub(crate) fn handle_abort(&mut self, txid: &TxId, out: &mut Vec<Envelope>) -> (r: Result<(), Fault>)
        requires
            old(self).locks_wf(),
        ensures
            final(self).id == old(self).id,
            final(self).reactives == old(self).reactives,
            final(self).subscriptions == old(self).subscriptions,
            final(self).imports == old(self).imports,
            final(self).exports == old(self).exports,
            final(self).iterations == old(self).iterations,
            final(self).roots == old(self).roots,
            final(self).topo == old(self).topo,
            final(self).locks_wf(),
            r is Err <==> !holds(old(self).held_locks(), txid@),
            r is Err ==> (r matches Err(Fault::UnheldLock)),
            r is Ok ==> final(out)@.subrange(0, old(out)@.len() as int) == old(out)@,
            r is Ok ==> ({
                let g = grant_from(old(self).queue(), 0, release(old(self).held_locks(), txid@));
                &&& final(self).queue() == old(self).queue().subrange(g.0, old(self).queue().len() as int)
                &&& final(self).held_locks() == g.1
                &&& final(self).preempted() == old(self).preempted() + g.2
                &&& crate::new_runtime::service::grant_messages(old(out)@, final(out)@, old(self).queue(),
                    release(old(self).held_locks(), txid@), old(self).id(), old(self).versions(), old(self).preempted())
            }),
    {
        let ghost before = *self;
        match self.take_lock(txid) {
            None => Err(Fault::UnheldLock),
            Some(_) => {
                let ghost mid = *self;
                self.grant_locks(out);
                proof {
                    ServiceActor::lemma_versions_same(&mid, &before);
                }
                Ok(())
            },
        }
    }

    /// Commits the transaction `txid` with `basis`, releasing its lock
    /// first; a transaction that holds no lock is a fault. The locks still
    /// queued are not granted until the next request or release.
    pub(crate) fn handle_commit(&mut self, txid: &TxId, basis: crate::new_runtime::message::BasisStamp, out: &mut Vec<Envelope>) -> (r: Result<(), Fault>)
        requires
            old(self).locks_wf(),
            graph_wf(old(self)),
        ensures
            final(self).id == old(self).id,
            final(self).queued == old(self).queued,
            final(self).preempted == old(self).preempted,
            r is Err && !holds(old(self).held_locks(), txid@) ==> (r matches Err(Fault::UnheldLock)),
            !holds(old(self).held_locks(), txid@) ==> r is Err,
            r is Ok ==> final(self).locks_wf() && graph_wf(final(self)),
            r is Ok ==> final(self).held_locks() == release(old(self).held_locks(), txid@),
            r is Ok ==> final(out)@.subrange(0, old(out)@.len() as int) == old(out)@,
            r is Ok ==> forall|j: int| old(out)@.len() <= j < final(out)@.len() ==> crate::new_runtime::service::is_propagation(
                #[trigger] final(out)@[j], old(self).id) || crate::new_runtime::service::is_answer(final(out)@[j], old(self).id),
            r is Ok ==> match old(self).held {
                HeldLocks::Exclusive(t, _, e) => t@ == txid@ ==> (forall|k: Seq<char>|
                    #[trigger] e.writes.map().contains_key(k) && !e.reactives.map().contains_key(k)
                    ==> final(self).reactives.map().contains_key(k)
                    && (final(self).reactives.map()[k].current() matches Some(sv) && sv.value@ == e.writes.map()[k]@
                    && crate::new_runtime::message::latest_of(sv.basis@, (old(self).id, k)) >= e.prepared_iterations.map()[k].0)
                    && e.prepared_iterations.map().contains_key(k))
                    && (forall|m: Seq<char>| #[trigger] e.exports.map().contains_key(m) && e.exports.map()[m]@.len() > 0
                        ==> final(self).exports.map()[m].importers@ == e.exports.map()[m]@)
                    && (forall|k: Seq<char>| #[trigger] e.reactives.map().contains_key(k)
                        ==> (final(self).reactives.map().contains_key(k) <==> e.reactives.map()[k] is Some))
                    && (forall|k: Seq<char>| !e.reactives.map().contains_key(k)
                        ==> (#[trigger] final(self).reactives.map().contains_key(k) <==> old(self).reactives.map().contains_key(k))),
                _ => true,
            },
            old(self).commit_ready(txid@) && release(old(self).held_locks(), txid@) == HeldV::Free ==> r is Ok,
            r is Ok && crate::new_runtime::service::values_current(old(self).reactives.map())
                ==> crate::new_runtime::service::values_current(final(self).reactives.map()),
            old(self).commit_sound(txid@) && release(old(self).held_locks(), txid@) == HeldV::Free && r is Err
                ==> (r matches Err(Fault::Stuck) || r matches Err(Fault::Evaluation(_))),
            r is Ok && (old(self).held matches HeldLocks::Exclusive(_, _, e) ==> crate::new_runtime::service::commit::configures_nothing(e))
                ==> crate::new_runtime::service::changes_sent(old(self).reactives.map(), final(self).reactives.map(), old(self).exports.map(), final(out)@,
                old(out)@.len() as int, old(self).id, old(self).pending_written()),
            r is Ok && (old(self).held matches HeldLocks::Exclusive(_, _, e) ==> crate::new_runtime::service::commit::configures_nothing(e)) ==> forall|n: Seq<char>|
                #[trigger] old(self).pending_written().contains(n) && old(self).topo_names().contains(n)
                && old(self).exports.map().contains_key(n) ==> final(self).value_sent(*old(self), final(out)@, old(out)@.len() as int, n),
            (old(self).held matches HeldLocks::Exclusive(_, _, e) ==> crate::new_runtime::service::commit::configures_nothing(e)) && (r matches Err(Fault::Stuck)
                || r matches Err(Fault::Evaluation(_))) ==> final(self).some_evaluation_fails(),
            crate::new_runtime::service::subs_exact(old(self)) && r is Ok ==> crate::new_runtime::service::subs_exact(final(self)),
            old(self).shared_commit_sound(txid@) ==> (r is Ok <==> final(self).others_answerable(*old(self), txid@)),
            crate::new_runtime::service::subs_exact(old(self)) && old(self).configuring_commit_sound(txid@) && r is Err ==> (r matches Err(Fault::Stuck)
                && old(self).configures_at_last_version()) || ((r matches Err(Fault::Stuck) || r matches Err(Fault::Evaluation(_))
                || r matches Err(Fault::MissingInput)) && final(self).some_computation_fails()),
    {
        match self.take_lock(txid) {
            None => Err(Fault::UnheldLock),
            Some((s, e)) => {
                proof {
                    assert(graph_wf(self));
                    if old(self).commit_ready(txid@) && release(old(self).held_locks(), txid@) == HeldV::Free {
                        assert(self.held == HeldLocks::Free);
                        match old(self).held {
                            HeldLocks::Shared(v) => {
                                let p = choose|p: int| 0 <= p < v@.len() && v@[p].0@ == txid@ && v@[p].1 == s
                                    && e.writes.map().dom().len() == 0 && e.reactives.map().dom().len() == 0
                                    && e.imports.map().dom().len() == 0 && e.exports.map().dom().len() == 0
                                    && e.prepared_iterations.map().dom().len() == 0
                                    && crate::new_runtime::service::commit::nothing_to_apply(e);
                                assert(shared_keys(v@)[p] == txid@);
                                lemma_sorted_index(shared_keys(v@), p);
                                assert(old(self).lock_state(txid@) == Some(s));
                            },
                            _ => {},
                        }
                    }
                }
                proof {
                    assert(crate::new_runtime::service::same_shape(old(self).reactives.map(), self.reactives.map()));
                    if crate::new_runtime::service::subs_exact(old(self)) {
                        crate::new_runtime::service::lemma_subs_exact_transfer(old(self), self);
                    }
                    if crate::new_runtime::service::propagation_sound(old(self)) {
                        crate::new_runtime::service::lemma_sound_transfer(old(self), self);
                    }
                    match old(self).held {
                        HeldLocks::Shared(v) => {
                            let p = choose|p: int| 0 <= p < v@.len() && v@[p].0@ == txid@ && v@[p].1 == s
                                && e.writes.map().dom().len() == 0 && e.reactives.map().dom().len() == 0
                                && e.imports.map().dom().len() == 0 && e.exports.map().dom().len() == 0
                                && e.prepared_iterations.map().dom().len() == 0
                                && crate::new_runtime::service::commit::nothing_to_apply(e)
                                && (if v@.len() == 1 { self.held is Free } else { self.held matches HeldLocks::Shared(w)
                                    && w@ == v@.remove(p) });
                            assert(shared_keys(v@)[p] == txid@);
                            lemma_sorted_index(shared_keys(v@), p);
                            assert(old(self).lock_state(txid@) == Some(s));
                            assert forall|j: int| 0 <= j < v@.len() && j != p implies (#[trigger] v@[j]).0@ != txid@ by {
                                crate::new_runtime::message::law_tx_lt_irreflexive(txid@);
                                if j < p {
                                    assert(tx_lt(shared_keys(v@)[j], shared_keys(v@)[p]));
                                } else {
                                    assert(tx_lt(shared_keys(v@)[p], shared_keys(v@)[j]));
                                }
                            }
                            e.writes.lemma_len();
                            if e.writes.keys().len() > 0 {
                                assert(e.writes.map().dom().contains(e.writes.keys()[0]));
                            }
                            assert(old(self).pending_written() =~= e.writes.map().dom());
                        },
                        _ => {},
                    }
                }
                let ghost h_call = self.held;
                let ghost s_call = s;
                let ghost e_call = e;
                let res = self.commit(basis, s, e, out);
                proof {
                    if old(self).shared_commit_sound(txid@) {
                        match old(self).held {
                            HeldLocks::Shared(v) => {
                                let p = choose|p: int| 0 <= p < v@.len() && v@[p].0@ == txid@ && v@[p].1 == s_call
                                    && e_call.writes.map().dom().len() == 0 && e_call.reactives.map().dom().len() == 0
                                    && e_call.imports.map().dom().len() == 0 && e_call.exports.map().dom().len() == 0
                                    && e_call.prepared_iterations.map().dom().len() == 0
                                    && crate::new_runtime::service::commit::nothing_to_apply(e_call)
                                    && (if v@.len() == 1 { h_call is Free } else { h_call matches HeldLocks::Shared(w)
                                        && w@ == v@.remove(p) });
                                assert(shared_keys(v@)[p] == txid@);
                                lemma_sorted_index(shared_keys(v@), p);
                                assert(old(self).lock_state(txid@) == Some(s_call));
                                assert(res is Ok <==> crate::new_runtime::service::held_answers(h_call, self.reactives.map(), old(self).roots.map()).0);
                                assert forall|j: int| 0 <= j < v@.len() && j != p implies (#[trigger] v@[j]).0@ != txid@ by {
                                    crate::new_runtime::message::law_tx_lt_irreflexive(txid@);
                                    if j < p {
                                        assert(tx_lt(shared_keys(v@)[j], shared_keys(v@)[p]));
                                    } else {
                                        assert(tx_lt(shared_keys(v@)[p], shared_keys(v@)[j]));
                                    }
                                }
                                let rs = self.reactives.map();
                                let ro = old(self).roots.map();
                                if v@.len() == 1 {
                                    assert forall|j: int| 0 <= j < v@.len() && (#[trigger] v@[j]).0@ != txid@ implies
                                        crate::new_runtime::service::reads_resolvable(v@[j].1.reads.keys(), v@[j].1.reads.values(), rs, ro) by {
                                        assert(j == p);
                                    }
                                } else {
                                    let w = h_call->Shared_0;
                                    assert(w@ == v@.remove(p));
                                    if crate::new_runtime::service::held_answers(h_call, rs, ro).0 {
                                        assert forall|j: int| 0 <= j < v@.len() && (#[trigger] v@[j]).0@ != txid@ implies
                                            crate::new_runtime::service::reads_resolvable(v@[j].1.reads.keys(), v@[j].1.reads.values(), rs, ro) by {
                                            if j < p {
                                                assert(w@[j] == v@[j]);
                                            } else {
                                                assert(j != p);
                                                assert(w@[j - 1] == v@[j]);
                                            }
                                        }
                                    }
                                    if self.others_answerable(*old(self), txid@) {
                                        assert forall|j: int| 0 <= j < w@.len() implies crate::new_runtime::service::reads_resolvable(
                                            (#[trigger] w@[j]).1.reads.keys(), w@[j].1.reads.values(), rs, ro) by {
                                            if j < p {
                                                assert(w@[j] == v@[j]);
                                                assert(v@[j].0@ != txid@);
                                            } else {
                                                assert(w@[j] == v@[j + 1]);
                                                assert(v@[j + 1].0@ != txid@);
                                            }
                                        }
                                    }
                                }
                            },
                            _ => {},
                        }
                    }
                }
                match res {
                    Ok(_) => Ok(()),
                    Err(f) => Err(f),
                }
            },
        }
    }
}

} // verus!

verus! {

/// The map `m` with the pairs of `v` inserted in order.
pub open spec fn inserted_all<K: crate::table::Key, V>(m: Map<K::V, V>, v: Seq<(K, V)>) -> Map<K::V, V>
    decreases v.len(),
{
    if v.len() == 0 {
        m
    } else {
        inserted_all(m, v.drop_last()).insert(v.last().0@, v.last().1)
    }
}

/// Inserts the pairs of `v` in order.
fn insert_all<K: crate::table::Key, V>(t: &mut crate::table::Table<K, V>, v: Vec<(K, V)>)
    ensures
        final(t).map() == inserted_all(old(t).map(), v@),
{
    let ghost v0 = v@;
    let ghost m0 = t.map();
    let mut v = v;
    proof {
        assert(v0.subrange(0, 0) =~= Seq::<(K, V)>::empty());
        assert(v0.subrange(0, 0) + v@ =~= v0);
    }
    while v.len() > 0
        invariant
            v@.len() <= v0.len(),
            v0 == v0.subrange(0, v0.len() - v@.len()) + v@,
            t.map() == inserted_all(m0, v0.subrange(0, v0.len() - v@.len())),
        decreases v@.len(),
    {
        let ghost k = v0.len() - v@.len();
        let ghost before = v@;
        let x = v.remove(0);
        proof {
            assert(v0[k] == before[0]) by {
                assert((v0.subrange(0, k) + before)[k] == before[0]);
            }
            assert(v0.subrange(0, k + 1).drop_last() =~= v0.subrange(0, k));
            assert(v0.subrange(0, k + 1).last() == v0[k]);
            assert(v0 =~= v0.subrange(0, k + 1) + v@) by {
                assert(v@ =~= before.subrange(1, before.len() as int));
                assert forall|i: int| 0 <= i < v0.len() implies v0[i] == (v0.subrange(0, k + 1) + v@)[i] by {
                    if i > k {
                        assert(v0[i] == (v0.subrange(0, k) + before)[i]);
                    }
                }
            }
        }
        let _ = t.insert(x.0, x.1);
    }
    proof {
        assert(v0.subrange(0, v0.len() as int) =~= v0);
    }
}

} // verus!

verus! {

/// Whether `t` holds the exclusive lock.
pub open spec fn holds_exclusive(h: HeldV, t: TxKey) -> bool {
    h == HeldV::Exclusive(t)
}

impl ServiceActor {
    /// Records a write of `value` to `reactive` under the exclusive lock of
    /// `txid`; a fault without that lock, or for an unknown reactive.
    pub(crate) fn handle_write(&mut self, txid: &TxId, reactive: crate::new_runtime::service::ReactiveName, value: crate::ast::Expr) -> (r: Result<(), Fault>)
        requires
            old(self).locks_wf(),
        ensures
            final(self).id == old(self).id,
            final(self).queued == old(self).queued,
            final(self).preempted == old(self).preempted,
            final(self).reactives == old(self).reactives,
            final(self).subscriptions == old(self).subscriptions,
            final(self).imports == old(self).imports,
            final(self).exports == old(self).exports,
            final(self).iterations == old(self).iterations,
            final(self).roots == old(self).roots,
            final(self).topo == old(self).topo,
            final(self).locks_wf(),
            final(self).held_locks() == old(self).held_locks(),
            !holds_exclusive(old(self).held_locks(), txid@) ==> (r matches Err(Fault::NotExclusive)),
            holds_exclusive(old(self).held_locks(), txid@) && !old(self).reactives.map().contains_key(reactive@) ==> (r matches Err(Fault::Unknown)),
            holds_exclusive(old(self).held_locks(), txid@) && old(self).reactives.map().contains_key(reactive@) ==> r is Ok,
            r is Ok ==> (old(self).held matches HeldLocks::Exclusive(_, s0, e0) && final(self).held matches HeldLocks::Exclusive(_, s1, e1)
                && s1 == s0 && e1.writes.map() == e0.writes.map().insert(reactive@, value) && e1.imports == e0.imports
                && e1.reactives == e0.reactives && e1.exports == e0.exports && e1.prepared_iterations == e0.prepared_iterations),
    {
        let mut held = HeldLocks::Free;
        std::mem::swap(&mut held, &mut self.held);
        match held {
            HeldLocks::Exclusive(t, s, mut e) => {
                if !t.same(txid) {
                    self.held = HeldLocks::Exclusive(t, s, e);
                    return Err(Fault::NotExclusive);
                }
                if !self.reactives.contains_key(&reactive) {
                    self.held = HeldLocks::Exclusive(t, s, e);
                    return Err(Fault::Unknown);
                }
                let _ = e.writes.insert(reactive, value);
                self.held = HeldLocks::Exclusive(t, s, e);
                Ok(())
            },
            other => {
                self.held = other;
                Err(Fault::NotExclusive)
            },
        }
    }

    /// Records configuration changes under the exclusive lock of `txid`;
    /// a fault without that lock.
    pub(crate) fn handle_configure(
        &mut self,
        txid: &TxId,
        imports: Vec<(crate::new_runtime::service::ReactiveRef, Option<crate::new_runtime::message::ImportConfiguration>)>,
        reactives: Vec<(crate::new_runtime::service::ReactiveName, Option<crate::new_runtime::message::ReactiveConfiguration>)>,
        exports: Vec<(crate::new_runtime::service::ReactiveName, Vec<u64>)>,
    ) -> (r: Result<(), Fault>)
        requires
            old(self).locks_wf(),
        ensures
            final(self).id == old(self).id,
            final(self).queued == old(self).queued,
            final(self).preempted == old(self).preempted,
            final(self).reactives == old(self).reactives,
            final(self).subscriptions == old(self).subscriptions,
            final(self).imports == old(self).imports,
            final(self).exports == old(self).exports,
            final(self).iterations == old(self).iterations,
            final(self).roots == old(self).roots,
            final(self).topo == old(self).topo,
            final(self).locks_wf(),
            final(self).held_locks() == old(self).held_locks(),
            r is Err <==> !holds_exclusive(old(self).held_locks(), txid@),
            r is Err ==> (r matches Err(Fault::NotExclusive)),
            r is Ok ==> (old(self).held matches HeldLocks::Exclusive(_, s0, e0) && final(self).held matches HeldLocks::Exclusive(_, s1, e1)
                && s1 == s0 && e1.writes == e0.writes && e1.prepared_iterations == e0.prepared_iterations
                && e1.imports.map() == inserted_all(e0.imports.map(), imports@)
                && e1.reactives.map() == inserted_all(e0.reactives.map(), reactives@)
                && e1.exports.map() == inserted_all(e0.exports.map(), exports@)),
    {
        let mut held = HeldLocks::Free;
        std::mem::swap(&mut held, &mut self.held);
        match held {
            HeldLocks::Exclusive(t, s, mut e) => {
                if !t.same(txid) {
                    self.held = HeldLocks::Exclusive(t, s, e);
                    return Err(Fault::NotExclusive);
                }
                insert_all(&mut e.imports, imports);
                insert_all(&mut e.reactives, reactives);
                insert_all(&mut e.exports, exports);
                self.held = HeldLocks::Exclusive(t, s, e);
                Ok(())
            },
            other => {
                self.held = other;
                Err(Fault::NotExclusive)
            },
        }
    }
}

} // verus!

verus! {

/// The read of `name` as `reads` records it, or a fresh one.
pub open spec fn read_or_fresh(reads: Map<Seq<char>, crate::new_runtime::service::held_locks::Read>, name: Seq<char>) -> (Map<crate::new_runtime::message::RefKey, u64>, Map<crate::new_runtime::message::RefKey, u64>) {
    if reads.contains_key(name) {
        (reads[name].pending@, reads[name].complete@)
    } else {
        (Map::empty(), Map::empty())
    }
}

/// Starts or repeats a read of `reactive` for `txid` in `state`: the value
/// is returned at once when its basis is not behind `basis` on the
/// reactive's roots, and the read waits with `basis` otherwise.
fn read_into(
    state: &mut crate::new_runtime::service::held_locks::SharedLockState,
    txid: &TxId,
    reactive: crate::new_runtime::service::ReactiveName,
    basis: crate::new_runtime::message::BasisStamp,
    reactives: &crate::table::Table<crate::new_runtime::service::ReactiveName, crate::new_runtime::service::reactive::Reactive>,
    roots: &crate::table::Table<crate::new_runtime::service::ReactiveName, Vec<crate::new_runtime::service::ReactiveRef>>,
    id: u64,
    out: &mut Vec<Envelope>,
) -> (r: Result<(), Fault>)
    ensures
        !reactives.map().contains_key(reactive@) ==> (r matches Err(Fault::Unknown)),
        reactives.map().contains_key(reactive@) && old(state).reads.map().contains_key(reactive@)
            && crate::new_runtime::service::read_due(old(state).reads.map()[reactive@]) ==> (r matches Err(Fault::ReadPending)),
        r is Ok ==> reactives.map().contains_key(reactive@) && !(old(state).reads.map().contains_key(reactive@)
            && crate::new_runtime::service::read_due(old(state).reads.map()[reactive@])),
        reactives.map().contains_key(reactive@) && !(old(state).reads.map().contains_key(reactive@)
            && crate::new_runtime::service::read_due(old(state).reads.map()[reactive@]))
            && (reactives.map()[reactive@].current() is Some ==> roots.map().contains_key(reactive@)) ==> r is Ok,
        r is Ok ==> final(state).reads.map().dom() == old(state).reads.map().dom().insert(reactive@),
        r is Ok ==> forall|k: Seq<char>| k != reactive@ && #[trigger] old(state).reads.map().contains_key(k)
            ==> final(state).reads.map()[k] == old(state).reads.map()[k],
        r is Ok ==> ({
            let prev = read_or_fresh(old(state).reads.map(), reactive@);
            let now = final(state).reads.map()[reactive@];
            match reactives.map()[reactive@].current() {
                Some(v) => roots.map().contains_key(reactive@) && if crate::new_runtime::message::stamp_prec_eq(
                    basis@, v.basis@, crate::new_runtime::evaluator::refs_view(roots.map()[reactive@]@).to_set()) {
                    &&& now.pending@ == prev.0
                    &&& now.complete@ == crate::new_runtime::message::stamp_join(prev.1, v.basis@)
                    &&& final(out)@ == old(out)@.push(final(out)@.last())
                    &&& crate::new_runtime::service::is_answer(final(out)@.last(), id)
                    &&& crate::new_runtime::service::answer_view(final(out)@.last()) == (txid@, reactive@, v.value@)
                } else {
                    &&& now.pending@ == basis@
                    &&& now.complete@ == prev.1
                    &&& final(out)@ == old(out)@
                },
                None => now.pending@ == basis@ && now.complete@ == prev.1 && final(out)@ == old(out)@,
            }
        }),
{
    let r = match reactives.get(&reactive) {
        Some(x) => x,
        None => {
            return Err(Fault::Unknown);
        },
    };
    let mut rd = match state.reads.position(&reactive) {
        Some(p) => {
            proof {
                state.reads.lemma_len();
            }
            let existing = state.reads.value_at(p);
            if existing.complete.is_empty() || !existing.pending.is_empty() {
                return Err(Fault::ReadPending);
            }
            crate::new_runtime::service::held_locks::Read { pending: existing.pending.copy(), complete: existing.complete.copy() }
        },
        None => crate::new_runtime::service::held_locks::Read {
            pending: crate::new_runtime::message::BasisStamp::empty(),
            complete: crate::new_runtime::message::BasisStamp::empty(),
        },
    };
    match r.value() {
        Some(value) => {
            let rts = match roots.get(&reactive) {
                Some(x) => x,
                None => {
                    return Err(Fault::Unknown);
                },
            };
            if basis.prec_eq_wrt_roots(&value.basis, rts) {
                out.push(crate::new_runtime::message::Envelope {
                    to: crate::new_runtime::message::Recipient::Manager(txid.manager.clone()),
                    msg: crate::new_runtime::message::Msg::ReturnedValue {
                        txid: txid.copy(),
                        service: id,
                        reactive: reactive.copy(),
                        value: value.value.copy(),
                    },
                });
                rd.complete.merge_from(&value.basis);
            } else {
                rd.pending = basis;
            }
        },
        None => {
            rd.pending = basis;
        },
    }
    let _ = state.reads.insert(reactive, rd);
    Ok(())
}

impl ServiceActor {
    /// A read of `reactive` by `txid`, which must hold a lock (see
    /// `read_into`).
    pub(crate) fn handle_read(
        &mut self,
        txid: &TxId,
        reactive: crate::new_runtime::service::ReactiveName,
        basis: crate::new_runtime::message::BasisStamp,
        out: &mut Vec<Envelope>,
    ) -> (r: Result<(), Fault>)
        requires
            old(self).locks_wf(),
        ensures
            final(self).id == old(self).id,
            final(self).queued == old(self).queued,
            final(self).preempted == old(self).preempted,
            final(self).reactives == old(self).reactives,
            final(self).subscriptions == old(self).subscriptions,
            final(self).imports == old(self).imports,
            final(self).exports == old(self).exports,
            final(self).iterations == old(self).iterations,
            final(self).roots == old(self).roots,
            final(self).topo == old(self).topo,
            final(self).locks_wf(),
            final(self).held_locks() == old(self).held_locks(),
            !holds(old(self).held_locks(), txid@) ==> (r matches Err(Fault::UnheldLock)),
            holds(old(self).held_locks(), txid@) && !old(self).reactives.map().contains_key(reactive@) ==> (r matches Err(Fault::Unknown)),
            r is Ok ==> final(out)@.len() <= old(out)@.len() + 1,
            r is Ok ==> final(out)@.subrange(0, old(out)@.len() as int) == old(out)@,
            r is Ok ==> final(out)@ == old(out)@ || (old(self).reactives.map()[reactive@].current() matches Some(v)
                && final(out)@ == old(out)@.push(final(out)@.last())
                && crate::new_runtime::service::answer_view(final(out)@.last()) == (txid@, reactive@, v.value@)),
            r is Ok && basis@ == Map::<crate::new_runtime::message::RefKey, u64>::empty() ==> (
                old(self).reactives.map()[reactive@].current() matches Some(v) ==> final(out)@ == old(out)@.push(final(out)@.last())
                && crate::new_runtime::service::is_answer(final(out)@.last(), old(self).id)
                && crate::new_runtime::service::answer_view(final(out)@.last()) == (txid@, reactive@, v.value@)),
            holds(old(self).held_locks(), txid@) && old(self).hosts(reactive@) && !old(self).read_unfinished(txid@, reactive@)
                && (old(self).stamped_value(reactive@) is Some ==> old(self).roots_of(reactive@) is Some) ==> r is Ok,
            r is Ok ==> ({
                let prev = old(self).read_stamps(txid@, reactive@);
                let now = final(self).read_stamps(txid@, reactive@);
                match old(self).stamped_value(reactive@) {
                    Some(sv) => if crate::new_runtime::message::stamp_prec_eq(basis@, sv.1, old(self).roots_of(reactive@)->Some_0) {
                        &&& now == (prev.0, crate::new_runtime::message::stamp_join(prev.1, sv.1))
                        &&& final(out)@ == old(out)@.push(final(out)@.last())
                        &&& crate::new_runtime::service::is_answer(final(out)@.last(), old(self).id)
                        &&& crate::new_runtime::service::answer_view(final(out)@.last()) == (txid@, reactive@, sv.0)
                    } else {
                        now == (basis@, prev.1) && final(out)@ == old(out)@
                    },
                    None => now == (basis@, prev.1) && final(out)@ == old(out)@,
                }
            }),
    {
        proof {
            if self.reactives.map().contains_key(reactive@) {
                match self.reactives.map()[reactive@].current() {
                    Some(v) => {
                        if self.roots.map().contains_key(reactive@) {
                            crate::new_runtime::message::law_empty_prec_eq(v.basis@,
                                crate::new_runtime::evaluator::refs_view(self.roots.map()[reactive@]@).to_set());
                        }
                    },
                    None => {},
                }
            }
        }
        let mut held = HeldLocks::Free;
        std::mem::swap(&mut held, &mut self.held);
        match held {
            HeldLocks::Exclusive(t, mut s, e) => {
                if !t.same(txid) {
                    self.held = HeldLocks::Exclusive(t, s, e);
                    return Err(Fault::UnheldLock);
                }
                let ghost s0 = s;
                let res = read_into(&mut s, txid, reactive, basis, &self.reactives, &self.roots, self.id, out);
                self.held = HeldLocks::Exclusive(t, s, e);
                proof {
                    assert(old(self).lock_state(txid@) == Some(s0));
                    assert(self.lock_state(txid@) == Some(s));
                }
                proof {
                    if res is Ok {
                        assert(out@.subrange(0, old(out)@.len() as int) =~= old(out)@);
                    }
                }
                res
            },
            HeldLocks::Shared(mut v) => {
                let ghost v0 = v@;
                match shared_position(&v, txid) {
                    None => {
                        proof {
                            assert(!shared_keys(v0).to_set().contains(txid@));
                        }
                        self.held = HeldLocks::Shared(v);
                        Err(Fault::UnheldLock)
                    },
                    Some(p) => {
                        proof {
                            assert(shared_keys(v0)[p as int] == txid@);
                            assert(shared_keys(v0).to_set().contains(txid@));
                        }
                        proof {
                            lemma_sorted_index(shared_keys(v0), p as int);
                            assert(old(self).lock_state(txid@) == Some(v0[p as int].1));
                        }
                        let (t, mut s) = v.remove(p);
                        let res = read_into(&mut s, txid, reactive, basis, &self.reactives, &self.roots, self.id, out);
                        v.insert(p, (t, s));
                        let ghost s1 = s;
                        proof {
                            assert(shared_keys(v@) =~= shared_keys(v0)) by {
                                assert forall|a: int| 0 <= a < v@.len() implies shared_keys(v@)[a] == shared_keys(v0)[a] by {
                                    if a != p {
                                        assert(v@[a] == v0[a]);
                                    }
                                }
                            }
                            if res is Ok {
                                assert(out@.subrange(0, old(out)@.len() as int) =~= old(out)@);
                            }
                        }
                        self.held = HeldLocks::Shared(v);
                        proof {
                            assert(v@[p as int].1 == s1);
                            assert(shared_keys(v@)[p as int] == txid@);
                            lemma_sorted_index(shared_keys(v@), p as int);
                            assert(self.lock_state(txid@) == Some(s1));
                        }
                        res
                    },
                }
            },
            HeldLocks::Free => {
                self.held = HeldLocks::Free;
                Err(Fault::UnheldLock)
            },
        }
    }
}

} // verus!

verus! {

/// Whether reactive `name` is exported once a transaction holding `e`
/// commits: as the transaction configures it where it does, else as now.
pub open spec fn exported_after(
    e: crate::new_runtime::service::held_locks::ExclusiveLockState,
    exports: Map<Seq<char>, crate::new_runtime::service::Export>,
    name: Seq<char>,
) -> bool {
    if e.exports.map().contains_key(name) {
        e.exports.map()[name]@.len() > 0
    } else {
        exports.contains_key(name)
    }
}

/// The basis a transaction holding `e` commits with: the union `reads` of
/// what its reads returned, with the prepared iteration of each of the
/// service's reactives that will be exported.
pub open spec fn prepared_basis(
    reads: Map<crate::new_runtime::message::RefKey, u64>,
    id: u64,
    e: crate::new_runtime::service::held_locks::ExclusiveLockState,
    exports: Map<Seq<char>, crate::new_runtime::service::Export>,
) -> Map<crate::new_runtime::message::RefKey, u64> {
    Map::new(
        |k: crate::new_runtime::message::RefKey| reads.contains_key(k) || (k.0 == id && e.prepared_iterations.map().contains_key(k.1)
            && exported_after(e, exports, k.1)),
        |k: crate::new_runtime::message::RefKey| if k.0 == id && e.prepared_iterations.map().contains_key(k.1)
            && exported_after(e, exports, k.1) {
            e.prepared_iterations.map()[k.1].0
        } else {
            reads[k]
        },
    )
}

/// The union of the complete stamps of reads.
pub open spec fn reads_join(vals: Seq<crate::new_runtime::service::held_locks::Read>) -> Map<crate::new_runtime::message::RefKey, u64>
    decreases vals.len(),
{
    if vals.len() == 0 {
        Map::empty()
    } else {
        crate::new_runtime::message::stamp_join(reads_join(vals.drop_last()), vals.last().complete@)
    }
}

/// The union of the complete stamps of a lock's reads.
fn join_reads(state: &crate::new_runtime::service::held_locks::SharedLockState) -> (r: crate::new_runtime::message::BasisStamp)
    ensures
        r@ == reads_join(state.reads.values()),
{
    let n = state.reads.len();
    proof {
        state.reads.lemma_len();
        assert(state.reads.values().subrange(0, 0) =~= Seq::<crate::new_runtime::service::held_locks::Read>::empty());
    }
    let mut b = crate::new_runtime::message::BasisStamp::empty();
    let mut i: usize = 0;
    while i < n
        invariant
            i <= n,
            n == state.reads.size(),
            n == state.reads.values().len(),
            b@ == reads_join(state.reads.values().subrange(0, i as int)),
        decreases n - i,
    {
        b.merge_from(&state.reads.value_at(i).complete);
        proof {
            let vs = state.reads.values();
            assert(vs.subrange(0, i + 1).drop_last() =~= vs.subrange(0, i as int));
        }
        i = i + 1;
    }
    proof {
        assert(state.reads.values().subrange(0, n as int) =~= state.reads.values());
    }
    b
}

/// Whether `e` tells the manager of `t` that service `service` is ready to
/// commit.
pub open spec fn is_ready(e: Envelope, t: TxKey, service: u64) -> bool {
    &&& e.msg matches crate::new_runtime::message::Msg::CommitPrepared { service: s, txid, .. } && s == service && txid@ == t
    &&& e.to matches crate::new_runtime::message::Recipient::Manager(m) && m@ == t.2
}

/// Whether `e` tells the manager of `t` that service `service` is ready to
/// commit, with basis `b`.
pub open spec fn is_prepared(e: Envelope, t: TxKey, service: u64, b: Map<crate::new_runtime::message::RefKey, u64>) -> bool {
    &&& e.msg matches crate::new_runtime::message::Msg::CommitPrepared { service: s, txid, basis } && s == service && txid@ == t
        && basis@ == b
    &&& e.to matches crate::new_runtime::message::Recipient::Manager(m) && m@ == t.2
}

/// The iterations prepared for the reactives a transaction changes, walking
/// the first `n` names of the dependency order `topo` from `start`: a
/// written name, and a name with a local input already prepared, takes its
/// iteration plus one.
pub open spec fn prepared_upto(
    topo: Seq<Seq<char>>,
    n: int,
    writes: Map<Seq<char>, crate::ast::Expr>,
    reactives: Map<Seq<char>, crate::new_runtime::service::reactive::Reactive>,
    iterations: Map<Seq<char>, crate::new_runtime::message::Iteration>,
    id: u64,
    start: Map<Seq<char>, crate::new_runtime::message::Iteration>,
) -> Map<Seq<char>, crate::new_runtime::message::Iteration>
    decreases n,
{
    if n <= 0 {
        start
    } else {
        let p = prepared_upto(topo, n - 1, writes, reactives, iterations, id, start);
        let name = topo[n - 1];
        let ins = crate::new_runtime::service::reactive_inputs(reactives[name]);
        if writes.contains_key(name) || exists|j: int| 0 <= j < ins.len() && ins[j].0 == id && p.contains_key(ins[j].1) {
            p.insert(name, crate::new_runtime::message::Iteration((iterations[name].0 + 1) as u64))
        } else {
            p
        }
    }
}

impl ServiceActor {
    /// Prepares the iterations of the reactives a transaction changes: in
    /// dependency order, a written reactive, and a reactive with a local
    /// input already prepared, takes its iteration plus one.
    fn prepare_iterations(&self, e: &mut crate::new_runtime::service::held_locks::ExclusiveLockState) -> (r: Result<(), Fault>)
        ensures
            final(e).writes == old(e).writes,
            final(e).imports == old(e).imports,
            final(e).reactives == old(e).reactives,
            final(e).exports == old(e).exports,
            r is Ok ==> forall|i: int| 0 <= i < self.topo_names().len() && #[trigger] old(e).writes.map().contains_key(self.topo_names()[i])
                ==> self.iterations.map().contains_key(self.topo_names()[i])
                && final(e).prepared_iterations.map().contains_key(self.topo_names()[i])
                && final(e).prepared_iterations.map()[self.topo_names()[i]].0 == self.iterations.map()[self.topo_names()[i]].0 + 1,
            (forall|i: int| 0 <= i < self.topo_names().len() ==> (old(e).writes.map().contains_key(#[trigger] self.topo_names()[i])
                || self.reactives.map().contains_key(self.topo_names()[i])) && self.iterations.map().contains_key(self.topo_names()[i])
                && self.iterations.map()[self.topo_names()[i]].0 < u64::MAX) ==> r is Ok,
            r matches Err(f) ==> f is Unknown || f is Stuck,
            r is Ok ==> final(e).prepared_iterations.map() == prepared_upto(self.topo_names(), self.topo_names().len() as int,
                old(e).writes.map(), self.reactives.map(), self.iterations.map(), self.id, old(e).prepared_iterations.map()),
    {
        let ghost topo = self.topo_names();
        let n = self.topo.len();
        let mut i: usize = 0;
        while i < n
            invariant
                i <= n,
                n == self.topo@.len(),
                topo == self.topo_names(),
                e.writes == old(e).writes,
                e.imports == old(e).imports,
                e.reactives == old(e).reactives,
                e.exports == old(e).exports,
                forall|j: int| 0 <= j < i && #[trigger] old(e).writes.map().contains_key(topo[j]) ==> self.iterations.map().contains_key(topo[j])
                    && e.prepared_iterations.map().contains_key(topo[j])
                    && e.prepared_iterations.map()[topo[j]].0 == self.iterations.map()[topo[j]].0 + 1,
                e.prepared_iterations.map() == prepared_upto(topo, i as int, old(e).writes.map(), self.reactives.map(),
                    self.iterations.map(), self.id, old(e).prepared_iterations.map()),
            decreases n - i,
        {
            let name = &self.topo[i];
            proof {
                assert(name@ == topo[i as int]);
            }
            let bump = if e.writes.contains_key(name) {
                true
            } else {
                let r = match self.reactives.get(name) {
                    Some(x) => x,
                    None => {
                        return Err(Fault::Unknown);
                    },
                };
                let ins = r.inputs();
                let mut found = false;
                let mut k: usize = 0;
                while k < ins.len()
                    invariant
                        k <= ins@.len(),
                        found == exists|j: int| 0 <= j < k && (#[trigger] ins@[j]).service == self.id
                            && e.prepared_iterations.map().contains_key(ins@[j].name@),
                    decreases ins@.len() - k,
                {
                    if ins[k].service == self.id && e.prepared_iterations.contains_key(&ins[k].name) {
                        found = true;
                    }
                    k = k + 1;
                }
                proof {
                    let rin = crate::new_runtime::service::reactive_inputs(*r);
                    assert(rin.len() == ins@.len() && forall|j: int| 0 <= j < ins@.len() ==> #[trigger] rin[j] == ins@[j]@) by {
                        assert forall|j: int| 0 <= j < ins@.len() implies #[trigger] rin[j] == ins@[j]@ by {
                            assert(crate::new_runtime::evaluator::refs_view(ins@)[j] == ins@[j]@);
                        }
                    }
                    assert(found == exists|j: int| 0 <= j < rin.len() && rin[j].0 == self.id
                        && e.prepared_iterations.map().contains_key(rin[j].1)) by {
                        if found {
                            let j = choose|j: int| 0 <= j < k && (#[trigger] ins@[j]).service == self.id
                                && e.prepared_iterations.map().contains_key(ins@[j].name@);
                            assert(rin[j] == ins@[j]@);
                        }
                        if exists|j: int| 0 <= j < rin.len() && rin[j].0 == self.id && e.prepared_iterations.map().contains_key(rin[j].1) {
                            let j = choose|j: int| 0 <= j < rin.len() && rin[j].0 == self.id
                                && e.prepared_iterations.map().contains_key(rin[j].1);
                            assert(rin[j] == ins@[j]@);
                        }
                    }
                }
                found
            };
            if bump {
                let it = match self.iterations.get(name) {
                    Some(x) => *x,
                    None => {
                        return Err(Fault::Unknown);
                    },
                };
                if it.0 == u64::MAX {
                    return Err(Fault::Stuck);
                }
                let ghost before = e.prepared_iterations.map();
                let _ = e.prepared_iterations.insert(name.copy(), it.increment());
                proof {
                    assert forall|j: int| 0 <= j < i + 1 && #[trigger] old(e).writes.map().contains_key(topo[j]) implies
                        self.iterations.map().contains_key(topo[j])
                        && e.prepared_iterations.map().contains_key(topo[j])
                        && e.prepared_iterations.map()[topo[j]].0 == self.iterations.map()[topo[j]].0 + 1 by {
                        if j < i && topo[j] != topo[i as int] {
                            assert(e.prepared_iterations.map()[topo[j]] == before[topo[j]]);
                        }
                    }
                }
            } else {
                proof {
                    assert(!old(e).writes.map().contains_key(topo[i as int]));
                }
            }
            i = i + 1;
        }
        Ok(())
    }

    /// Adds to `basis` the prepared iteration of each reactive that will be
    /// exported once the transaction commits.
    fn add_exported(&self, e: &crate::new_runtime::service::held_locks::ExclusiveLockState, basis: &mut crate::new_runtime::message::BasisStamp)
        ensures
            forall|k: crate::new_runtime::message::RefKey| k.0 != self.id ==> (#[trigger] final(basis)@.contains_key(k)
                <==> old(basis)@.contains_key(k)) && (old(basis)@.contains_key(k) ==> final(basis)@[k] == old(basis)@[k]),
            forall|k: crate::new_runtime::message::RefKey| k.0 == self.id && e.prepared_iterations.map().contains_key(k.1)
                && exported_after(*e, self.exports.map(), k.1) ==> #[trigger] final(basis)@.contains_key(k)
                && final(basis)@[k] == e.prepared_iterations.map()[k.1].0,
            forall|k: crate::new_runtime::message::RefKey| k.0 == self.id && !(e.prepared_iterations.map().contains_key(k.1)
                && exported_after(*e, self.exports.map(), k.1)) ==> (#[trigger] final(basis)@.contains_key(k)
                <==> old(basis)@.contains_key(k)) && (old(basis)@.contains_key(k) ==> final(basis)@[k] == old(basis)@[k]),
    {
        let n = e.prepared_iterations.len();
        let ghost pkeys = e.prepared_iterations.keys();
        let ghost mut done: Set<Seq<char>> = Set::empty();
        let mut i: usize = 0;
        while i < n
            invariant
                i <= n,
                n == e.prepared_iterations.size(),
                forall|k: crate::new_runtime::message::RefKey| k.0 != self.id ==> (#[trigger] basis@.contains_key(k)
                    <==> old(basis)@.contains_key(k)) && (old(basis)@.contains_key(k) ==> basis@[k] == old(basis)@[k]),
                pkeys == e.prepared_iterations.keys(),
                pkeys.no_duplicates(),
                n == pkeys.len(),
                done == pkeys.subrange(0, i as int).to_set(),
                forall|k: crate::new_runtime::message::RefKey| k.0 == self.id && done.contains(k.1)
                    && exported_after(*e, self.exports.map(), k.1) ==> #[trigger] basis@.contains_key(k)
                    && basis@[k] == e.prepared_iterations.map()[k.1].0,
                forall|k: crate::new_runtime::message::RefKey| k.0 == self.id && !(done.contains(k.1)
                    && exported_after(*e, self.exports.map(), k.1)) ==> (#[trigger] basis@.contains_key(k)
                    <==> old(basis)@.contains_key(k)) && (old(basis)@.contains_key(k) ==> basis@[k] == old(basis)@[k]),
            decreases n - i,
        {
            let name = e.prepared_iterations.key_at(i);
            let it = *e.prepared_iterations.value_at(i);
            let exported = match e.exports.get(name) {
                Some(addrs) => addrs.len() > 0,
                None => self.exports.contains_key(name),
            };
            proof {
                assert(exported == exported_after(*e, self.exports.map(), pkeys[i as int]));
                assert(pkeys.subrange(0, i as int + 1).to_set() =~= done.insert(pkeys[i as int])) by {
                    assert(pkeys.subrange(0, i as int + 1) =~= pkeys.subrange(0, i as int).push(pkeys[i as int]));
                    pkeys.subrange(0, i as int).lemma_push_to_set_commute(pkeys[i as int]);
                }
                assert(!done.contains(pkeys[i as int])) by {
                    if done.contains(pkeys[i as int]) {
                        let j = choose|j: int| 0 <= j < i && pkeys.subrange(0, i as int)[j] == pkeys[i as int];
                        assert(pkeys[j] == pkeys[i as int]);
                    }
                }
            }
            if exported {
                basis.insert(crate::new_runtime::service::ReactiveRef { service: self.id, name: name.copy() }, it);
            }
            proof {
                done = done.insert(name@);
            }
            i = i + 1;
        }
        proof {
            assert(pkeys.subrange(0, n as int) =~= pkeys);
        }
    }

    /// Prepares the commit of `txid`, which must hold a lock, and tells its
    /// manager the basis of its effects: the union of what its reads
    /// returned and, for an exclusive lock, the prepared iterations of the
    /// reactives that will be exported.
    pub(crate) fn handle_prepare(&mut self, txid: &TxId, out: &mut Vec<Envelope>) -> (r: Result<(), Fault>)
        requires
            old(self).locks_wf(),
        ensures
            final(self).id == old(self).id,
            final(self).queued == old(self).queued,
            final(self).preempted == old(self).preempted,
            final(self).reactives == old(self).reactives,
            final(self).subscriptions == old(self).subscriptions,
            final(self).imports == old(self).imports,
            final(self).exports == old(self).exports,
            final(self).iterations == old(self).iterations,
            final(self).roots == old(self).roots,
            final(self).topo == old(self).topo,
            final(self).locks_wf(),
            final(self).held_locks() == old(self).held_locks(),
            !holds(old(self).held_locks(), txid@) ==> (r matches Err(Fault::UnheldLock)),
            r is Ok ==> final(out)@.len() == old(out)@.len() + 1,
            r is Ok ==> final(out)@.subrange(0, old(out)@.len() as int) == old(out)@,
            r is Ok ==> is_ready(final(out)@.last(), txid@, old(self).id),
            r is Ok ==> (old(self).held is Shared ==> exists|s: crate::new_runtime::service::held_locks::SharedLockState|
                #[trigger] is_prepared(final(out)@.last(), txid@, old(self).id, reads_join(s.reads.values()))),
            r is Ok ==> is_prepared(final(out)@.last(), txid@, old(self).id, final(self).prepared_commit_basis(txid@)),
            holds(old(self).held_locks(), txid@) && (holds_exclusive(old(self).held_locks(), txid@) ==> old(self).iterations_ready())
                ==> r is Ok,
            r is Ok && holds_exclusive(old(self).held_locks(), txid@) ==> forall|i: int| 0 <= i < old(self).topo_names().len()
                && #[trigger] old(self).pending_writes()->Some_0.contains_key(old(self).topo_names()[i])
                ==> final(self).pending_prepared()->Some_0.contains_key(old(self).topo_names()[i])
                && old(self).iterations_map().contains_key(old(self).topo_names()[i])
                && final(self).pending_prepared()->Some_0[old(self).topo_names()[i]]
                == old(self).iterations_map()[old(self).topo_names()[i]] + 1,
            final(self).pending_writes() == old(self).pending_writes(),
            final(self).pending_configuration() == old(self).pending_configuration(),
            r is Ok && holds_exclusive(old(self).held_locks(), txid@) ==> final(self).pending_prepared()
                == Some(old(self).iterations_to_prepare()),
    {
        let mut held = HeldLocks::Free;
        std::mem::swap(&mut held, &mut self.held);
        match held {
            HeldLocks::Free => {
                self.held = HeldLocks::Free;
                Err(Fault::UnheldLock)
            },
            HeldLocks::Shared(v) => {
                let ghost v0 = v@;
                match shared_position(&v, txid) {
                    None => {
                        proof {
                            assert(!shared_keys(v0).to_set().contains(txid@));
                        }
                        self.held = HeldLocks::Shared(v);
                        Err(Fault::UnheldLock)
                    },
                    Some(p) => {
                        proof {
                            assert(shared_keys(v0)[p as int] == txid@);
                            assert(shared_keys(v0).to_set().contains(txid@));
                        }
                        let basis = join_reads(&v[p].1);
                        let ghost s = v@[p as int].1;
                        proof {
                            lemma_sorted_index(shared_keys(v0), p as int);
                        }
                        self.held = HeldLocks::Shared(v);
                        out.push(Envelope {
                            to: crate::new_runtime::message::Recipient::Manager(txid.manager.clone()),
                            msg: crate::new_runtime::message::Msg::CommitPrepared { service: self.id, txid: txid.copy(), basis },
                        });
                        proof {
                            assert(out@.subrange(0, old(out)@.len() as int) =~= old(out)@);
                            assert(is_prepared(out@.last(), txid@, self.id, reads_join(s.reads.values())));
                        }
                        Ok(())
                    },
                }
            },
            HeldLocks::Exclusive(t, s, mut e) => {
                if !t.same(txid) {
                    self.held = HeldLocks::Exclusive(t, s, e);
                    return Err(Fault::UnheldLock);
                }
                let mut basis = join_reads(&s);
                match self.prepare_iterations(&mut e) {
                    Ok(()) => {},
                    Err(f) => {
                        self.held = HeldLocks::Exclusive(t, s, e);
                        return Err(f);
                    },
                }
                let ghost b0 = basis@;
                self.add_exported(&e, &mut basis);
                proof {
                    assert(basis@ =~= prepared_basis(reads_join(s.reads.values()), self.id, e, self.exports.map()));
                }
                self.held = HeldLocks::Exclusive(t, s, e);
                out.push(Envelope {
                    to: crate::new_runtime::message::Recipient::Manager(txid.manager.clone()),
                    msg: crate::new_runtime::message::Msg::CommitPrepared { service: self.id, txid: txid.copy(), basis },
                });
                proof {
                    assert(out@.subrange(0, old(out)@.len() as int) =~= old(out)@);
                }
                Ok(())
            },
        }
    }
}

} // verus!

verus! {

/// Whether every reactive named in `names` is a definition with input
/// `sender`.
pub open spec fn all_accept(
    reactives: Map<Seq<char>, crate::new_runtime::service::reactive::Reactive>,
    names: Seq<Seq<char>>,
    sender: crate::new_runtime::message::RefKey,
) -> bool {
    forall|j: int| 0 <= j < names.len() ==> reactives.contains_key(#[trigger] names[j])
        && (reactives[names[j]].definition() matches Some(d) && d.inputs().map().contains_key(sender))
}

impl ServiceActor {
    /// Takes a new value of the imported reactive `sender`: queues it as an
    /// update of each local reactive that imports it, then propagates from
    /// those reactives. A value of a reactive the service does not import is
    /// ignored; an importer that is missing, or that does not read `sender`,
    /// is a fault.
    pub(crate) fn handle_propagate(
        &mut self,
        sender: crate::new_runtime::service::ReactiveRef,
        value: crate::new_runtime::message::StampedValue,
        out: &mut Vec<Envelope>,
    ) -> (r: Result<(), Fault>)
        requires
            old(self).locks_wf(),
            crate::new_runtime::service::reactives_wf(old(self).reactives.map(), old(self).id),
        ensures
            final(self).id == old(self).id,
            final(self).queued == old(self).queued,
            final(self).preempted == old(self).preempted,
            final(self).subscriptions == old(self).subscriptions,
            final(self).imports == old(self).imports,
            final(self).exports == old(self).exports,
            final(self).iterations == old(self).iterations,
            final(self).roots == old(self).roots,
            final(self).topo == old(self).topo,
            final(self).reactives.keys() == old(self).reactives.keys(),
            crate::new_runtime::service::reactives_wf(final(self).reactives.map(), final(self).id),
            !old(self).imports.map().contains_key(sender@) ==> r is Ok && *final(self) == *old(self) && final(out)@ == old(out)@,
            old(self).imports.map().contains_key(sender@) && !all_accept(old(self).reactives.map(),
                crate::new_runtime::service::names_of(old(self).imports.map()[sender@].importers@), sender@)
                ==> (r matches Err(Fault::Unknown)),
            r is Ok ==> final(self).locks_wf() && final(self).held.view() == old(self).held.view(),
            r is Ok ==> final(out)@.subrange(0, old(out)@.len() as int) == old(out)@,
            r is Ok ==> forall|j: int| old(out)@.len() <= j < final(out)@.len() ==> crate::new_runtime::service::is_propagation(
                #[trigger] final(out)@[j], old(self).id) || crate::new_runtime::service::is_answer(final(out)@[j], old(self).id),
            crate::new_runtime::service::vars_kept(old(self).reactives.map(), final(self).reactives.map()),
            r is Ok && crate::new_runtime::service::values_current(old(self).reactives.map())
                ==> crate::new_runtime::service::values_current(final(self).reactives.map()),
            r is Ok && sender.service != old(self).id && old(self).imports.map().contains_key(sender@) ==> forall|j: int|
                0 <= j < crate::new_runtime::service::names_of(old(self).imports.map()[sender@].importers@).len()
                ==> final(self).reactives.map().contains_key(#[trigger] crate::new_runtime::service::names_of(
                old(self).imports.map()[sender@].importers@)[j]) && final(self).reactives.map()[crate::new_runtime::service::names_of(
                old(self).imports.map()[sender@].importers@)[j]].input_latest(sender@, value@),
            r is Ok ==> crate::new_runtime::service::changes_sent(old(self).reactives.map(), final(self).reactives.map(), old(self).exports.map(),
                final(out)@, old(out)@.len() as int, old(self).id, Set::empty()),
            crate::new_runtime::service::propagation_sound(old(self)) && (old(self).imports.map().contains_key(sender@) ==> all_accept(
                old(self).reactives.map(), crate::new_runtime::service::names_of(old(self).imports.map()[sender@].importers@), sender@)) && r is Err
                ==> (r matches Err(Fault::Stuck) || r matches Err(Fault::Evaluation(_)) || !crate::new_runtime::service::held_answers(old(self).held,
                final(self).reactives.map(), old(self).roots.map()).0),
            (r matches Err(Fault::Stuck) || r matches Err(Fault::Evaluation(_))) ==> exists|n: Seq<char>|
                #[trigger] final(self).reactives.map().contains_key(n) && final(self).reactives.map()[n].evaluation_fails(),
            crate::new_runtime::service::subs_exact(old(self)) && r is Ok ==> crate::new_runtime::service::subs_exact(final(self)),
    {
        let importers = match self.imports.get(&sender) {
            Some(import) => crate::new_runtime::service::copy_names(&import.importers),
            None => {
                return Ok(());
            },
        };
        let ghost names = crate::new_runtime::service::names_of(importers@);
        let ghost r0 = self.reactives.map();
        let mut i: usize = 0;
        while i < importers.len()
            invariant
                i <= importers@.len(),
                names == crate::new_runtime::service::names_of(importers@),
                names == crate::new_runtime::service::names_of(old(self).imports.map()[sender@].importers@),
                old(self).imports.map().contains_key(sender@),
                r0 == old(self).reactives.map(),
                self.id == old(self).id,
                self.queued == old(self).queued,
                self.held == old(self).held,
                self.preempted == old(self).preempted,
                self.subscriptions == old(self).subscriptions,
                self.imports == old(self).imports,
                self.exports == old(self).exports,
                self.iterations == old(self).iterations,
                self.roots == old(self).roots,
                self.topo == old(self).topo,
                self.reactives.keys() == old(self).reactives.keys(),
                crate::new_runtime::service::reactives_wf(self.reactives.map(), self.id),
                forall|k: Seq<char>| #[trigger] self.reactives.map().contains_key(k) ==> (r0[k].definition() is Some
                    <==> self.reactives.map()[k].definition() is Some),
                forall|k: Seq<char>| #[trigger] self.reactives.map().contains_key(k) && r0[k].definition() is Some
                    ==> self.reactives.map()[k].definition().unwrap().inputs().keys() == r0[k].definition().unwrap().inputs().keys(),
                forall|j: int| 0 <= j < i ==> r0.contains_key(#[trigger] names[j])
                    && (r0[names[j]].definition() matches Some(d) && d.inputs().map().contains_key(sender@)),
                crate::new_runtime::service::vars_kept(r0, self.reactives.map()),
                crate::new_runtime::service::values_current(r0) ==> crate::new_runtime::service::values_current(self.reactives.map()),
                forall|j: int| 0 <= j < i ==> self.reactives.map().contains_key(#[trigger] names[j])
                    && self.reactives.map()[names[j]].input_latest(sender@, value@),
                forall|m: Seq<char>| #![trigger self.reactives.map()[m].current()] self.reactives.map().contains_key(m)
                    ==> self.reactives.map()[m].current() == r0[m].current() && self.reactives.map()[m].changed() == r0[m].changed(),
                crate::new_runtime::service::same_shape(r0, self.reactives.map()),
            decreases importers@.len() - i,
        {
            proof {
                self.reactives.lemma_len();
            }
            let pos = match self.reactives.position(&importers[i]) {
                Some(p) => p,
                None => {
                    proof {
                        assert(names[i as int] == importers@[i as int]@);
                    }
                    return Err(Fault::Unknown);
                },
            };
            let ghost k = self.reactives.keys()[pos as int];
            proof {
                assert(names[i as int] == importers@[i as int]@);
                assert(self.reactives.map().contains_key(k));
            }
            if !self.reactives.value_at(pos).accepts_update(&sender) {
                proof {
                    let d0 = r0[k].definition();
                    if d0 is Some {
                        assert(self.reactives.map()[k].definition().unwrap().inputs().keys() == d0.unwrap().inputs().keys());
                    }
                }
                return Err(Fault::Unknown);
            }
            proof {
                let d0 = r0[k].definition();
                let d1 = self.reactives.map()[k].definition();
                assert(d1 is Some);
                assert(d1.unwrap().inputs().keys() == d0.unwrap().inputs().keys());
            }
            let placeholder = crate::new_runtime::service::reactive::Reactive::new(
                crate::new_runtime::message::ReactiveConfiguration::Variable { value: crate::ast::Expr::Number { val: 0 } },
                self.id,
            );
            let ghost before = self.reactives.map();
            let mut reactive = self.reactives.replace_at(pos, placeholder);
            reactive.add_update(sender.copy(), value.copy());
            proof {
                self.reactives.lemma_len();
            }
            let _ = self.reactives.replace_at(pos, reactive);
            proof {
                assert(self.reactives.map() == before.insert(k, reactive));
                assert forall|m: Seq<char>| #[trigger] self.reactives.map().contains_key(m) implies self.reactives.map()[m].wf()
                    && self.reactives.map()[m].service() == self.id by {
                    if m != k {
                        assert(before.contains_key(m));
                    }
                }
                assert forall|m: Seq<char>| #[trigger] r0.contains_key(m) && r0[m].definition() is None implies
                    self.reactives.map().contains_key(m) && self.reactives.map()[m].definition() is None
                    && self.reactives.map()[m].current() == r0[m].current() by {
                    assert(before.contains_key(m));
                    if m == k {
                        assert(r0[k].definition() is Some);
                    }
                }
                if crate::new_runtime::service::values_current(r0) {
                    assert forall|m: Seq<char>| #[trigger] self.reactives.map().contains_key(m) implies
                        self.reactives.map()[m].up_to_date() by {
                        assert(before.contains_key(m));
                    }
                }
                assert forall|m: Seq<char>| #![trigger self.reactives.map()[m].current()] self.reactives.map().contains_key(m)
                    implies self.reactives.map()[m].current() == r0[m].current() && self.reactives.map()[m].changed() == r0[m].changed() by {
                    assert(before.contains_key(m));
                }
                assert(crate::new_runtime::service::same_shape(r0, self.reactives.map())) by {
                    assert(self.reactives.map().dom() =~= r0.dom());
                    assert forall|m: Seq<char>| #[trigger] r0.contains_key(m) implies crate::new_runtime::service::reactive_inputs(r0[m])
                        == crate::new_runtime::service::reactive_inputs(self.reactives.map()[m]) && (r0[m].definition() is Some
                        <==> self.reactives.map()[m].definition() is Some) by {
                        assert(before.contains_key(m));
                    }
                }
                assert forall|j: int| 0 <= j < i + 1 implies self.reactives.map().contains_key(#[trigger] names[j])
                    && self.reactives.map()[names[j]].input_latest(sender@, value@) by {
                    if j < i {
                        assert(before.contains_key(names[j]));
                        if names[j] != k {
                            assert(self.reactives.map()[names[j]] == before[names[j]]);
                        }
                    } else {
                        assert(names[j] == k);
                    }
                }
            }
            i = i + 1;
        }
        let ghost mid = self.reactives.map();
        let ghost s_mid = *self;
        proof {
            if crate::new_runtime::service::subs_exact(old(self)) {
                crate::new_runtime::service::lemma_subs_exact_transfer(old(self), self);
            }
            if crate::new_runtime::service::propagation_sound(old(self)) {
                crate::new_runtime::service::lemma_sound_transfer(old(self), self);
            }
        }
        let r = self.propagate(&importers, out);
        proof {
            if crate::new_runtime::service::subs_exact(old(self)) && r is Ok {
                crate::new_runtime::service::lemma_subs_exact_transfer(&s_mid, self);
            }
            if r is Ok {
                assert forall|m: Seq<char>| #![trigger self.reactives.map()[m].current()] self.reactives.map().contains_key(m)
                    && r0.contains_key(m) implies self.reactives.map()[m].current() != r0[m].current()
                    == (self.reactives.map()[m].current() != mid[m].current()) && r0[m].changed() == mid[m].changed()
                    && r0[m].current() == mid[m].current() by {
                    assert(mid.contains_key(m));
                }
            }
            if r is Ok && sender.service != old(self).id {
                crate::new_runtime::service::lemma_news_reaches(mid, self.reactives.map(), self.id, names, sender@, value@);
            }
            assert forall|m: Seq<char>| #[trigger] r0.contains_key(m) && r0[m].definition() is None implies
                self.reactives.map().contains_key(m) && self.reactives.map()[m].definition() is None
                && self.reactives.map()[m].current() == r0[m].current() by {
                assert(mid.contains_key(m));
            }
        }
        r
    }
}

} // verus!

verus! {

/// An import as plain values: its roots and its importers.
pub open spec fn import_view(i: crate::new_runtime::service::Import) -> (Seq<crate::new_runtime::message::RefKey>, Seq<Seq<char>>) {
    (crate::new_runtime::evaluator::refs_view(i.roots@), crate::new_runtime::service::names_of(i.importers@))
}

/// An export as plain values: its roots and the services importing it.
pub open spec fn export_view(e: crate::new_runtime::service::Export) -> (Seq<crate::new_runtime::message::RefKey>, Seq<u64>) {
    (crate::new_runtime::evaluator::refs_view(e.roots@), e.importers@)
}

/// The inputs of a reactive: a definition's inputs, none for a variable.
pub open spec fn inputs_view(r: crate::new_runtime::service::reactive::Reactive) -> Seq<crate::new_runtime::message::RefKey> {
    match r.definition() {
        Some(d) => d.inputs().keys(),
        None => Seq::empty(),
    }
}

/// Whether `e` answers the manager of `t` with the configuration of service
/// `s`: its imports, the inputs of its reactives and its exports, each in
/// table order.
pub closed spec fn is_configuration(e: Envelope, t: TxKey, s: ServiceActor) -> bool {
    &&& e.to matches crate::new_runtime::message::Recipient::Manager(m) && m@ == t.2
    &&& e.msg matches crate::new_runtime::message::Msg::ReturnedConfiguration { txid, service, imports, inputs, exports } && {
        &&& txid@ == t
        &&& service == s.id
        &&& imports@.len() == s.imports.keys().len()
        &&& forall|j: int| 0 <= j < imports@.len() ==> (#[trigger] imports@[j]).0@ == s.imports.keys()[j]
            && import_view(imports@[j].1) == import_view(s.imports.values()[j])
        &&& inputs@.len() == s.reactives.keys().len()
        &&& forall|j: int| 0 <= j < inputs@.len() ==> (#[trigger] inputs@[j]).0@ == s.reactives.keys()[j]
            && crate::new_runtime::evaluator::refs_view(inputs@[j].1@) == inputs_view(s.reactives.values()[j])
        &&& exports@.len() == s.exports.keys().len()
        &&& forall|j: int| 0 <= j < exports@.len() ==> (#[trigger] exports@[j]).0@ == s.exports.keys()[j]
            && export_view(exports@[j].1) == export_view(s.exports.values()[j])
    }
}

/// A copy of a list of service identities.
fn copy_ids(v: &Vec<u64>) -> (r: Vec<u64>)
    ensures
        r@ == v@,
{
    let mut r: Vec<u64> = Vec::new();
    let mut i: usize = 0;
    while i < v.len()
        invariant
            i <= v.len(),
            r@ == v@.subrange(0, i as int),
        decreases v.len() - i,
    {
        r.push(v[i]);
        i = i + 1;
    }
    proof {
        assert(v@.subrange(0, v@.len() as int) =~= v@);
    }
    r
}

impl ServiceActor {
    /// The imports, copied in table order.
    fn imports_listed(&self) -> (r: Vec<(crate::new_runtime::service::ReactiveRef, crate::new_runtime::service::Import)>)
        ensures
            r@.len() == self.imports.keys().len(),
            forall|j: int| 0 <= j < r@.len() ==> (#[trigger] r@[j]).0@ == self.imports.keys()[j]
                && import_view(r@[j].1) == import_view(self.imports.values()[j]),
    {
        proof {
            self.imports.lemma_len();
        }
        let n = self.imports.len();
        let mut r: Vec<(crate::new_runtime::service::ReactiveRef, crate::new_runtime::service::Import)> = Vec::new();
        let mut i: usize = 0;
        while i < n
            invariant
                i <= n,
                n == self.imports.size(),
                n == self.imports.keys().len(),
                n == self.imports.values().len(),
                r@.len() == i,
                forall|j: int| 0 <= j < i ==> (#[trigger] r@[j]).0@ == self.imports.keys()[j]
                    && import_view(r@[j].1) == import_view(self.imports.values()[j]),
            decreases n - i,
        {
            let k = self.imports.key_at(i).copy();
            let v = self.imports.value_at(i);
            let c = crate::new_runtime::service::Import {
                roots: crate::new_runtime::service::batch::copy_refs(&v.roots),
                importers: crate::new_runtime::service::copy_names(&v.importers),
            };
            r.push((k, c));
            i = i + 1;
        }
        r
    }

    /// The exports, copied in table order.
    fn exports_listed(&self) -> (r: Vec<(crate::new_runtime::service::ReactiveName, crate::new_runtime::service::Export)>)
        ensures
            r@.len() == self.exports.keys().len(),
            forall|j: int| 0 <= j < r@.len() ==> (#[trigger] r@[j]).0@ == self.exports.keys()[j]
                && export_view(r@[j].1) == export_view(self.exports.values()[j]),
    {
        proof {
            self.exports.lemma_len();
        }
        let n = self.exports.len();
        let mut r: Vec<(crate::new_runtime::service::ReactiveName, crate::new_runtime::service::Export)> = Vec::new();
        let mut i: usize = 0;
        while i < n
            invariant
                i <= n,
                n == self.exports.size(),
                n == self.exports.keys().len(),
                n == self.exports.values().len(),
                r@.len() == i,
                forall|j: int| 0 <= j < i ==> (#[trigger] r@[j]).0@ == self.exports.keys()[j]
                    && export_view(r@[j].1) == export_view(self.exports.values()[j]),
            decreases n - i,
        {
            let k = self.exports.key_at(i).copy();
            let v = self.exports.value_at(i);
            let c = crate::new_runtime::service::Export {
                roots: crate::new_runtime::service::batch::copy_refs(&v.roots),
                importers: copy_ids(&v.importers),
            };
            r.push((k, c));
            i = i + 1;
        }
        r
    }

    /// The inputs of each reactive, in table order.
    fn inputs_listed(&self) -> (r: Vec<(crate::new_runtime::service::ReactiveName, Vec<crate::new_runtime::service::ReactiveRef>)>)
        ensures
            r@.len() == self.reactives.keys().len(),
            forall|j: int| 0 <= j < r@.len() ==> (#[trigger] r@[j]).0@ == self.reactives.keys()[j]
                && crate::new_runtime::evaluator::refs_view(r@[j].1@) == inputs_view(self.reactives.values()[j]),
    {
        proof {
            self.reactives.lemma_len();
        }
        let n = self.reactives.len();
        let mut r: Vec<(crate::new_runtime::service::ReactiveName, Vec<crate::new_runtime::service::ReactiveRef>)> = Vec::new();
        let mut i: usize = 0;
        while i < n
            invariant
                i <= n,
                n == self.reactives.size(),
                n == self.reactives.keys().len(),
                n == self.reactives.values().len(),
                r@.len() == i,
                forall|j: int| 0 <= j < i ==> (#[trigger] r@[j]).0@ == self.reactives.keys()[j]
                    && crate::new_runtime::evaluator::refs_view(r@[j].1@) == inputs_view(self.reactives.values()[j]),
            decreases n - i,
        {
            let k = self.reactives.key_at(i).copy();
            let ins = self.reactives.value_at(i).inputs();
            proof {
                if self.reactives.values()[i as int].definition() is None {
                    assert(crate::new_runtime::evaluator::refs_view(ins@) =~= Seq::<crate::new_runtime::message::RefKey>::empty());
                }
            }
            r.push((k, ins));
            i = i + 1;
        }
        r
    }

    /// Answers the manager of `txid` with the service's configuration; a
    /// fault unless `txid` holds the exclusive lock.
    pub(crate) fn handle_read_config(&self, txid: &TxId, out: &mut Vec<Envelope>) -> (r: Result<(), Fault>)
        requires
            self.locks_wf(),
        ensures
            r is Err <==> !holds_exclusive(self.held_locks(), txid@),
            r is Err ==> (r matches Err(Fault::NotExclusive)) && final(out)@ == old(out)@,
            r is Ok ==> final(out)@ == old(out)@.push(final(out)@.last()) && is_configuration(final(out)@.last(), txid@, *self),
    {
        let exclusive = match &self.held {
            HeldLocks::Exclusive(t, _, _) => t.same(txid),
            _ => false,
        };
        if !exclusive {
            return Err(Fault::NotExclusive);
        }
        let imports = self.imports_listed();
        let inputs = self.inputs_listed();
        let exports = self.exports_listed();
        out.push(Envelope {
            to: crate::new_runtime::message::Recipient::Manager(txid.manager.clone()),
            msg: crate::new_runtime::message::Msg::ReturnedConfiguration { txid: txid.copy(), service: self.id, imports, inputs, exports },
        });
        Ok(())
    }
}

} // verus!

verus! {

impl ServiceActor {
    /// The service is in a state it can handle messages in: its lock queue
    /// and held locks are well formed, its subscription graph is closed and
    /// covers its reactives, its reactives are well formed, and every
    /// definition holds the value of its expression over its inputs' values
    /// (see `Reactive::up_to_date`), and its subscriptions are exactly its
    /// local reads (see `subs_exact`).
    pub closed spec fn wf(&self) -> bool {
        &&& self.locks_wf()
        &&& graph_wf(self)
        &&& crate::new_runtime::service::values_current(self.reactives.map())
        &&& crate::new_runtime::service::subs_exact(self)
    }

    /// A service whose locks and graph are well formed is in a state it can
    /// handle messages in.
    pub(crate) proof fn lemma_wf_intro(s: &ServiceActor)
        requires
            s.locks_wf(),
            graph_wf(s),
            crate::new_runtime::service::values_current(s.reactives.map()),
            crate::new_runtime::service::subs_exact(s),
        ensures
            s.wf(),
    {
    }

    /// The writes recorded under the exclusive lock, while one is held.
    pub closed spec fn pending_writes(&self) -> Option<Map<Seq<char>, crate::ast::Expr>> {
        match self.held {
            HeldLocks::Exclusive(_, _, e) => Some(e.writes.map()),
            _ => None,
        }
    }

    /// The configuration recorded under the exclusive lock, while one is
    /// held: of imports, of reactives and of exports; `None` removes.
    pub closed spec fn pending_configuration(&self) -> Option<(
        Map<crate::new_runtime::message::RefKey, Option<crate::new_runtime::message::ImportConfiguration>>,
        Map<Seq<char>, Option<crate::new_runtime::message::ReactiveConfiguration>>,
        Map<Seq<char>, Vec<u64>>,
    )> {
        match self.held {
            HeldLocks::Exclusive(_, _, e) => Some((e.imports.map(), e.reactives.map(), e.exports.map())),
            _ => None,
        }
    }

    /// The reactives that the exclusive lock's configuration changes, while
    /// one is held.
    pub closed spec fn pending_configured(&self) -> Set<Seq<char>> {
        match self.held {
            HeldLocks::Exclusive(_, _, e) => e.reactives.map().dom(),
            _ => Set::empty(),
        }
    }

    /// The current value of reactive `n`, if it has one.
    pub closed spec fn value_of(&self, n: Seq<char>) -> Option<crate::ast::ExprV> {
        if self.reactives.map().contains_key(n) {
            match self.reactives.map()[n].current() {
                Some(sv) => Some(sv.value@),
                None => None,
            }
        } else {
            None
        }
    }

    /// Whether the service hosts a variable named `n`.
    pub closed spec fn hosts_variable(&self, n: Seq<char>) -> bool {
        self.reactives.map().contains_key(n) && self.reactives.map()[n].definition() is None
    }

    /// Whether the service imports the reactive `r`.
    pub closed spec fn imports_ref(&self, r: crate::new_runtime::message::RefKey) -> bool {
        self.imports.map().contains_key(r)
    }

    /// Whether each reactive outside `skip` that has a new value since
    /// `before`, and that `before` exports, had the new value sent, in `out`
    /// from position `from` on, to every service importing it.
    pub closed spec fn changes_sent_since(&self, before: ServiceActor, out: Seq<Envelope>, from: int, skip: Set<Seq<char>>) -> bool {
        crate::new_runtime::service::changes_sent(before.reactives.map(), self.reactives.map(), before.exports.map(), out, from,
            before.id, skip)
    }

    /// Whether reactive `n` has a value, sent in `out` from position `from`
    /// on to every service that imports it according to `before`.
    pub closed spec fn value_sent(&self, before: ServiceActor, out: Seq<Envelope>, from: int, n: Seq<char>) -> bool {
        self.reactives.map()[n].current() matches Some(sv) && crate::new_runtime::service::sent_to_importers(out, from, before.exports.map(), before.id, n,
            sv.value@)
    }

    /// Whether some hosted definition has values for all its inputs and its
    /// expression does not evaluate to a value over them.
    pub closed spec fn some_evaluation_fails(&self) -> bool {
        exists|n: Seq<char>| #[trigger] self.reactives.map().contains_key(n) && self.reactives.map()[n].evaluation_fails()
    }

    /// Whether the exclusive lock, if one is held, configures nothing.
    pub closed spec fn configures_nothing(&self) -> bool {
        match self.held {
            HeldLocks::Exclusive(_, _, e) => crate::new_runtime::service::commit::configures_nothing(e),
            _ => true,
        }
    }

    /// Whether propagating along the dependency order can fail only in
    /// evaluating a definition: each reactive in the order is hosted, its
    /// subscribers are other hosted definitions that read it, and the roots
    /// of its inputs are known.
    pub closed spec fn propagation_sound(&self) -> bool {
        crate::new_runtime::service::propagation_sound(self)
    }

    /// Whether the reads of the locks held in `before` can be answered from
    /// the reactives as they are now, with the roots of `before`.
    pub closed spec fn reads_answerable(&self, before: ServiceActor) -> bool {
        crate::new_runtime::service::held_answers(before.held, self.reactives.map(), before.roots.map()).0
    }

    /// The local reactives that import `r`, in import order.
    pub closed spec fn importers_of(&self, r: crate::new_runtime::message::RefKey) -> Seq<Seq<char>> {
        crate::new_runtime::service::names_of(self.imports.map()[r].importers@)
    }

    /// Whether the service hosts a definition named `n` whose input `k` has
    /// `v` as its latest news (see `Reactive::input_latest`).
    pub closed spec fn has_news(&self, n: Seq<char>, k: crate::new_runtime::message::RefKey, v: (crate::ast::ExprV,
        Map<crate::new_runtime::message::RefKey, u64>)) -> bool {
        self.reactives.map().contains_key(n) && self.reactives.map()[n].input_latest(k, v)
    }

    /// Whether the service hosts a reactive named `n`.
    pub closed spec fn hosts(&self, n: Seq<char>) -> bool {
        self.reactives.map().contains_key(n)
    }

    /// The state of the lock that `t` holds, if it holds one: its reads.
    pub closed spec fn lock_state(&self, t: TxKey) -> Option<crate::new_runtime::service::held_locks::SharedLockState> {
        lock_state_of(self.held, t)
    }

    /// Whether `t` has a read of `n` that is not finished: one still
    /// waiting, or one that has returned nothing yet.
    pub closed spec fn read_unfinished(&self, t: TxKey, n: Seq<char>) -> bool {
        self.lock_state(t) matches Some(st) && st.reads.map().contains_key(n)
            && crate::new_runtime::service::read_due(st.reads.map()[n])
    }

    /// The pending and complete stamps of the read of `n` by `t`; empty
    /// stamps where it has made none.
    pub closed spec fn read_stamps(&self, t: TxKey, n: Seq<char>) -> (
        Map<crate::new_runtime::message::RefKey, u64>,
        Map<crate::new_runtime::message::RefKey, u64>,
    ) {
        match self.lock_state(t) {
            Some(st) => read_or_fresh(st.reads.map(), n),
            None => (Map::empty(), Map::empty()),
        }
    }

    /// The current value of reactive `n` with its basis, if it has one.
    pub closed spec fn stamped_value(&self, n: Seq<char>) -> Option<(crate::ast::ExprV, Map<crate::new_runtime::message::RefKey, u64>)> {
        if self.reactives.map().contains_key(n) {
            match self.reactives.map()[n].current() {
                Some(sv) => Some((sv.value@, sv.basis@)),
                None => None,
            }
        } else {
            None
        }
    }

    /// The roots recorded for reactive `n`, if any are.
    pub closed spec fn roots_of(&self, n: Seq<char>) -> Option<Set<crate::new_runtime::message::RefKey>> {
        if self.roots.map().contains_key(n) {
            Some(crate::new_runtime::evaluator::refs_view(self.roots.map()[n]@).to_set())
        } else {
            None
        }
    }

    /// The current iteration of each reactive.
    pub closed spec fn iterations_map(&self) -> Map<Seq<char>, u64> {
        self.iterations.map().map_values(|it: crate::new_runtime::message::Iteration| it.0)
    }

    /// Whether each local reactive that imports `sender` is a definition
    /// that reads it.
    pub closed spec fn importers_accept(&self, sender: crate::new_runtime::message::RefKey) -> bool {
        self.imports.map().contains_key(sender) ==> all_accept(self.reactives.map(),
            crate::new_runtime::service::names_of(self.imports.map()[sender].importers@), sender)
    }

    /// The basis with which `t` would commit now: the union of what its
    /// reads returned and, under the exclusive lock, the prepared iterations
    /// of the reactives that will be exported.
    pub closed spec fn prepared_commit_basis(&self, t: TxKey) -> Map<crate::new_runtime::message::RefKey, u64> {
        match self.held {
            HeldLocks::Exclusive(_, s, e) => prepared_basis(reads_join(s.reads.values()), self.id, e, self.exports.map()),
            _ => match self.lock_state(t) {
                Some(s) => reads_join(s.reads.values()),
                None => Map::empty(),
            },
        }
    }

    /// The iterations prepared under the exclusive lock, while one is held.
    pub closed spec fn pending_prepared(&self) -> Option<Map<Seq<char>, u64>> {
        match self.held {
            HeldLocks::Exclusive(_, _, e) => Some(e.prepared_iterations.map().map_values(
                |it: crate::new_runtime::message::Iteration| it.0)),
            _ => None,
        }
    }

    /// The iterations that preparing the commit under the exclusive lock
    /// records (see `prepared_upto`): along the dependency order, each
    /// written reactive, and each reactive with a local input already
    /// prepared, at its iteration plus one.
    pub closed spec fn iterations_to_prepare(&self) -> Map<Seq<char>, u64> {
        match self.held {
            HeldLocks::Exclusive(_, _, e) => prepared_upto(self.topo_names(), self.topo_names().len() as int, e.writes.map(),
                self.reactives.map(), self.iterations.map(), self.id, e.prepared_iterations.map()).map_values(
                |it: crate::new_runtime::message::Iteration| it.0),
            _ => Map::empty(),
        }
    }

    /// Whether every reactive in the dependency order is hosted and has an
    /// iteration that can still be raised.
    pub closed spec fn iterations_ready(&self) -> bool {
        forall|i: int| 0 <= i < self.topo_names().len() ==> self.reactives.map().contains_key(#[trigger] self.topo_names()[i])
            && self.iterations.map().contains_key(self.topo_names()[i])
            && self.iterations.map()[self.topo_names()[i]].0 < u64::MAX
    }

    /// Whether the protocol lets the service take `msg` in its current
    /// state. The service is never to be given any other message: a second
    /// lock request, a release, commit or read by a transaction without a
    /// lock, a read of an unknown reactive, of one whose value has no roots
    /// recorded, or while an earlier read of it is unfinished, a write or a
    /// configuration without the exclusive lock, a write to an unknown
    /// reactive, a propagated value for a local reactive that does not read
    /// it, and a message a service never takes.
    pub open spec fn admits(self, msg: crate::new_runtime::message::Msg) -> bool {
        match msg {
            crate::new_runtime::message::Msg::Lock { txid, .. } => !queue_keys(self.queue()).contains(txid@),
            crate::new_runtime::message::Msg::Abort { txid } => holds(self.held_locks(), txid@),
            crate::new_runtime::message::Msg::PrepareCommit { txid } => holds(self.held_locks(), txid@),
            crate::new_runtime::message::Msg::Commit { txid, .. } => holds(self.held_locks(), txid@),
            crate::new_runtime::message::Msg::ReadValue { txid, reactive, .. } => {
                &&& holds(self.held_locks(), txid@)
                &&& self.hosts(reactive@)
                &&& !self.read_unfinished(txid@, reactive@)
                &&& (self.stamped_value(reactive@) is Some ==> self.roots_of(reactive@) is Some)
            },
            crate::new_runtime::message::Msg::Write { txid, reactive, .. } => holds_exclusive(self.held_locks(), txid@)
                && self.hosts(reactive@),
            crate::new_runtime::message::Msg::ReadConfiguration { txid } => holds_exclusive(self.held_locks(), txid@),
            crate::new_runtime::message::Msg::Configure { txid, .. } => holds_exclusive(self.held_locks(), txid@),
            crate::new_runtime::message::Msg::Propagate { sender, .. } => self.importers_accept(sender@),
            _ => false,
        }
    }

    /// Whether the protocol lets the service take `msg` now (see `admits`).
    pub fn accepts(&self, msg: &crate::new_runtime::message::Msg) -> (r: bool)
        requires
            self.wf(),
        ensures
            r == self.admits(*msg),
    {
        match msg {
            crate::new_runtime::message::Msg::Lock { txid, .. } => !queued_contains(&self.queued, txid),
            crate::new_runtime::message::Msg::Abort { txid } => self.held.shared(txid).is_some(),
            crate::new_runtime::message::Msg::PrepareCommit { txid } => self.held.shared(txid).is_some(),
            crate::new_runtime::message::Msg::Commit { txid, .. } => self.held.shared(txid).is_some(),
            crate::new_runtime::message::Msg::ReadValue { txid, reactive, .. } => {
                let st = match self.held.shared(txid) {
                    Some(st) => st,
                    None => {
                        return false;
                    },
                };
                proof {
                    match &self.held {
                        HeldLocks::Shared(v) => {
                            let i = choose|i: int| 0 <= i < v@.len() && v@[i].0@ == txid@ && v@[i].1 == *st;
                            assert(shared_keys(v@)[i] == txid@);
                            lemma_sorted_index(shared_keys(v@), i);
                        },
                        _ => {},
                    }
                    assert(self.lock_state(txid@) == Some(*st));
                }
                let x = match self.reactives.get(reactive) {
                    Some(x) => x,
                    None => {
                        return false;
                    },
                };
                let unfinished = match st.reads.get(reactive) {
                    Some(rd) => rd.complete.is_empty() || !rd.pending.is_empty(),
                    None => false,
                };
                if unfinished {
                    return false;
                }
                match x.value() {
                    Some(_) => self.roots.contains_key(reactive),
                    None => true,
                }
            },
            crate::new_runtime::message::Msg::Write { txid, reactive, .. } => self.held.exclusive(txid).is_some()
                && self.reactives.contains_key(reactive),
            crate::new_runtime::message::Msg::ReadConfiguration { txid } => self.held.exclusive(txid).is_some(),
            crate::new_runtime::message::Msg::Configure { txid, .. } => self.held.exclusive(txid).is_some(),
            crate::new_runtime::message::Msg::Propagate { sender, .. } => {
                let import = match self.imports.get(sender) {
                    Some(i) => i,
                    None => {
                        return true;
                    },
                };
                let names = &import.importers;
                let ghost ns = crate::new_runtime::service::names_of(names@);
                let mut i: usize = 0;
                while i < names.len()
                    invariant
                        i <= names@.len(),
                        ns == crate::new_runtime::service::names_of(names@),
                        self.imports.map().contains_key(sender@),
                        self.admits(*msg) == self.importers_accept(sender@),
                        ns == crate::new_runtime::service::names_of(self.imports.map()[sender@].importers@),
                        forall|j: int| 0 <= j < i ==> self.reactives.map().contains_key(#[trigger] ns[j])
                            && (self.reactives.map()[ns[j]].definition() matches Some(d) && d.inputs().map().contains_key(sender@)),
                    decreases names@.len() - i,
                {
                    proof {
                        assert(ns[i as int] == names@[i as int]@);
                    }
                    match self.reactives.get(&names[i]) {
                        Some(x) => {
                            if !x.accepts_update(sender) {
                                proof {
                                    assert(!all_accept(self.reactives.map(), ns, sender@));
                                    assert(!self.importers_accept(sender@));
                                }
                                return false;
                            }
                        },
                        None => {
                            proof {
                                assert(!all_accept(self.reactives.map(), ns, sender@));
                                assert(!self.importers_accept(sender@));
                            }
                            return false;
                        },
                    }
                    i = i + 1;
                }
                true
            },
            _ => false,
        }
    }

    /// The names written under the exclusive lock, while one is held.
    pub closed spec fn pending_written(&self) -> Set<Seq<char>> {
        match self.held {
            HeldLocks::Exclusive(_, _, e) => e.writes.map().dom(),
            _ => Set::empty(),
        }
    }

    /// Whether a commit of `t` can fail only in evaluating a definition: `t`
    /// holds a lock, each of its reads that returned a value names a hosted
    /// reactive, under the exclusive lock each write names a hosted variable
    /// with a prepared iteration and nothing is configured, and propagation
    /// is sound (see `propagation_sound`).
    pub closed spec fn commit_sound(&self, t: TxKey) -> bool {
        match self.lock_state(t) {
            None => false,
            Some(s) => crate::new_runtime::service::commit::reads_hosted(s, self.reactives.map()) && crate::new_runtime::service::propagation_sound(self) && match self.held {
                HeldLocks::Exclusive(_, _, e) => crate::new_runtime::service::commit::writes_applicable(e, self.reactives.map())
                    && crate::new_runtime::service::commit::configures_nothing(e),
                _ => true,
            },
        }
    }

    /// Whether `t` holds a shared lock whose reads that returned a value each
    /// name a hosted reactive.
    pub closed spec fn shared_commit_sound(&self, t: TxKey) -> bool {
        &&& self.held is Shared
        &&& self.lock_state(t) matches Some(s) && crate::new_runtime::service::commit::reads_hosted(s, self.reactives.map())
    }

    /// Whether the reads of every shared lock of `before` other than that of
    /// `t` can be answered from the reactives as they are now, with the
    /// roots of `before`.
    pub closed spec fn others_answerable(&self, before: ServiceActor, t: TxKey) -> bool {
        match before.held {
            HeldLocks::Shared(v) => forall|j: int| 0 <= j < v@.len() && (#[trigger] v@[j]).0@ != t ==> crate::new_runtime::service::reads_resolvable(
                v@[j].1.reads.keys(), v@[j].1.reads.values(), self.reactives.map(), before.roots.map()),
            _ => true,
        }
    }

    /// Whether a configuring commit of `t` can fail only in computing a
    /// value: `t` holds the exclusive lock, each of its reads that returned
    /// a value names a hosted reactive, each write names a hosted variable
    /// with a prepared iteration, no import it removes is still imported,
    /// it configures some reactive, and the configured dependency graph is
    /// sound (see `configuration_sound`).
    pub closed spec fn configuring_commit_sound(&self, t: TxKey) -> bool {
        match self.held {
            HeldLocks::Exclusive(x, s, e) => {
                &&& x@ == t
                &&& crate::new_runtime::service::commit::reads_hosted(s, self.reactives.map())
                &&& crate::new_runtime::service::commit::writes_applicable(e, self.reactives.map())
                &&& !(exists|a: crate::new_runtime::message::RefKey| crate::new_runtime::service::commit::import_removal_blocked(self.imports.map(),
                    e.imports.map(), e.reactives.map(), a))
                &&& e.reactives.map().dom() != Set::<Seq<char>>::empty()
                &&& crate::new_runtime::service::commit::configuration_sound(self.reactives.map(), e.reactives.map(), self.id, self.exports.map(),
                    e.exports.map())
            },
            _ => false,
        }
    }

    /// Whether the exclusive lock configures a hosted reactive whose version
    /// can no longer be raised.
    pub closed spec fn configures_at_last_version(&self) -> bool {
        match self.held {
            HeldLocks::Exclusive(_, _, e) => exists|m: Seq<char>| #[trigger] e.reactives.map().contains_key(m)
                && e.reactives.map()[m] is Some && self.reactives.map().contains_key(m)
                && self.reactives.map()[m].version_of() == u64::MAX,
            _ => false,
        }
    }

    /// Whether some hosted definition cannot compute its value: afresh (see
    /// `Reactive::configuration_fails`) or from its inputs (see
    /// `Reactive::evaluation_fails`).
    pub closed spec fn some_computation_fails(&self) -> bool {
        exists|n: Seq<char>| #[trigger] self.reactives.map().contains_key(n) && (self.reactives.map()[n].configuration_fails()
            || self.reactives.map()[n].evaluation_fails())
    }

    /// Whether a commit of `t` is sure to go through: `t` holds a lock, each
    /// of its reads that returned a value names a hosted reactive, and under
    /// the exclusive lock each write names a hosted variable with a prepared
    /// iteration, nothing is configured, and the service hosts only
    /// variables that nothing reads.
    pub closed spec fn commit_ready(&self, t: TxKey) -> bool {
        match self.lock_state(t) {
            None => false,
            Some(s) => crate::new_runtime::service::commit::reads_hosted(s, self.reactives.map()) && match self.held {
                HeldLocks::Exclusive(_, _, e) => crate::new_runtime::service::commit::writes_applicable(e, self.reactives.map())
                    && crate::new_runtime::service::commit::configures_nothing(e)
                    && crate::new_runtime::service::plain_variables(self),
                _ => true,
            },
        }
    }

    /// Handles one message that the protocol allows in the current state
    /// (see `admits`), appending the messages it sends to `out`. A fault
    /// (a cycle, a missing root or import, an evaluation that fails while
    /// propagating) leaves the service not to be used again.
    pub fn handle(&mut self, msg: crate::new_runtime::message::Msg, out: &mut Vec<Envelope>) -> (r: Result<(), Fault>)
        requires
            old(self).wf(),
            old(self).admits(msg),
        ensures
            final(self).id() == old(self).id(),
            r is Ok ==> final(self).wf(),
            r is Ok ==> final(out)@.subrange(0, old(out)@.len() as int) == old(out)@,
            match msg {
                crate::new_runtime::message::Msg::Lock { txid, kind } => {
                    &&& r is Ok
                    &&& forall|n: Seq<char>| #[trigger] final(self).value_of(n) == old(self).value_of(n)
                    &&& exists|pos: int| #![trigger old(self).queue().insert(pos, (txid@, kind))]
                        0 <= pos <= old(self).queue().len() && ({
                        let q = old(self).queue().insert(pos, (txid@, kind));
                        let g = grant_from(q, 0, old(self).held_locks());
                        &&& final(self).queue() == q.subrange(g.0, q.len() as int)
                        &&& final(self).held_locks() == g.1
                        &&& final(self).preempted() == old(self).preempted() + g.2
                        &&& crate::new_runtime::service::grant_messages(old(out)@, final(out)@, q, old(self).held_locks(),
                            old(self).id(), old(self).versions(), old(self).preempted())
                    })
                },
                crate::new_runtime::message::Msg::Abort { txid } => {
                    &&& r is Ok
                    &&& forall|n: Seq<char>| #[trigger] final(self).value_of(n) == old(self).value_of(n)
                    &&& final(self).iterations_map() == old(self).iterations_map()
                    &&& final(self).imports_map() == old(self).imports_map()
                    &&& final(self).exports_map() == old(self).exports_map()
                    &&& final(self).reactives_map() == old(self).reactives_map()
                    &&& final(self).subscriptions_map() == old(self).subscriptions_map()
                    &&& ({
                        let g = grant_from(old(self).queue(), 0, release(old(self).held_locks(), txid@));
                        &&& final(self).queue() == old(self).queue().subrange(g.0, old(self).queue().len() as int)
                        &&& final(self).held_locks() == g.1
                        &&& final(self).preempted() == old(self).preempted() + g.2
                        &&& crate::new_runtime::service::grant_messages(old(out)@, final(out)@, old(self).queue(),
                            release(old(self).held_locks(), txid@), old(self).id(), old(self).versions(), old(self).preempted())
                    })
                },
                crate::new_runtime::message::Msg::Commit { txid, .. } => {
                    &&& old(self).commit_ready(txid@) && release(old(self).held_locks(), txid@) == HeldV::Free ==> r is Ok
                    &&& old(self).commit_sound(txid@) && release(old(self).held_locks(), txid@) == HeldV::Free && r is Err
                        ==> (r matches Err(Fault::Stuck) || r matches Err(Fault::Evaluation(_)))
                    &&& old(self).configures_nothing() && (r matches Err(Fault::Stuck) || r matches Err(Fault::Evaluation(_)))
                        ==> final(self).some_evaluation_fails()
                    &&& old(self).shared_commit_sound(txid@) ==> (r is Ok <==> final(self).others_answerable(*old(self), txid@))
                    &&& old(self).configuring_commit_sound(txid@) && r is Err ==> (r matches Err(Fault::Stuck)
                        && old(self).configures_at_last_version()) || ((r matches Err(Fault::Stuck)
                        || r matches Err(Fault::Evaluation(_)) || r matches Err(Fault::MissingInput))
                        && final(self).some_computation_fails())
                    &&& r is Ok && old(self).configures_nothing() ==> final(self).changes_sent_since(*old(self), final(out)@,
                        old(out)@.len() as int, old(self).pending_written())
                    &&& r is Ok && old(self).configures_nothing() ==> forall|n: Seq<char>| #[trigger] old(self).pending_written().contains(n)
                        && old(self).topo_names().contains(n) && old(self).exports_map().contains_key(n)
                        ==> final(self).value_sent(*old(self), final(out)@, old(out)@.len() as int, n)
                    &&& r is Ok ==> forall|j: int| old(out)@.len() <= j < final(out)@.len()
                        ==> crate::new_runtime::service::is_propagation(#[trigger] final(out)@[j], old(self).id())
                        || crate::new_runtime::service::is_answer(final(out)@[j], old(self).id())
                    &&& r is Ok ==> final(self).held_locks() == release(old(self).held_locks(), txid@)
                    &&& r is Ok && holds_exclusive(old(self).held_locks(), txid@) ==> forall|k: Seq<char>|
                        #[trigger] old(self).pending_writes().unwrap().contains_key(k) && !old(self).pending_configured().contains(k)
                        ==> final(self).value_of(k) == Some(old(self).pending_writes().unwrap()[k]@)
                        && old(self).pending_prepared()->Some_0.contains_key(k)
                        && (final(self).stamped_value(k) matches Some(sv) && crate::new_runtime::message::latest_of(sv.1,
                        (old(self).id(), k)) >= old(self).pending_prepared()->Some_0[k])
                    &&& r is Ok && holds_exclusive(old(self).held_locks(), txid@) ==> forall|m: Seq<char>|
                        #[trigger] old(self).pending_configuration().unwrap().2.contains_key(m)
                        && old(self).pending_configuration().unwrap().2[m]@.len() > 0
                        ==> final(self).exports_map()[m].importers@ == old(self).pending_configuration().unwrap().2[m]@
                    &&& r is Ok && holds_exclusive(old(self).held_locks(), txid@) ==> forall|k: Seq<char>|
                        #[trigger] final(self).hosts(k) <==> if old(self).pending_configuration().unwrap().1.contains_key(k) {
                            old(self).pending_configuration().unwrap().1[k] is Some
                        } else {
                            old(self).hosts(k)
                        }
                    &&& final(self).queue() == old(self).queue()
                    &&& final(self).preempted() == old(self).preempted()
                },
                crate::new_runtime::message::Msg::PrepareCommit { txid } => {
                    &&& forall|n: Seq<char>| #[trigger] final(self).value_of(n) == old(self).value_of(n)
                    &&& (holds_exclusive(old(self).held_locks(), txid@) ==> old(self).iterations_ready()) ==> r is Ok
                    &&& final(self).held_locks() == old(self).held_locks()
                    &&& final(self).pending_writes() == old(self).pending_writes()
                    &&& final(self).pending_configuration() == old(self).pending_configuration()
                    &&& r is Ok ==> final(out)@ == old(out)@.push(final(out)@.last())
                        && is_prepared(final(out)@.last(), txid@, old(self).id(), final(self).prepared_commit_basis(txid@))
                    &&& r is Ok && holds_exclusive(old(self).held_locks(), txid@) ==> forall|i: int|
                        0 <= i < old(self).topo_names().len()
                        && #[trigger] old(self).pending_writes()->Some_0.contains_key(old(self).topo_names()[i])
                        ==> final(self).pending_prepared()->Some_0.contains_key(old(self).topo_names()[i])
                        && old(self).iterations_map().contains_key(old(self).topo_names()[i])
                        && final(self).pending_prepared()->Some_0[old(self).topo_names()[i]]
                        == old(self).iterations_map()[old(self).topo_names()[i]] + 1
                    &&& r is Ok && holds_exclusive(old(self).held_locks(), txid@) ==> final(self).pending_prepared()
                        == Some(old(self).iterations_to_prepare())
                },
                crate::new_runtime::message::Msg::ReadValue { txid, reactive, basis } => {
                    &&& r is Ok
                    &&& forall|n: Seq<char>| #[trigger] final(self).value_of(n) == old(self).value_of(n)
                    &&& final(self).held_locks() == old(self).held_locks()
                    &&& ({
                        let prev = old(self).read_stamps(txid@, reactive@);
                        let now = final(self).read_stamps(txid@, reactive@);
                        match old(self).stamped_value(reactive@) {
                            Some(sv) => if crate::new_runtime::message::stamp_prec_eq(basis@, sv.1,
                                old(self).roots_of(reactive@)->Some_0) {
                                &&& now == (prev.0, crate::new_runtime::message::stamp_join(prev.1, sv.1))
                                &&& final(out)@ == old(out)@.push(final(out)@.last())
                                &&& crate::new_runtime::service::is_answer(final(out)@.last(), old(self).id())
                                &&& crate::new_runtime::service::answer_view(final(out)@.last()) == (txid@, reactive@, sv.0)
                            } else {
                                now == (basis@, prev.1) && final(out)@ == old(out)@
                            },
                            None => now == (basis@, prev.1) && final(out)@ == old(out)@,
                        }
                    })
                },
                crate::new_runtime::message::Msg::Write { txid, reactive, value } => {
                    &&& r is Ok
                    &&& forall|n: Seq<char>| #[trigger] final(self).value_of(n) == old(self).value_of(n)
                    &&& final(self).held_locks() == old(self).held_locks()
                    &&& final(self).pending_writes() == Some(old(self).pending_writes().unwrap().insert(reactive@, value))
                    &&& final(out)@ == old(out)@
                },
                crate::new_runtime::message::Msg::ReadConfiguration { txid } => {
                    &&& r is Ok
                    &&& *final(self) == *old(self)
                    &&& final(out)@ == old(out)@.push(final(out)@.last()) && is_configuration(final(out)@.last(), txid@, *old(self))
                },
                crate::new_runtime::message::Msg::Configure { txid, imports, reactives, exports } => {
                    &&& r is Ok
                    &&& forall|n: Seq<char>| #[trigger] final(self).value_of(n) == old(self).value_of(n)
                    &&& final(self).held_locks() == old(self).held_locks()
                    &&& final(self).pending_writes() == old(self).pending_writes()
                    &&& ({
                        let (ci, cr, ce) = old(self).pending_configuration().unwrap();
                        final(self).pending_configuration() == Some((inserted_all(ci, imports@), inserted_all(cr, reactives@),
                            inserted_all(ce, exports@)))
                    })
                    &&& final(out)@ == old(out)@
                },
                crate::new_runtime::message::Msg::Propagate { sender, value } => {
                    &&& !old(self).imports_ref(sender@) ==> r is Ok && *final(self) == *old(self) && final(out)@ == old(out)@
                    &&& r is Ok && sender.service != old(self).id() && old(self).imports_ref(sender@) ==> forall|j: int|
                        0 <= j < old(self).importers_of(sender@).len()
                        ==> #[trigger] final(self).has_news(old(self).importers_of(sender@)[j], sender@, value@)
                    &&& r is Ok ==> final(self).changes_sent_since(*old(self), final(out)@, old(out)@.len() as int, Set::empty())
                    &&& old(self).propagation_sound() && r is Err ==> (r matches Err(Fault::Stuck)
                        || r matches Err(Fault::Evaluation(_)) || !final(self).reads_answerable(*old(self)))
                    &&& (r matches Err(Fault::Stuck) || r matches Err(Fault::Evaluation(_))) ==> final(self).some_evaluation_fails()
                    &&& r is Ok ==> forall|j: int| old(out)@.len() <= j < final(out)@.len()
                        ==> crate::new_runtime::service::is_propagation(#[trigger] final(out)@[j], old(self).id())
                        || crate::new_runtime::service::is_answer(final(out)@[j], old(self).id())
                    &&& forall|n: Seq<char>| #[trigger] old(self).hosts_variable(n) ==> final(self).hosts_variable(n)
                        && final(self).value_of(n) == old(self).value_of(n)
                    &&& final(self).queue() == old(self).queue()
                    &&& final(self).preempted() == old(self).preempted()
                    &&& r is Ok ==> final(self).held_locks() == old(self).held_locks()
                },
                _ => false,
            },
    {
        proof {
            assert(self.reactives.map().dom().subset_of(self.subscriptions.map().dom()));
        }
        match msg {
            crate::new_runtime::message::Msg::Lock { txid, kind } => self.handle_lock(txid, kind, out),
            crate::new_runtime::message::Msg::Abort { txid } => self.handle_abort(&txid, out),
            crate::new_runtime::message::Msg::Commit { txid, basis } => {
                let r = self.handle_commit(&txid, basis, out);
                proof {
                    if r is Ok && holds_exclusive(old(self).held_locks(), txid@) {
                        match old(self).held {
                            HeldLocks::Exclusive(t, _, e) => {
                                assert forall|k: Seq<char>| #[trigger] old(self).pending_writes().unwrap().contains_key(k)
                                    && !old(self).pending_configured().contains(k) implies old(self).pending_prepared()->Some_0.contains_key(k)
                                    && (self.stamped_value(k) matches Some(sv) && crate::new_runtime::message::latest_of(sv.1,
                                    (old(self).id(), k)) >= old(self).pending_prepared()->Some_0[k]) by {
                                    assert(e.writes.map().contains_key(k));
                                    assert(e.prepared_iterations.map().contains_key(k));
                                }
                            },
                            _ => {},
                        }
                    }
                }
                r
            },
            crate::new_runtime::message::Msg::PrepareCommit { txid } => {
                let r = self.handle_prepare(&txid, out);
                proof {
                    if r is Ok {
                        assert(out@.subrange(0, old(out)@.len() as int) == old(out)@);
                    }
                }
                r
            },
            crate::new_runtime::message::Msg::ReadValue { txid, reactive, basis } => self.handle_read(&txid, reactive, basis, out),
            crate::new_runtime::message::Msg::Write { txid, reactive, value } => {
                let r = self.handle_write(&txid, reactive, value);
                proof {
                    assert(out@.subrange(0, old(out)@.len() as int) =~= old(out)@);
                }
                r
            },
            crate::new_runtime::message::Msg::ReadConfiguration { txid } => {
                let r = self.handle_read_config(&txid, out);
                proof {
                    if r is Ok {
                        assert(out@.subrange(0, old(out)@.len() as int) =~= old(out)@);
                    }
                }
                r
            },
            crate::new_runtime::message::Msg::Configure { txid, imports, reactives, exports } => {
                let r = self.handle_configure(&txid, imports, reactives, exports);
                proof {
                    assert(out@.subrange(0, old(out)@.len() as int) =~= old(out)@);
                }
                r
            },
            crate::new_runtime::message::Msg::Propagate { sender, value } => {
                let r = self.handle_propagate(sender, value, out);
                proof {
                    if !old(self).imports.map().contains_key(sender@) {
                        assert(out@.subrange(0, old(out)@.len() as int) =~= old(out)@);
                    }
                }
                r
            },
            _ => Err(Fault::Unexpected),
        }
    }
}

} // verus!

verus! {

/// While an exclusive lock is held, no queued request is granted, whatever
/// it asks for, and the lock stays as it is.
pub proof fn law_exclusive_blocks(q: Seq<(TxKey, LockKind)>, i: int, x: TxKey)
    requires
        0 <= i,
    ensures
        grant_from(q, i, HeldV::Exclusive(x)).0 == i,
        grant_from(q, i, HeldV::Exclusive(x)).1 == HeldV::Exclusive(x),
{
}

/// While shared locks are held, an exclusive request at the head of the
/// queue is not granted, and the shared locks stay.
pub proof fn law_shared_blocks_exclusive(q: Seq<(TxKey, LockKind)>, i: int, s: Set<TxKey>)
    requires
        0 <= i < q.len(),
        q[i].1 == LockKind::Exclusive,
    ensures
        grant_from(q, i, HeldV::Shared(s)).0 == i,
        grant_from(q, i, HeldV::Shared(s)).1 == HeldV::Shared(s),
{
}

/// Locks are granted in transaction order: while an older request stays
/// queued, no younger one is granted.
pub proof fn law_granted_in_age_order(q: Seq<(TxKey, LockKind)>, h: HeldV, a: int, b: int)
    requires
        tx_sorted(queue_keys(q)),
        0 <= a < q.len(),
        0 <= b < q.len(),
        tx_lt(q[a].0, q[b].0),
        b < grant_from(q, 0, h).0,
    ensures
        a < grant_from(q, 0, h).0,
{
    let ks = queue_keys(q);
    assert(ks[a] == q[a].0 && ks[b] == q[b].0);
    crate::new_runtime::message::law_tx_lt_irreflexive(q[b].0);
    if a > b {
        assert(tx_lt(ks[b], ks[a]));
        law_tx_lt_transitive(q[b].0, q[a].0, q[b].0);
    }
}

/// Shared requests at the head of the queue all join the shared locks held.
pub proof fn law_shared_joins(q: Seq<(TxKey, LockKind)>, s: Set<TxKey>)
    requires
        forall|j: int| 0 <= j < q.len() ==> (#[trigger] q[j]).1 == LockKind::Shared,
    ensures
        grant_from(q, 0, HeldV::Shared(s)).0 == q.len(),
        grant_from(q, 0, HeldV::Shared(s)).1 == HeldV::Shared(s + q.map_values(|e: (TxKey, LockKind)| e.0).to_set()),
    decreases q.len(),
{
    lemma_shared_joins_from(q, 0, s);
    assert(q.subrange(0, q.len() as int) =~= q);
}

/// Shared requests from position `i` on all join the shared locks held.
proof fn lemma_shared_joins_from(q: Seq<(TxKey, LockKind)>, i: int, s: Set<TxKey>)
    requires
        0 <= i <= q.len(),
        forall|j: int| 0 <= j < q.len() ==> (#[trigger] q[j]).1 == LockKind::Shared,
    ensures
        grant_from(q, i, HeldV::Shared(s)).0 == q.len(),
        grant_from(q, i, HeldV::Shared(s)).1 == HeldV::Shared(s + q.subrange(i, q.len() as int).map_values(
            |e: (TxKey, LockKind)| e.0).to_set()),
    decreases q.len() - i,
{
    let rest = q.subrange(i, q.len() as int).map_values(|e: (TxKey, LockKind)| e.0);
    if i == q.len() {
        assert(rest.to_set() =~= Set::<TxKey>::empty());
        assert(s + rest.to_set() =~= s);
    } else {
        let t = q[i].0;
        lemma_shared_joins_from(q, i + 1, s.insert(t));
        let next = q.subrange(i + 1, q.len() as int).map_values(|e: (TxKey, LockKind)| e.0);
        assert(rest =~= seq![t] + next);
        assert(rest.to_set() =~= next.to_set().insert(t)) by {
            assert forall|x: TxKey| rest.contains(x) <==> next.contains(x) || x == t by {
                if rest.contains(x) {
                    let j = choose|j: int| 0 <= j < rest.len() && rest[j] == x;
                    if j > 0 {
                        assert(next[j - 1] == x);
                    }
                }
                if next.contains(x) {
                    let j = choose|j: int| 0 <= j < next.len() && next[j] == x;
                    assert(rest[j + 1] == x);
                }
                if x == t {
                    assert(rest[0] == x);
                }
            }
        }
        assert(s.insert(t) + next.to_set() =~= s + rest.to_set());
    }
}

/// On a service that holds nothing and has nothing queued, a lock request
/// is granted at once, and giving the lock up leaves nothing held.
pub proof fn law_lock_then_release(t: TxKey, k: LockKind)
    ensures
        ({
            let g = grant_from(seq![(t, k)], 0, HeldV::Free);
            &&& g.0 == 1
            &&& holds(g.1, t)
            &&& g.2 == Set::<TxKey>::empty()
            &&& release(g.1, t) == HeldV::Free
        }),
{
    let q = seq![(t, k)];
    if k == LockKind::Shared {
        let h = HeldV::Shared(Set::empty().insert(t));
        assert(grant_from(q, 1, h) == (1int, h, Set::<TxKey>::empty()));
        assert(grant_from(q, 0, HeldV::Free) == grant_from(q, 1, h));
        assert(Set::<TxKey>::empty().insert(t).remove(t) =~= Set::<TxKey>::empty());
    } else {
        let h = HeldV::Exclusive(t);
        assert(grant_from(q, 1, h) == (1int, h, Set::<TxKey>::empty()));
        assert(grant_from(q, 0, HeldV::Free) == grant_from(q, 1, h));
    }
}

} // verus!
