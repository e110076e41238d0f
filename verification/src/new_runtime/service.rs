//! A service: the reactive names it hosts, the locks it grants to
//! transactions and the propagation of new values along its dependency graph.
use vstd::prelude::*;

use crate::new_runtime::message::{
    law_tx_lt_irreflexive, law_tx_lt_total, law_tx_lt_transitive, stamp_join, stamp_prec_eq, tx_lt, BasisStamp, Envelope,
    Iteration, LockKind, Msg,
    Recipient, TxId, TxKey, Version,
};
use crate::new_runtime::service::held_locks::{
    insert_shared, shared_keys, shared_position, tx_sorted, ExclusiveLockState, HeldLocks, HeldV, Read, SharedLockState,
};
use crate::ast::ExprV;
use crate::new_runtime::evaluator::refs_view;
use crate::new_runtime::message::RefKey;
use crate::new_runtime::service::reactive::{work, Reactive};
use crate::table::Table;

pub mod batch;
pub mod commit;
pub mod handle;
pub mod held_locks;
pub mod reactive;

verus! {

/// Why a service stops: the conditions under which it cannot go on.
#[derive(Debug)]
pub enum Fault {
    /// Computing a definition's value ended with this error.
    Evaluation(crate::new_runtime::evaluator::EvalError),
    /// An evaluation met an operation without a result: arithmetic
    /// overflow, division by zero, an operator on values of the wrong kind,
    /// or a read of a reactive that is not an input.
    Stuck,
    /// A value was computed while an input it depends on has none.
    MissingInput,
    /// The reactives of the service depend on each other in a cycle.
    Cyclical,
    /// A transaction asked twice for a lock.
    LockDoubleRequested,
    /// A transaction acted on a lock it does not hold.
    UnheldLock,
    /// A transaction wrote or configured without an exclusive lock.
    NotExclusive,
    /// A transaction read a reactive while another read of it is pending.
    ReadPending,
    /// A message named a reactive or an import the service does not have.
    Unknown,
    /// A transaction wrote to a definition.
    NotVariable,
    /// A message of a kind that a service does not take.
    Unexpected,
}

/// The name of a reactive (a `var` or a `def`) within its service.
#[derive(Debug)]
pub struct ReactiveName(pub String);

/// A reactive of some service: the service's identity and the reactive's name.
#[derive(Debug)]
pub struct ReactiveRef {
    pub service: u64,
    pub name: ReactiveName,
}

/// What a service knows of a reactive it imports from another service: the
/// roots that reactive derives from, and the local reactives that read it.
#[derive(Debug)]
pub struct Import {
    pub roots: Vec<ReactiveRef>,
    pub importers: Vec<ReactiveName>,
}

/// What a service knows of a reactive it exports: the roots from other
/// services it derives from, and the services that import it.
#[derive(Debug)]
pub struct Export {
    pub roots: Vec<ReactiveRef>,
    pub importers: Vec<u64>,
}

impl View for ReactiveName {
    type V = Seq<char>;

    open spec fn view(&self) -> Seq<char> {
        self.0@
    }
}

impl View for ReactiveRef {
    type V = (u64, Seq<char>);

    open spec fn view(&self) -> (u64, Seq<char>) {
        (self.service, self.name@)
    }
}

impl ReactiveName {
    /// A copy of the name.
    pub fn copy(&self) -> (r: ReactiveName)
        ensures
            r@ == self@,
    {
        ReactiveName(self.0.clone())
    }

    /// Whether two names are the same.
    pub fn same(&self, other: &ReactiveName) -> (r: bool)
        ensures
            r == (self@ == other@),
    {
        self.0 == other.0
    }
}

impl ReactiveRef {
    /// A copy of the reference.
    pub fn copy(&self) -> (r: ReactiveRef)
        ensures
            r@ == self@,
    {
        ReactiveRef { service: self.service, name: self.name.copy() }
    }

    /// Whether two references designate the same reactive.
    pub fn same(&self, other: &ReactiveRef) -> (r: bool)
        ensures
            r == (self@ == other@),
    {
        self.service == other.service && self.name.same(&other.name)
    }
}

} // verus!

verus! {

/// A service: the locks it holds and queues for transactions, the reactives
/// it hosts, what it imports and exports, and its dependency graph.
pub struct ServiceActor {
    pub(crate) id: u64,
    pub(crate) queued: Vec<(TxId, LockKind)>,
    pub(crate) held: HeldLocks,
    pub(crate) preempted: Vec<TxId>,
    pub(crate) imports: Table<ReactiveRef, Import>,
    pub(crate) reactives: Table<ReactiveName, Reactive>,
    pub(crate) iterations: Table<ReactiveName, Iteration>,
    pub(crate) exports: Table<ReactiveName, Export>,
    pub(crate) subscriptions: Table<ReactiveName, Vec<ReactiveName>>,
    pub(crate) roots: Table<ReactiveName, Vec<ReactiveRef>>,
    pub(crate) topo: Vec<ReactiveName>,
}

/// The queued lock requests, as identities and kinds.
pub open spec fn queue_view(q: Seq<(TxId, LockKind)>) -> Seq<(TxKey, LockKind)> {
    q.map_values(|e: (TxId, LockKind)| (e.0@, e.1))
}

/// Granting queued locks in order from position `i`, with `h` held: how many
/// are granted in all, what is then held, and the transactions whose
/// preemption is requested. A shared lock joins shared locks; an exclusive
/// one needs no lock held. The first request that cannot be granted stops
/// the granting: an exclusive request asks to preempt the shared locks not
/// older than itself; a request that meets an exclusive lock held by a
/// younger transaction asks that holder to give way. Preemption thus always
/// falls on younger holders, under either kind of lock (the wound-wait
/// rule), and never on the queued request itself, which simply waits.
pub open spec fn grant_from(q: Seq<(TxKey, LockKind)>, i: int, h: HeldV) -> (int, HeldV, Set<TxKey>)
    decreases q.len() - i,
{
    if i < 0 || i >= q.len() {
        (i, h, Set::empty())
    } else {
        let t = q[i].0;
        let k = q[i].1;
        match h {
            HeldV::Free => grant_from(
                q,
                i + 1,
                if k == LockKind::Shared { HeldV::Shared(Set::empty().insert(t)) } else { HeldV::Exclusive(t) },
            ),
            HeldV::Shared(s) => if k == LockKind::Shared {
                grant_from(q, i + 1, HeldV::Shared(s.insert(t)))
            } else {
                (i, h, s.filter(|x: TxKey| !tx_lt(x, t)))
            },
            HeldV::Exclusive(x) => (i, h, if tx_lt(t, x) { Set::empty().insert(x) } else { Set::empty() }),
        }
    }
}

/// Whether every reactive in the dependency order is a hosted variable that
/// no reactive of the service reads.
pub(crate) open spec fn plain_variables(s: &ServiceActor) -> bool {
    forall|a: int| 0 <= a < s.topo@.len() ==> {
        let n = #[trigger] names_of(s.topo@)[a];
        &&& s.reactives.map().contains_key(n)
        &&& s.reactives.map()[n].definition() is None
        &&& s.subscriptions.map().contains_key(n)
        &&& s.subscriptions.map()[n]@.len() == 0
    }
}

/// Whether `e` asks the manager of `t` to preempt it.
pub open spec fn is_preempt(e: Envelope, t: TxKey) -> bool {
    &&& e.msg matches Msg::Preempt { txid } && txid@ == t
    &&& e.to matches Recipient::Manager(m) && m@ == t.2
}

/// The reactive versions a list of (name, version) pairs gives.
pub open spec fn versions_view(v: Seq<(ReactiveName, Version)>) -> Seq<(Seq<char>, u64)> {
    v.map_values(|p: (ReactiveName, Version)| (p.0@, p.1.0))
}

/// Whether `e` tells the manager of `t` that service `service` granted its
/// lock, its reactives being at versions `vs`.
pub open spec fn is_granted(e: Envelope, t: TxKey, service: u64, vs: Seq<(Seq<char>, u64)>) -> bool {
    &&& e.msg matches Msg::LockGranted { txid, service: s, reactives } && txid@ == t && s == service
        && versions_view(reactives@) == vs
    &&& e.to matches Recipient::Manager(m) && m@ == t.2
}

/// The identities of a list of transactions.
pub open spec fn txids_view(v: Seq<TxId>) -> Seq<TxKey> {
    v.map_values(|t: TxId| t@)
}

impl ServiceActor {
    pub closed spec fn id(&self) -> u64 {
        self.id
    }

    pub closed spec fn queue(&self) -> Seq<(TxKey, LockKind)> {
        queue_view(self.queued@)
    }

    pub closed spec fn held_locks(&self) -> HeldV {
        self.held.view()
    }

    pub closed spec fn preempted(&self) -> Set<TxKey> {
        txids_view(self.preempted@).to_set()
    }

    /// The lock queue is in transaction order and shared locks are kept
    /// sorted.
    pub closed spec fn locks_wf(&self) -> bool {
        &&& tx_sorted(queue_view(self.queued@).map_values(|e: (TxKey, LockKind)| e.0))
        &&& self.held.wf()
    }

    /// A service with the given identity, holding and hosting nothing.
    pub fn new(id: u64) -> (r: ServiceActor)
        ensures
            r.id() == id,
            r.locks_wf(),
            r.queue() == Seq::<(TxKey, LockKind)>::empty(),
            r.held_locks() == HeldV::Free,
            r.preempted() == Set::<TxKey>::empty(),
            r.wf(),
    {
        let r = ServiceActor {
            id,
            queued: Vec::new(),
            held: HeldLocks::Free,
            preempted: Vec::new(),
            imports: Table::new(),
            reactives: Table::new(),
            iterations: Table::new(),
            exports: Table::new(),
            subscriptions: Table::new(),
            roots: Table::new(),
            topo: Vec::new(),
        };
        proof {
            assert(queue_view(r.queued@) =~= Seq::<(TxKey, LockKind)>::empty());
            assert(txids_view(r.preempted@).to_set() =~= Set::<TxKey>::empty());
            assert(r.subscriptions.map().dom() =~= Set::<Seq<char>>::empty());
            assert(r.reactives.map().dom() =~= Set::<Seq<char>>::empty());
            ServiceActor::lemma_wf_intro(&r);
        }
        r
    }

    /// Asks the manager of `txid` to preempt it, unless that was asked before.
    fn preempt(preempted: &mut Vec<TxId>, out: &mut Vec<Envelope>, txid: &TxId)
        ensures
            txids_view(final(preempted)@).to_set() == txids_view(old(preempted)@).to_set().insert(txid@),
            txids_view(old(preempted)@).to_set().contains(txid@) ==> final(out)@ == old(out)@,
            !txids_view(old(preempted)@).to_set().contains(txid@) ==> final(out)@.len() == old(out)@.len() + 1
                && final(out)@.subrange(0, old(out)@.len() as int) == old(out)@
                && is_preempt(final(out)@.last(), txid@),
    {
        let mut i: usize = 0;
        while i < preempted.len()
            invariant
                i <= preempted@.len(),
                forall|j: int| 0 <= j < i ==> preempted@[j]@ != txid@,
            decreases preempted@.len() - i,
        {
            if preempted[i].same(txid) {
                proof {
                    assert(txids_view(preempted@)[i as int] == txid@);
                    assert(txids_view(preempted@).to_set().insert(txid@) =~= txids_view(preempted@).to_set());
                }
                return;
            }
            i = i + 1;
        }
        let ghost before = txids_view(preempted@);
        proof {
            assert(!before.contains(txid@)) by {
                if before.contains(txid@) {
                    let j = choose|j: int| 0 <= j < before.len() && before[j] == txid@;
                    assert(preempted@[j]@ == txid@);
                }
            }
        }
        preempted.push(txid.copy());
        proof {
            assert(txids_view(preempted@) =~= before.push(txid@));
            before.lemma_push_to_set_commute(txid@);
        }
        out.push(Envelope { to: Recipient::Manager(txid.manager.clone()), msg: Msg::Preempt { txid: txid.copy() } });
        proof {
            assert(out@.subrange(0, out@.len() - 1) =~= old(out)@);
        }
    }
}


/// The transaction a preemption request names.
pub open spec fn preempt_key(e: Envelope) -> TxKey {
    match e.msg {
        Msg::Preempt { txid } => txid@,
        _ => (crate::new_runtime::message::TxPriority::High, 0, Seq::empty()),
    }
}

/// The transactions that a list of preemption requests names, in order.
pub open spec fn preempt_keys(seg: Seq<Envelope>) -> Seq<TxKey> {
    seg.map_values(|e: Envelope| preempt_key(e))
}

/// Whether `seg` asks exactly the transactions of `ts` to give way, one
/// message each.
pub open spec fn preempts_exactly(seg: Seq<Envelope>, ts: Set<TxKey>) -> bool {
    &&& forall|j: int| 0 <= j < seg.len() ==> #[trigger] is_preempt(seg[j], preempt_key(seg[j]))
    &&& preempt_keys(seg).to_set() == ts
    &&& preempt_keys(seg).no_duplicates()
}

/// Whether `after` is `before` followed by the messages that granting the
/// queue `q`, with `h` held, sends from service `id` whose reactives are at
/// `versions`: the preemptions not asked before (`preempted`), then one
/// grant for each granted request, in queue order.
pub open spec fn grant_messages(
    before: Seq<Envelope>,
    after: Seq<Envelope>,
    q: Seq<(TxKey, LockKind)>,
    h: HeldV,
    id: u64,
    versions: Seq<(Seq<char>, u64)>,
    preempted: Set<TxKey>,
) -> bool {
    let g = grant_from(q, 0, h);
    let p = after.len() - before.len() - g.0;
    &&& p >= 0
    &&& after.subrange(0, before.len() as int) == before
    &&& preempts_exactly(after.subrange(before.len() as int, before.len() + p), g.2.difference(preempted))
    &&& forall|j: int| 0 <= j < g.0 ==> #[trigger] is_granted(after[before.len() + p + j], q[j].0, id, versions)
}

impl ServiceActor {
    /// Services with the same reactives have the same versions.
    pub(crate) proof fn lemma_versions_same(a: &ServiceActor, b: &ServiceActor)
        requires
            a.reactives == b.reactives,
        ensures
            a.versions() == b.versions(),
    {
    }

    /// The version of each reactive, in table order.
    pub closed spec fn versions(&self) -> Seq<(Seq<char>, u64)> {
        Seq::new(self.reactives.keys().len(), |i: int| (self.reactives.keys()[i], self.reactives.values()[i].version_of()))
    }

    /// Everything but the locks is the same in both services.
    pub closed spec fn same_but_locks(&self, other: &ServiceActor) -> bool {
        &&& self.id == other.id
        &&& self.imports == other.imports
        &&& self.reactives == other.reactives
        &&& self.iterations == other.iterations
        &&& self.exports == other.exports
        &&& self.subscriptions == other.subscriptions
        &&& self.roots == other.roots
        &&& self.topo == other.topo
    }

    fn reactive_versions(&self) -> (r: Vec<(ReactiveName, Version)>)
        ensures
            versions_view(r@) == self.versions(),
    {
        let n = self.reactives.len();
        proof {
            self.reactives.lemma_len();
        }
        let mut r: Vec<(ReactiveName, Version)> = Vec::new();
        let mut i: usize = 0;
        while i < n
            invariant
                i <= n,
                n == self.reactives.size(),
                n == self.reactives.keys().len(),
                n == self.reactives.values().len(),
                r@.len() == i,
                forall|j: int| 0 <= j < i ==> (#[trigger] r@[j]).0@ == self.reactives.keys()[j]
                    && r@[j].1.0 == self.reactives.values()[j].version_of(),
            decreases n - i,
        {
            let name = self.reactives.key_at(i).copy();
            let v = self.reactives.value_at(i).version();
            r.push((name, v));
            i = i + 1;
        }
        proof {
            assert(versions_view(r@) =~= self.versions());
        }
        r
    }

    /// Grants the queued locks that can be granted, in transaction order, and
    /// asks for the preemptions that the first one that cannot be granted
    /// calls for (see `grant_from`). The preemptions are asked first, each
    /// transaction at most once over the service's life; then each granted
    /// transaction is told, with the version of every reactive.
    pub fn grant_locks(&mut self, out: &mut Vec<Envelope>)
        requires
            old(self).locks_wf(),
        ensures
            final(self).locks_wf(),
            final(self).same_but_locks(old(self)),
            ({
                let g = grant_from(old(self).queue(), 0, old(self).held_locks());
                let fresh = g.2.difference(old(self).preempted());
                let p = final(out)@.len() - old(out)@.len() - g.0;
                &&& 0 <= g.0 <= old(self).queue().len()
                &&& final(self).queue() == old(self).queue().subrange(g.0, old(self).queue().len() as int)
                &&& final(self).held_locks() == g.1
                &&& final(self).preempted() == old(self).preempted() + g.2
                &&& p >= 0
                &&& final(out)@.subrange(0, old(out)@.len() as int) == old(out)@
                &&& preempts_exactly(final(out)@.subrange(old(out)@.len() as int, old(out)@.len() + p), fresh)
                &&& forall|j: int| 0 <= j < g.0 ==> #[trigger] is_granted(final(out)@[old(out)@.len() + p + j],
                    old(self).queue()[j].0, old(self).id(), old(self).versions())
            }),
            grant_messages(old(out)@, final(out)@, old(self).queue(), old(self).held_locks(), old(self).id(),
                old(self).versions(), old(self).preempted()),
    {
        let ghost q = queue_view(self.queued@);
        let ghost h0 = self.held.view();
        let ghost g = grant_from(q, 0, h0);
        let mut held = HeldLocks::Free;
        std::mem::swap(&mut held, &mut self.held);
        let mut requests: Vec<TxId> = Vec::new();
        let mut i: usize = 0;
        let mut stop = false;
        while i < self.queued.len() && !stop
            invariant
                i <= self.queued@.len(),
                q == queue_view(self.queued@),
                tx_sorted(q.map_values(|e: (TxKey, LockKind)| e.0)),
                held.wf(),
                self.held == HeldLocks::Free,
                !stop ==> g == grant_from(q, i as int, held.view()),
                !stop ==> requests@.len() == 0,
                stop ==> g == (i as int, held.view(), txids_view(requests@).to_set()),
                forall|j: int| 0 <= j < i ==> match held.view() {
                    HeldV::Free => false,
                    HeldV::Shared(s) => s.contains(#[trigger] q[j].0),
                    HeldV::Exclusive(x) => x == q[j].0,
                },
            decreases self.queued@.len() - i, if stop { 0int } else { 1int },
        {
            let ghost hv = held.view();
            let t = self.queued[i].0.copy();
            let kind = self.queued[i].1;
            proof {
                assert(q[i as int].0 == t@);
                assert(q[i as int].1 == kind);
            }
            match held {
                HeldLocks::Free => {
                    match kind {
                        LockKind::Shared => {
                            let mut v: Vec<(TxId, SharedLockState)> = Vec::new();
                            v.push((t, SharedLockState::new()));
                            held = HeldLocks::Shared(v);
                            proof {
                                assert(shared_keys(v@) =~= Seq::<TxKey>::empty().push(q[i as int].0));
                                assert(Seq::<TxKey>::empty().to_set() =~= Set::<TxKey>::empty());
                                Seq::<TxKey>::empty().lemma_push_to_set_commute(q[i as int].0);
                            }
                        },
                        LockKind::Exclusive => {
                            held = HeldLocks::Exclusive(t, SharedLockState::new(), ExclusiveLockState::new());
                        },
                    }
                    i = i + 1;
                },
                HeldLocks::Shared(mut v) => {
                    match kind {
                        LockKind::Shared => {
                            let ghost before = shared_keys(v@);
                            let pos = shared_position(&v, &t);
                            match pos {
                                Some(k) => {
                                    let (tt, _) = v.remove(k);
                                    v.insert(k, (tt, SharedLockState::new()));
                                    proof {
                                        assert(shared_keys(v@) =~= before);
                                        assert(before[k as int] == t@);
                                        assert(before.to_set().insert(t@) =~= before.to_set());
                                    }
                                },
                                None => {
                                    insert_shared(&mut v, t, SharedLockState::new());
                                },
                            }
                            held = HeldLocks::Shared(v);
                            i = i + 1;
                        },
                        LockKind::Exclusive => {
                            let ghost ks = shared_keys(v@);
                            let mut j: usize = v.len();
                            while j > 0 && !v[j - 1].0.precedes(&t)
                                invariant
                                    j <= v@.len(),
                                    ks == shared_keys(v@),
                                    tx_sorted(ks),
                                    txids_view(requests@).to_set() == Set::new(|x: TxKey| exists|m: int| j <= m < ks.len()
                                        && ks[m] == x),
                                    forall|m: int| j <= m < ks.len() ==> !tx_lt(#[trigger] ks[m], t@),
                                decreases j,
                            {
                                let ghost before = txids_view(requests@);
                                requests.push(v[j - 1].0.copy());
                                proof {
                                    assert(txids_view(requests@) =~= before.push(ks[j - 1]));
                                    before.lemma_push_to_set_commute(ks[j - 1]);
                                    assert(txids_view(requests@).to_set() =~= Set::new(|x: TxKey| exists|m: int|
                                        j - 1 <= m < ks.len() && ks[m] == x)) by {
                                        assert forall|x: TxKey| txids_view(requests@).to_set().contains(x) <==> exists|m: int|
                                            j - 1 <= m < ks.len() && ks[m] == x by {
                                            if x == ks[j - 1] {
                                                assert(ks[j - 1] == x);
                                            }
                                        }
                                    }
                                }
                                j = j - 1;
                            }
                            proof {
                                let want = ks.to_set().filter(|x: TxKey| !tx_lt(x, t@));
                                assert(txids_view(requests@).to_set() =~= want) by {
                                    assert forall|x: TxKey| #[trigger] want.contains(x) implies txids_view(requests@).to_set().contains(x) by {
                                        let m = choose|m: int| 0 <= m < ks.len() && ks[m] == x;
                                        if m < j {
                                            assert(tx_lt(ks[j - 1], t@));
                                            if m < j - 1 {
                                                assert(tx_lt(ks[m], ks[j - 1]));
                                                law_tx_lt_transitive(ks[m], ks[j - 1], t@);
                                            }
                                        }
                                    }
                                    assert forall|x: TxKey| txids_view(requests@).to_set().contains(x) implies #[trigger] want.contains(x) by {
                                        let m = choose|m: int| j <= m < ks.len() && ks[m] == x;
                                        assert(ks.contains(x));
                                    }
                                }
                            }
                            held = HeldLocks::Shared(v);
                            stop = true;
                        },
                    }
                },
                HeldLocks::Exclusive(x, sd, ed) => {
                    if t.precedes(&x) {
                        requests.push(x.copy());
                        proof {
                            assert(txids_view(requests@) =~= Seq::<TxKey>::empty().push(x@));
                            assert(Seq::<TxKey>::empty().to_set() =~= Set::<TxKey>::empty());
                            Seq::<TxKey>::empty().lemma_push_to_set_commute(x@);
                        }
                    } else {
                        proof {
                            assert(txids_view(requests@).to_set() =~= Set::<TxKey>::empty());
                        }
                    }
                    held = HeldLocks::Exclusive(x, sd, ed);
                    stop = true;
                },
            }
            proof {
                assert forall|j: int| 0 <= j < i implies match held.view() {
                    HeldV::Free => false,
                    HeldV::Shared(s) => s.contains(#[trigger] q[j].0),
                    HeldV::Exclusive(x) => x == q[j].0,
                } by {
                    if j < i - 1 || stop {
                        match hv {
                            HeldV::Free => {},
                            HeldV::Shared(s) => {},
                            HeldV::Exclusive(x) => {},
                        }
                    }
                }
            }
        }
        self.held = held;
        proof {
            if !stop {
                assert(grant_from(q, i as int, held.view()) == (i as int, held.view(), Set::<TxKey>::empty()));
                assert(txids_view(requests@).to_set() =~= Set::<TxKey>::empty());
            }
        }
        let ghost pre0 = txids_view(self.preempted@).to_set();
        let ghost out0 = out@;
        let ghost rs = txids_view(requests@);
        let ghost hv_final = self.held.view();
        proof {
            assert(out@.subrange(out0.len() as int, out@.len() as int) =~= Seq::<Envelope>::empty());
            assert(preempt_keys(Seq::<Envelope>::empty()) =~= Seq::<TxKey>::empty());
            assert(Seq::<TxKey>::empty().to_set() =~= Set::<TxKey>::empty());
            assert(rs.subrange(0, 0) =~= Seq::<TxKey>::empty());
            assert(Set::<TxKey>::empty().difference(pre0) =~= Set::<TxKey>::empty());
            assert(pre0 + Set::<TxKey>::empty() =~= pre0);
            assert(out@.subrange(0, out0.len() as int) =~= out0);
        }
        let mut k: usize = 0;
        while k < requests.len()
            invariant
                q == queue_view(self.queued@),
                i <= self.queued@.len(),
                self.held.view() == hv_final,
                self.held.wf(),
                self.same_but_locks(old(self)),
                k <= requests@.len(),
                rs == txids_view(requests@),
                txids_view(self.preempted@).to_set() == pre0 + rs.subrange(0, k as int).to_set(),
                out@.len() >= out0.len(),
                out@.subrange(0, out0.len() as int) == out0,
                preempts_exactly(out@.subrange(out0.len() as int, out@.len() as int), rs.subrange(0, k as int).to_set().difference(pre0)),
            decreases requests@.len() - k,
        {
            let ghost o = out@;
            let ghost p = txids_view(self.preempted@).to_set();
            ServiceActor::preempt(&mut self.preempted, out, &requests[k]);
            proof {
                let t = rs[k as int];
                assert(rs.subrange(0, k + 1) =~= rs.subrange(0, k as int).push(t));
                rs.subrange(0, k as int).lemma_push_to_set_commute(t);
                assert(txids_view(self.preempted@).to_set() =~= pre0 + rs.subrange(0, k + 1).to_set());
                assert(out@.subrange(0, out0.len() as int) =~= out0) by {
                    if out@.len() > o.len() {
                        assert(out@.subrange(0, o.len() as int) == o);
                        assert(out@.subrange(0, out0.len() as int) =~= o.subrange(0, out0.len() as int));
                    }
                }
                let nt = rs.subrange(0, k + 1).to_set().difference(pre0);
                let ot = rs.subrange(0, k as int).to_set().difference(pre0);
                let seg0 = o.subrange(out0.len() as int, o.len() as int);
                let seg = out@.subrange(out0.len() as int, out@.len() as int);
                if p.contains(t) {
                    assert(nt =~= ot);
                    assert(out@ == o);
                } else {
                    assert(nt =~= ot.insert(t));
                    assert(seg =~= seg0.push(out@.last()));
                    assert(preempt_key(out@.last()) == t);
                    assert(preempt_keys(seg) =~= preempt_keys(seg0).push(t));
                    preempt_keys(seg0).lemma_push_to_set_commute(t);
                    assert(!preempt_keys(seg0).contains(t)) by {
                        if preempt_keys(seg0).contains(t) {
                            assert(preempt_keys(seg0).to_set().contains(t));
                        }
                    }
                    assert forall|j: int| 0 <= j < seg.len() implies #[trigger] is_preempt(seg[j], preempt_key(seg[j])) by {
                        if j < seg0.len() {
                            assert(seg[j] == seg0[j]);
                        }
                    }
                }
            }
            k = k + 1;
        }
        proof {
            assert(rs.subrange(0, rs.len() as int) =~= rs);
        }
        let versions = self.reactive_versions();
        let ghost out1 = out@;
        let mut m: usize = 0;
        while m < i
            invariant
                self.held.view() == hv_final,
                self.held.wf(),
                self.same_but_locks(old(self)),
                txids_view(self.preempted@).to_set() == pre0 + rs.to_set(),
                m <= i,
                i <= self.queued@.len(),
                q == queue_view(self.queued@),
                out@.len() == out1.len() + m,
                out@.subrange(0, out1.len() as int) == out1,
                forall|j: int| 0 <= j < m ==> #[trigger] is_granted(out@[out1.len() + j], q[j].0, self.id, self.versions()),
                versions_view(versions@) == self.versions(),
            decreases i - m,
        {
            let t = self.queued[m].0.copy();
            let vs = copy_versions(&versions);
            let ghost o = out@;
            out.push(Envelope {
                to: Recipient::Manager(t.manager.clone()),
                msg: Msg::LockGranted { txid: t, service: self.id, reactives: vs },
            });
            proof {
                assert(q[m as int].0 == self.queued@[m as int].0@);
                assert forall|j: int| 0 <= j < m + 1 implies #[trigger] is_granted(out@[out1.len() + j], q[j].0, self.id,
                    self.versions()) by {
                    if j < m {
                        assert(out@[out1.len() + j] == o[out1.len() + j]);
                    }
                }
                assert(out@.subrange(0, out1.len() as int) =~= o.subrange(0, out1.len() as int));
            }
            m = m + 1;
        }
        let rest = self.queued.split_off(i);
        self.queued = rest;
        proof {
            assert(queue_view(self.queued@) =~= q.subrange(i as int, q.len() as int));
            let ks = q.map_values(|e: (TxKey, LockKind)| e.0);
            let nks = queue_view(self.queued@).map_values(|e: (TxKey, LockKind)| e.0);
            assert forall|a: int, b: int| 0 <= a < b < nks.len() implies tx_lt(#[trigger] nks[a], #[trigger] nks[b]) by {
                assert(nks[a] == ks[a + i]);
                assert(nks[b] == ks[b + i]);
            }
            assert(out@.subrange(0, out0.len() as int) =~= out1.subrange(0, out0.len() as int));
            assert(out@.subrange(out0.len() as int, out1.len() as int) =~= out1.subrange(out0.len() as int, out1.len() as int));
        }
    }
}

/// A copy of a list of reactive versions.
fn copy_versions(v: &Vec<(ReactiveName, Version)>) -> (r: Vec<(ReactiveName, Version)>)
    ensures
        versions_view(r@) == versions_view(v@),
{
    let mut r: Vec<(ReactiveName, Version)> = Vec::new();
    let mut i: usize = 0;
    while i < v.len()
        invariant
            i <= v@.len(),
            r@.len() == i,
            forall|j: int| 0 <= j < i ==> (#[trigger] r@[j]).0@ == v@[j].0@ && r@[j].1.0 == v@[j].1.0,
        decreases v@.len() - i,
    {
        r.push((v[i].0.copy(), v[i].1));
        i = i + 1;
    }
    proof {
        assert(versions_view(r@) =~= versions_view(v@));
    }
    r
}

} // verus!

verus! {

/// Granting leaves no grantable request at the head of the queue: when
/// requests remain, an exclusive lock is held, or shared locks are held and
/// the head asks for an exclusive one.
pub proof fn law_grant_maximal(q: Seq<(TxKey, LockKind)>, i: int, h: HeldV)
    requires
        0 <= i,
    ensures
        ({
            let g = grant_from(q, i, h);
            g.0 < q.len() ==> (g.1 is Exclusive || (g.1 is Shared && q[g.0].1 == LockKind::Exclusive))
        }),
    decreases q.len() - i,
{
    if i < q.len() {
        let t = q[i].0;
        let k = q[i].1;
        match h {
            HeldV::Free => {
                law_grant_maximal(
                    q,
                    i + 1,
                    if k == LockKind::Shared { HeldV::Shared(Set::empty().insert(t)) } else { HeldV::Exclusive(t) },
                );
            },
            HeldV::Shared(s) => {
                if k == LockKind::Shared {
                    law_grant_maximal(q, i + 1, HeldV::Shared(s.insert(t)));
                } else {
                    assert(k != LockKind::Shared);
                    assert(k == LockKind::Exclusive);
                }
            },
            HeldV::Exclusive(x) => {},
        }
    }
}

/// Every granted request holds its lock afterwards: the granted
/// transactions are among the shared holders, or the one exclusive holder.
pub proof fn law_grant_holds(q: Seq<(TxKey, LockKind)>, i: int, h: HeldV)
    requires
        0 <= i,
    ensures
        ({
            let g = grant_from(q, i, h);
            forall|j: int| i <= j < g.0 ==> match g.1 {
                HeldV::Free => false,
                HeldV::Shared(s) => s.contains(#[trigger] q[j].0),
                HeldV::Exclusive(x) => x == q[j].0,
            }
        }),
    decreases q.len() - i,
{
    if i < q.len() {
        let t = q[i].0;
        let k = q[i].1;
        match h {
            HeldV::Free => {
                let h2 = if k == LockKind::Shared { HeldV::Shared(Set::empty().insert(t)) } else { HeldV::Exclusive(t) };
                law_grant_holds(q, i + 1, h2);
                lemma_grant_keeps(q, i + 1, h2);
            },
            HeldV::Shared(s) => {
                if k == LockKind::Shared {
                    law_grant_holds(q, i + 1, HeldV::Shared(s.insert(t)));
                    lemma_grant_keeps(q, i + 1, HeldV::Shared(s.insert(t)));
                }
            },
            HeldV::Exclusive(x) => {},
        }
    }
}

/// Granting never takes away a lock already held.
proof fn lemma_grant_keeps(q: Seq<(TxKey, LockKind)>, i: int, h: HeldV)
    requires
        0 <= i,
    ensures
        match (h, grant_from(q, i, h).1) {
            (HeldV::Shared(s), HeldV::Shared(s2)) => s.subset_of(s2),
            (HeldV::Shared(_), _) => false,
            (HeldV::Exclusive(x), h2) => h2 == h,
            _ => true,
        },
    decreases q.len() - i,
{
    if i < q.len() {
        let t = q[i].0;
        let k = q[i].1;
        match h {
            HeldV::Free => {},
            HeldV::Shared(s) => {
                if k == LockKind::Shared {
                    lemma_grant_keeps(q, i + 1, HeldV::Shared(s.insert(t)));
                }
            },
            HeldV::Exclusive(x) => {},
        }
    }
}

} // verus!

verus! {

/// The names of a list of reactive names.
pub open spec fn names_of(v: Seq<ReactiveName>) -> Seq<Seq<char>> {
    v.map_values(|n: ReactiveName| n@)
}

/// Whether `b` subscribes to `a` in the subscription graph `g`.
pub open spec fn edge(g: Map<Seq<char>, Vec<ReactiveName>>, a: Seq<char>, b: Seq<char>) -> bool {
    g.contains_key(a) && names_of(g[a]@).contains(b)
}

/// Whether consecutive names of `p` are joined by edges.
pub open spec fn is_path(g: Map<Seq<char>, Vec<ReactiveName>>, p: Seq<Seq<char>>) -> bool {
    forall|i: int| 0 <= i < p.len() - 1 ==> #[trigger] edge(g, p[i], p[i + 1])
}

/// Whether no path of the graph leads from a name back to itself.
pub open spec fn acyclic(g: Map<Seq<char>, Vec<ReactiveName>>) -> bool {
    forall|p: Seq<Seq<char>>| p.len() >= 2 && #[trigger] is_path(g, p) ==> p[0] != p.last()
}

/// Whether every subscriber is itself in the graph.
pub open spec fn closed_graph(g: Map<Seq<char>, Vec<ReactiveName>>) -> bool {
    forall|a: Seq<char>, b: Seq<char>| #[trigger] edge(g, a, b) ==> g.contains_key(b)
}

/// Whether `t` lists distinct names with every edge between them going
/// forward, and is closed under edges.
pub open spec fn topo_ordered(g: Map<Seq<char>, Vec<ReactiveName>>, t: Seq<Seq<char>>) -> bool {
    &&& t.no_duplicates()
    &&& forall|i: int, j: int| 0 <= i < t.len() && 0 <= j < t.len() && #[trigger] edge(g, t[i], t[j]) ==> i < j
    &&& forall|i: int, s: Seq<char>| 0 <= i < t.len() && #[trigger] edge(g, t[i], s) ==> t.contains(s)
}

/// Whether every edge of `g` from a name of `s` leads to a name of `s`.
pub open spec fn closed_in(g: Map<Seq<char>, Vec<ReactiveName>>, s: Set<Seq<char>>) -> bool {
    forall|a: Seq<char>, b: Seq<char>| s.contains(a) && #[trigger] edge(g, a, b) ==> s.contains(b)
}

/// The state of a depth-first walk: names done (`true`) are those of the
/// order built so far; names in progress (`false`) are those of the path.
pub open spec fn dfs_state(
    g: Map<Seq<char>, Vec<ReactiveName>>,
    t: Seq<Seq<char>>,
    visited: Map<Seq<char>, bool>,
    path: Seq<Seq<char>>,
) -> bool {
    &&& topo_ordered(g, t)
    &&& visited.dom().subset_of(g.dom())
    &&& forall|x: Seq<char>| (#[trigger] visited.contains_key(x) && visited[x]) <==> t.contains(x)
    &&& forall|x: Seq<char>| (#[trigger] visited.contains_key(x) && !visited[x]) <==> path.contains(x)
    &&& is_path(g, path)
}

/// The result of the walk when the graph is cyclical.
#[derive(Debug)]
pub struct Cyclical;

/// A path that leads back to one of its names closes a cycle.
proof fn lemma_back_edge(g: Map<Seq<char>, Vec<ReactiveName>>, path: Seq<Seq<char>>, name: Seq<char>)
    requires
        is_path(g, path),
        path.len() > 0,
        edge(g, path.last(), name),
        path.contains(name),
    ensures
        !acyclic(g),
{
    let j = choose|j: int| 0 <= j < path.len() && path[j] == name;
    let p = path.subrange(j, path.len() as int).push(name);
    assert forall|i: int| 0 <= i < p.len() - 1 implies #[trigger] edge(g, p[i], p[i + 1]) by {
        if i < p.len() - 2 {
            assert(edge(g, path[j + i], path[j + i + 1]));
        }
    }
    assert(is_path(g, p));
    assert(p[0] == p.last());
}

impl ServiceActor {
    /// Walks the subscribers of `name` depth first and puts `name` in front
    /// of `topo` once all of them are in it.
    fn topo_dfs(
        subscriptions: &Table<ReactiveName, Vec<ReactiveName>>,
        topo: &mut Vec<ReactiveName>,
        visited: &mut Table<ReactiveName, bool>,
        name: ReactiveName,
        Ghost(path): Ghost<Seq<Seq<char>>>,
        Ghost(within): Ghost<Set<Seq<char>>>,
    ) -> (r: Result<(), Cyclical>)
        requires
            closed_graph(subscriptions.map()),
            subscriptions.map().contains_key(name@),
            dfs_state(subscriptions.map(), names_of(old(topo)@), old(visited).map(), path),
            path.len() > 0 ==> edge(subscriptions.map(), path.last(), name@),
        ensures
            r is Err ==> !acyclic(subscriptions.map()),
            r is Ok ==> dfs_state(subscriptions.map(), names_of(final(topo)@), final(visited).map(), path),
            r is Ok ==> names_of(final(topo)@).contains(name@),
            r is Ok ==> names_of(old(topo)@).to_set().subset_of(names_of(final(topo)@).to_set()),
            r is Ok ==> old(visited).map().dom().subset_of(final(visited).map().dom()),
            r is Ok && closed_in(subscriptions.map(), within) && within.contains(name@) && names_of(old(topo)@).to_set().subset_of(
                within) ==> names_of(final(topo)@).to_set().subset_of(within),
        decreases subscriptions.map().dom().len() - old(visited).map().dom().len(),
    {
        let ghost g = subscriptions.map();
        match visited.get(&name) {
            Some(done) => {
                if *done {
                    return Ok(());
                } else {
                    proof {
                        assert(path.contains(name@));
                        lemma_back_edge(g, path, name@);
                    }
                    return Err(Cyclical);
                }
            },
            None => {},
        }
        proof {
            assert(!path.contains(name@));
            assert(!names_of(topo@).contains(name@));
        }
        let _ = visited.insert(name.copy(), false);
        let ghost path2 = path.push(name@);
        proof {
            assert forall|x: Seq<char>| (#[trigger] visited.map().contains_key(x) && !visited.map()[x]) <==> path2.contains(x) by {
                if x == name@ {
                    assert(path2[path.len() as int] == x);
                } else {
                    if path2.contains(x) {
                        let j = choose|j: int| 0 <= j < path2.len() && path2[j] == x;
                        assert(path[j] == x);
                    }
                    if path.contains(x) {
                        let j = choose|j: int| 0 <= j < path.len() && path[j] == x;
                        assert(path2[j] == x);
                    }
                }
            }
            assert forall|i: int| 0 <= i < path2.len() - 1 implies #[trigger] edge(g, path2[i], path2[i + 1]) by {
                if i < path.len() - 1 {
                    assert(edge(g, path[i], path[i + 1]));
                }
            }
            assert(visited.map().dom().subset_of(g.dom()));
            subscriptions.lemma_dom_finite();
            vstd::set_lib::lemma_len_subset(old(visited).map().dom(), g.dom());
            vstd::set_lib::lemma_len_subset(visited.map().dom(), g.dom());
        }
        let subs = match subscriptions.get(&name) {
            Some(s) => s,
            None => {
                proof {
                    assert(false);
                }
                return Err(Cyclical);
            },
        };
        let ghost t0 = names_of(topo@).to_set();
        let mut k: usize = 0;
        while k < subs.len()
            invariant
                g == subscriptions.map(),
                g.dom().finite(),
                path2 == path.push(name@),
                closed_graph(g),
                g.contains_key(name@),
                !path.contains(name@),
                *subs == g[name@],
                k <= subs@.len(),
                dfs_state(g, names_of(topo@), visited.map(), path2),
                forall|j: int| 0 <= j < k ==> names_of(topo@).contains(#[trigger] names_of(subs@)[j]),
                t0.subset_of(names_of(topo@).to_set()),
                !old(visited).map().contains_key(name@),
                old(visited).map().dom().insert(name@).subset_of(visited.map().dom()),
                visited.map().contains_key(name@),
                closed_in(g, within) && within.contains(name@) && names_of(old(topo)@).to_set().subset_of(within)
                    ==> names_of(topo@).to_set().subset_of(within),
                names_of(old(topo)@) == names_of(topo@) || k > 0,
            decreases subs@.len() - k,
        {
            let ghost before = names_of(topo@);
            proof {
                assert(names_of(subs@)[k as int] == subs@[k as int]@);
                assert(edge(g, path2.last(), subs@[k as int]@)) by {
                    assert(names_of(g[name@]@).contains(subs@[k as int]@)) by {
                        assert(names_of(g[name@]@)[k as int] == subs@[k as int]@);
                    }
                }
                vstd::set_lib::lemma_len_subset(visited.map().dom(), g.dom());
                old(visited).lemma_dom_finite();
                visited.lemma_dom_finite();
                assert(old(visited).map().dom().insert(name@).len() == old(visited).map().dom().len() + 1);
                vstd::set_lib::lemma_len_subset(old(visited).map().dom().insert(name@), visited.map().dom());
            }
            let res = ServiceActor::topo_dfs(subscriptions, topo, visited, subs[k].copy(), Ghost(path2), Ghost(within));
            match res {
                Ok(()) => {},
                Err(c) => {
                    return Err(c);
                },
            }
            proof {
                assert forall|j: int| 0 <= j < k + 1 implies names_of(topo@).contains(#[trigger] names_of(subs@)[j]) by {
                    if j < k {
                        assert(before.contains(names_of(subs@)[j]));
                        assert(before.to_set().contains(names_of(subs@)[j]));
                    }
                }
                assert(visited.map().contains_key(name@)) by {
                    assert(path2.contains(name@)) by {
                        assert(path2[path.len() as int] == name@);
                    }
                }
            }
            k = k + 1;
        }
        let ghost t1 = names_of(topo@);
        let ghost v1 = visited.map();
        topo.insert(0, name.copy());
        let _ = visited.insert(name, true);
        proof {
            let t2 = names_of(topo@);
            assert(t2 =~= seq![name@] + t1);
            if closed_in(g, within) && within.contains(name@) && names_of(old(topo)@).to_set().subset_of(within) {
                assert forall|x: Seq<char>| t2.to_set().contains(x) implies within.contains(x) by {
                    let m = choose|m: int| 0 <= m < t2.len() && t2[m] == x;
                    if m > 0 {
                        assert(t1[m - 1] == x);
                        assert(t1.to_set().contains(x));
                    }
                }
            }
            assert(!t1.contains(name@)) by {
                assert(path2.contains(name@)) by {
                    assert(path2[path.len() as int] == name@);
                }
            }
            assert(t2.no_duplicates());
            assert forall|s: Seq<char>| #[trigger] edge(g, name@, s) implies t1.contains(s) by {
                let j = choose|j: int| 0 <= j < names_of(g[name@]@).len() && names_of(g[name@]@)[j] == s;
                assert(names_of(subs@)[j] == s);
            }
            assert forall|i: int, j: int| 0 <= i < t2.len() && 0 <= j < t2.len() && #[trigger] edge(g, t2[i], t2[j]) implies i < j by {
                if i == 0 {
                    if j == 0 {
                        assert(t1.contains(name@));
                    }
                } else {
                    if j == 0 {
                        assert(t1.contains(name@)) by {
                            assert(edge(g, t1[i - 1], name@));
                        }
                    } else {
                        assert(edge(g, t1[i - 1], t1[j - 1]));
                    }
                }
            }
            assert forall|i: int, s: Seq<char>| 0 <= i < t2.len() && #[trigger] edge(g, t2[i], s) implies t2.contains(s) by {
                if i == 0 {
                    assert(t1.contains(s));
                    let m = choose|m: int| 0 <= m < t1.len() && t1[m] == s;
                    assert(t2[m + 1] == s);
                } else {
                    assert(edge(g, t1[i - 1], s));
                    assert(t1.contains(s));
                    let m = choose|m: int| 0 <= m < t1.len() && t1[m] == s;
                    assert(t2[m + 1] == s);
                }
            }
            assert forall|x: Seq<char>| (#[trigger] visited.map().contains_key(x) && visited.map()[x]) <==> t2.contains(x) by {
                if x != name@ {
                    assert(visited.map().contains_key(x) == v1.contains_key(x));
                    if v1.contains_key(x) {
                        assert(visited.map()[x] == v1[x]);
                    }
                    assert((v1.contains_key(x) && v1[x]) <==> t1.contains(x));
                    if t2.contains(x) {
                        let m = choose|m: int| 0 <= m < t2.len() && t2[m] == x;
                        assert(t1[m - 1] == x);
                    }
                    if t1.contains(x) {
                        let m = choose|m: int| 0 <= m < t1.len() && t1[m] == x;
                        assert(t2[m + 1] == x);
                    }
                } else {
                    assert(t2[0] == x);
                }
            }
            assert forall|x: Seq<char>| (#[trigger] visited.map().contains_key(x) && !visited.map()[x]) <==> path.contains(x) by {
                if x != name@ {
                    assert(visited.map().contains_key(x) == v1.contains_key(x));
                    if v1.contains_key(x) {
                        assert(visited.map()[x] == v1[x]);
                    }
                    assert((v1.contains_key(x) && !v1[x]) <==> path2.contains(x));
                }
                if x == name@ {
                } else {
                    if path2.contains(x) {
                        let j = choose|j: int| 0 <= j < path2.len() && path2[j] == x;
                        assert(path[j] == x);
                    }
                    if path.contains(x) {
                        let j = choose|j: int| 0 <= j < path.len() && path[j] == x;
                        assert(path2[j] == x);
                    }
                }
            }
            assert(t2[0] == name@);
            assert forall|x: Seq<char>| t0.contains(x) implies t2.to_set().contains(x) by {
                assert(t1.to_set().contains(x));
                let m = choose|m: int| 0 <= m < t1.len() && t1[m] == x;
                assert(t2[m + 1] == x);
            }
        }
        Ok(())
    }
}

} // verus!

verus! {

/// The reactives a reactive reads: a definition's inputs, none for a variable.
pub open spec fn reactive_inputs(r: Reactive) -> Seq<RefKey> {
    match r.definition() {
        Some(d) => d.inputs().keys(),
        None => Seq::empty(),
    }
}

/// The union of the roots of `ins`: a local input contributes the roots in
/// `roots` of its name, an imported one the roots of its import.
pub open spec fn inputs_roots(
    ins: Seq<RefKey>,
    id: u64,
    roots: Map<Seq<char>, Vec<ReactiveRef>>,
    imports: Map<RefKey, Import>,
) -> Set<RefKey>
    decreases ins.len(),
{
    if ins.len() == 0 {
        Set::empty()
    } else {
        let k = ins.last();
        inputs_roots(ins.drop_last(), id, roots, imports) + if k.0 == id {
            refs_view(roots[k.1]@).to_set()
        } else {
            refs_view(imports[k].roots@).to_set()
        }
    }
}

/// Whether the roots of each input of `ins` are known: a local input's name
/// is among `done`, an imported one is imported.
pub open spec fn inputs_known(ins: Seq<RefKey>, id: u64, done: Set<Seq<char>>, imports: Map<RefKey, Import>) -> bool {
    forall|j: int| 0 <= j < ins.len() ==> if (#[trigger] ins[j]).0 == id {
        done.contains(ins[j].1)
    } else {
        imports.contains_key(ins[j])
    }
}

/// The roots of a reactive with inputs `ins`: those of its inputs, or the
/// reactive itself when it reads nothing.
pub open spec fn expected_roots(
    name: Seq<char>,
    ins: Seq<RefKey>,
    id: u64,
    roots: Map<Seq<char>, Vec<ReactiveRef>>,
    imports: Map<RefKey, Import>,
) -> Set<RefKey> {
    if ins.len() == 0 {
        Set::empty().insert((id, name))
    } else {
        inputs_roots(ins, id, roots, imports)
    }
}

/// Appends copies of `src` to `dst`.
fn extend_refs(dst: &mut Vec<ReactiveRef>, src: &Vec<ReactiveRef>)
    ensures
        refs_view(final(dst)@) == refs_view(old(dst)@) + refs_view(src@),
{
    let mut i: usize = 0;
    while i < src.len()
        invariant
            i <= src@.len(),
            dst@.len() == old(dst)@.len() + i,
            refs_view(dst@) == refs_view(old(dst)@) + refs_view(src@).subrange(0, i as int),
        decreases src@.len() - i,
    {
        let ghost before = dst@;
        dst.push(src[i].copy());
        proof {
            assert(dst@.drop_last() =~= before);
            assert(refs_view(dst@) =~= refs_view(before).push(refs_view(src@)[i as int]));
            assert(refs_view(src@).subrange(0, i + 1) =~= refs_view(src@).subrange(0, i as int).push(refs_view(src@)[i as int]));
            assert(refs_view(dst@) =~= refs_view(old(dst)@) + refs_view(src@).subrange(0, i + 1));
        }
        i = i + 1;
    }
    proof {
        assert(refs_view(src@).subrange(0, src@.len() as int) =~= refs_view(src@));
    }
}

impl ServiceActor {
    pub closed spec fn subscriptions_map(&self) -> Map<Seq<char>, Vec<ReactiveName>> {
        self.subscriptions.map()
    }

    pub closed spec fn reactives_map(&self) -> Map<Seq<char>, Reactive> {
        self.reactives.map()
    }

    pub closed spec fn topo_names(&self) -> Seq<Seq<char>> {
        names_of(self.topo@)
    }

    /// The closed views of a service are those of its tables.
    pub(crate) proof fn lemma_views(&self)
        ensures
            self.topo_names() == names_of(self.topo@),
            self.subscriptions_map() == self.subscriptions.map(),
            self.reactives_map() == self.reactives.map(),
            self.roots_map() == self.roots.map(),
            self.imports_map() == self.imports.map(),
            self.exports_map() == self.exports.map(),
            self.id() == self.id,
    {
    }

    pub closed spec fn roots_map(&self) -> Map<Seq<char>, Vec<ReactiveRef>> {
        self.roots.map()
    }

    pub closed spec fn imports_map(&self) -> Map<RefKey, Import> {
        self.imports.map()
    }

    pub closed spec fn exports_map(&self) -> Map<Seq<char>, Export> {
        self.exports.map()
    }

    /// Orders the reactives so that every one comes before the reactives
    /// that subscribe to it, by a depth-first walk from each reactive in
    /// table order; a cycle among subscriptions is a fault.
    fn recompute_topo(&mut self) -> (r: Result<(), Fault>)
        requires
            closed_graph(old(self).subscriptions_map()),
            forall|n: Seq<char>| #[trigger] old(self).reactives_map().contains_key(n)
                ==> old(self).subscriptions_map().contains_key(n),
        ensures
            final(self).id() == old(self).id(),
            final(self).queued == old(self).queued,
            final(self).held == old(self).held,
            final(self).reactives == old(self).reactives,
            final(self).subscriptions == old(self).subscriptions,
            final(self).imports == old(self).imports,
            final(self).exports == old(self).exports,
            final(self).roots == old(self).roots,
            final(self).iterations == old(self).iterations,
            final(self).preempted == old(self).preempted,
            r is Err ==> (r matches Err(Fault::Cyclical) && !acyclic(old(self).subscriptions_map())),
            r is Ok ==> topo_ordered(old(self).subscriptions_map(), final(self).topo_names())
                && (forall|n: Seq<char>| #[trigger] old(self).reactives_map().contains_key(n)
                    ==> final(self).topo_names().contains(n))
                && (forall|n: Seq<char>| #[trigger] final(self).topo_names().contains(n)
                    ==> old(self).subscriptions_map().contains_key(n)),
            r is Ok && closed_in(old(self).subscriptions_map(), old(self).reactives_map().dom()) ==> forall|n: Seq<char>|
                #[trigger] final(self).topo_names().contains(n) ==> old(self).reactives_map().contains_key(n),
    {
        let mut visited: Table<ReactiveName, bool> = Table::new();
        self.topo = Vec::new();
        let ghost g = self.subscriptions.map();
        proof {
            assert(names_of(self.topo@) =~= Seq::<Seq<char>>::empty());
            assert(visited.map().dom() =~= Set::<Seq<char>>::empty());
        }
        let n = self.reactives.len();
        proof {
            self.reactives.lemma_len();
            assert forall|m: Seq<char>| #[trigger] self.reactives.map().contains_key(m) implies g.contains_key(m) by {
                assert(old(self).reactives_map().contains_key(m));
            }
        }
        let mut i: usize = 0;
        while i < n
            invariant
                i <= n,
                n == self.reactives.size(),
                n == self.reactives.keys().len(),
                g == self.subscriptions.map(),
                closed_graph(g),
                forall|m: Seq<char>| #[trigger] self.reactives.map().contains_key(m) ==> g.contains_key(m),
                self.reactives == old(self).reactives,
                self.subscriptions == old(self).subscriptions,
                self.imports == old(self).imports,
                self.exports == old(self).exports,
                self.roots == old(self).roots,
                self.iterations == old(self).iterations,
                self.preempted == old(self).preempted,
                self.queued == old(self).queued,
                self.held == old(self).held,
                self.id == old(self).id,
                dfs_state(g, names_of(self.topo@), visited.map(), Seq::empty()),
                forall|j: int| 0 <= j < i ==> names_of(self.topo@).contains(#[trigger] self.reactives.keys()[j]),
                closed_in(g, self.reactives.map().dom()) ==> names_of(self.topo@).to_set().subset_of(self.reactives.map().dom()),
            decreases n - i,
        {
            let name = self.reactives.key_at(i).copy();
            let ghost before = names_of(self.topo@);
            let res = ServiceActor::topo_dfs(&self.subscriptions, &mut self.topo, &mut visited, name, Ghost(Seq::empty()),
                Ghost(self.reactives.map().dom()));
            match res {
                Ok(()) => {},
                Err(_) => {
                    return Err(Fault::Cyclical);
                },
            }
            proof {
                assert forall|j: int| 0 <= j < i + 1 implies names_of(self.topo@).contains(#[trigger] self.reactives.keys()[j]) by {
                    if j < i {
                        assert(before.contains(self.reactives.keys()[j]));
                        assert(before.to_set().contains(self.reactives.keys()[j]));
                    }
                }
            }
            i = i + 1;
        }
        proof {
            assert forall|m: Seq<char>| #[trigger] old(self).reactives_map().contains_key(m) implies self.topo_names().contains(m) by {
                let j = choose|j: int| 0 <= j < self.reactives.keys().len() && self.reactives.keys()[j] == m;
                assert(names_of(self.topo@).contains(self.reactives.keys()[j]));
            }
            assert forall|m: Seq<char>| #[trigger] self.topo_names().contains(m) implies g.contains_key(m) by {
                assert(visited.map().contains_key(m) && visited.map()[m]);
            }
        }
        Ok(())
    }
}

} // verus!

verus! {

/// The roots computed for local inputs do not depend on entries of other
/// names.
proof fn lemma_inputs_roots_frame(
    ins: Seq<RefKey>,
    id: u64,
    r1: Map<Seq<char>, Vec<ReactiveRef>>,
    r2: Map<Seq<char>, Vec<ReactiveRef>>,
    imports: Map<RefKey, Import>,
)
    requires
        forall|j: int| 0 <= j < ins.len() && (#[trigger] ins[j]).0 == id ==> r1.contains_key(ins[j].1) && r2.contains_key(ins[j].1)
            && r1[ins[j].1] == r2[ins[j].1],
    ensures
        inputs_roots(ins, id, r1, imports) == inputs_roots(ins, id, r2, imports),
    decreases ins.len(),
{
    if ins.len() > 0 {
        assert forall|j: int| 0 <= j < ins.drop_last().len() && (#[trigger] ins.drop_last()[j]).0 == id implies
            r1.contains_key(ins.drop_last()[j].1) && r2.contains_key(ins.drop_last()[j].1)
            && r1[ins.drop_last()[j].1] == r2[ins.drop_last()[j].1] by {
            assert(ins.drop_last()[j] == ins[j]);
        }
        lemma_inputs_roots_frame(ins.drop_last(), id, r1, r2, imports);
        if ins.last().0 == id {
            assert(ins[ins.len() - 1] == ins.last());
        }
    }
}

/// Whether every reactive of the order can get its roots: it is hosted,
/// the roots of its local inputs come earlier, and its other inputs are
/// imported; and every exported name is in the order.
pub open spec fn roots_known(
    topo: Seq<Seq<char>>,
    reactives: Map<Seq<char>, Reactive>,
    id: u64,
    imports: Map<RefKey, Import>,
    exports: Map<Seq<char>, Export>,
) -> bool {
    &&& forall|i: int| 0 <= i < topo.len() ==> reactives.contains_key(#[trigger] topo[i]) && inputs_known(
        reactive_inputs(reactives[topo[i]]),
        id,
        topo.subrange(0, i).to_set(),
        imports,
    )
    &&& forall|n: Seq<char>| #[trigger] exports.contains_key(n) ==> topo.contains(n)
}

/// The roots from other services among `s`.
pub open spec fn foreign(s: Set<RefKey>, id: u64) -> Set<RefKey> {
    s.filter(|r: RefKey| r.0 != id)
}

/// Copies the references of `v` that do not belong to service `id`.
pub(crate) fn foreign_refs(v: &Vec<ReactiveRef>, id: u64) -> (r: Vec<ReactiveRef>)
    ensures
        refs_view(r@).to_set() == foreign(refs_view(v@).to_set(), id),
{
    let mut r: Vec<ReactiveRef> = Vec::new();
    let mut i: usize = 0;
    while i < v.len()
        invariant
            i <= v@.len(),
            refs_view(r@).to_set() == foreign(refs_view(v@).subrange(0, i as int).to_set(), id),
        decreases v@.len() - i,
    {
        let ghost before = refs_view(r@);
        let ghost sub = refs_view(v@).subrange(0, i as int);
        proof {
            assert(refs_view(v@).subrange(0, i + 1) =~= sub.push(refs_view(v@)[i as int]));
            sub.lemma_push_to_set_commute(refs_view(v@)[i as int]);
        }
        if v[i].service != id {
            r.push(v[i].copy());
            proof {
                assert(refs_view(r@) =~= before.push(refs_view(v@)[i as int]));
                before.lemma_push_to_set_commute(refs_view(v@)[i as int]);
                assert(refs_view(r@).to_set() =~= foreign(refs_view(v@).subrange(0, i + 1).to_set(), id));
            }
        } else {
            proof {
                assert(refs_view(r@).to_set() =~= foreign(refs_view(v@).subrange(0, i + 1).to_set(), id));
            }
        }
        i = i + 1;
    }
    proof {
        assert(refs_view(v@).subrange(0, v@.len() as int) =~= refs_view(v@));
    }
    r
}

impl ServiceActor {
    /// Computes the roots of each reactive, in order: those of its inputs
    /// (the roots of a local input, the roots of an import), or the reactive
    /// itself when it reads nothing; then gives each export the roots of its
    /// reactive that belong to other services. A reactive whose roots cannot
    /// be had is a fault.
    fn recompute_roots(&mut self) -> (r: Result<(), Fault>)
        requires
            old(self).topo_names().no_duplicates(),
        ensures
            final(self).id() == old(self).id(),
            final(self).queued == old(self).queued,
            final(self).held == old(self).held,
            final(self).preempted == old(self).preempted,
            final(self).reactives == old(self).reactives,
            final(self).subscriptions == old(self).subscriptions,
            final(self).imports == old(self).imports,
            final(self).iterations == old(self).iterations,
            final(self).topo == old(self).topo,
            r is Ok <==> roots_known(old(self).topo_names(), old(self).reactives_map(), old(self).id(),
                old(self).imports_map(), old(self).exports_map()),
            r is Ok ==> final(self).roots_map().dom() == old(self).topo_names().to_set(),
            r is Ok ==> forall|n: Seq<char>| #[trigger] final(self).roots_map().contains_key(n) ==> refs_view(
                final(self).roots_map()[n]@).to_set() == expected_roots(n,
                reactive_inputs(old(self).reactives_map()[n]), old(self).id(), final(self).roots_map(),
                old(self).imports_map()),
            r is Ok ==> final(self).exports.keys() == old(self).exports.keys(),
            r is Ok ==> forall|n: Seq<char>| #[trigger] final(self).exports_map().contains_key(n) ==>
                final(self).exports_map()[n].importers == old(self).exports_map()[n].importers
                && refs_view(final(self).exports_map()[n].roots@).to_set() == foreign(
                    refs_view(final(self).roots_map()[n]@).to_set(), old(self).id()),
    {
        let ghost topo = names_of(self.topo@);
        let ghost reactives = self.reactives.map();
        let ghost imports = self.imports.map();
        let ghost id = self.id;
        self.roots = Table::new();
        proof {
            assert(topo.subrange(0, 0).to_set() =~= Set::<Seq<char>>::empty());
            assert(self.roots.map().dom() =~= Set::<Seq<char>>::empty());
        }
        let mut i: usize = 0;
        while i < self.topo.len()
            invariant
                i <= self.topo@.len(),
                topo == names_of(self.topo@),
                topo.no_duplicates(),
                reactives == self.reactives.map(),
                imports == self.imports.map(),
                id == self.id,
                self.id == old(self).id,
                self.queued == old(self).queued,
                self.held == old(self).held,
                self.preempted == old(self).preempted,
                self.reactives == old(self).reactives,
                self.subscriptions == old(self).subscriptions,
                self.imports == old(self).imports,
                self.iterations == old(self).iterations,
                self.topo == old(self).topo,
                self.exports == old(self).exports,
                self.roots.map().dom() == topo.subrange(0, i as int).to_set(),
                forall|a: int| 0 <= a < i ==> reactives.contains_key(#[trigger] topo[a]) && inputs_known(
                    reactive_inputs(reactives[topo[a]]), id, topo.subrange(0, a).to_set(), imports),
                forall|n: Seq<char>| #[trigger] self.roots.map().contains_key(n) ==> refs_view(self.roots.map()[n]@).to_set()
                    == expected_roots(n, reactive_inputs(reactives[n]), id, self.roots.map(), imports),
            decreases self.topo@.len() - i,
        {
            let ghost done = topo.subrange(0, i as int).to_set();
            let name = self.topo[i].copy();
            proof {
                assert(name@ == topo[i as int]);
            }
            let reactive = match self.reactives.get(&name) {
                Some(r) => r,
                None => {
                    return Err(Fault::Unknown);
                },
            };
            let ins = reactive.inputs();
            let ghost insv = refs_view(ins@);
            proof {
                assert(insv == reactive_inputs(reactives[name@]));
            }
            let mut roots: Vec<ReactiveRef> = Vec::new();
            proof {
                assert(insv.subrange(0, 0) =~= Seq::<RefKey>::empty());
                assert(refs_view(roots@).to_set() =~= Set::<RefKey>::empty());
            }
            let mut j: usize = 0;
            while j < ins.len()
                invariant
                    j <= ins@.len(),
                    insv == refs_view(ins@),
                    self.roots.map().dom() == done,
                    imports == self.imports.map(),
                    id == self.id,
                    refs_view(roots@).to_set() == inputs_roots(insv.subrange(0, j as int), id, self.roots.map(), imports),
                    inputs_known(insv.subrange(0, j as int), id, done, imports),
                    i < topo.len(),
                    topo == names_of(self.topo@),
                    name@ == topo[i as int],
                    reactives == self.reactives.map(),
                    insv == reactive_inputs(reactives[topo[i as int]]),
                    done == topo.subrange(0, i as int).to_set(),
                    self.id == old(self).id,
                    self.queued == old(self).queued,
                    self.held == old(self).held,
                    self.preempted == old(self).preempted,
                    self.reactives == old(self).reactives,
                    self.subscriptions == old(self).subscriptions,
                    self.imports == old(self).imports,
                    self.iterations == old(self).iterations,
                    self.topo == old(self).topo,
                    self.exports == old(self).exports,
                decreases ins@.len() - j,
            {
                let ghost sub = insv.subrange(0, j as int);
                proof {
                    assert(insv.subrange(0, j + 1).drop_last() =~= sub);
                    assert(insv.subrange(0, j + 1).last() == insv[j as int]);
                    assert(insv[j as int] == ins@[j as int]@);
                }
                let ghost before = refs_view(roots@);
                if ins[j].service == self.id {
                    match self.roots.get(&ins[j].name) {
                        Some(v) => {
                            extend_refs(&mut roots, v);
                            proof {
                                vstd::seq_lib::seq_to_set_distributes_over_add(before, refs_view(v@));
                                assert(insv[j as int].1 == ins@[j as int].name@);
                            }
                        },
                        None => {
                            proof {
                                assert(!inputs_known(insv, id, done, imports)) by {
                                    assert(insv[j as int].0 == id);
                                }
                                assert(!roots_known(topo, reactives, id, imports, old(self).exports.map())) by {
                                    if roots_known(topo, reactives, id, imports, old(self).exports.map()) {
                                        assert(reactives.contains_key(topo[i as int]));
                                    }
                                }
                            }
                            return Err(Fault::Unknown);
                        },
                    }
                } else {
                    match self.imports.get(&ins[j]) {
                        Some(imp) => {
                            extend_refs(&mut roots, &imp.roots);
                            proof {
                                vstd::seq_lib::seq_to_set_distributes_over_add(before, refs_view(imp.roots@));
                            }
                        },
                        None => {
                            proof {
                                assert(!inputs_known(insv, id, done, imports)) by {
                                    assert(insv[j as int].0 != id);
                                }
                                assert(!roots_known(topo, reactives, id, imports, old(self).exports.map())) by {
                                    if roots_known(topo, reactives, id, imports, old(self).exports.map()) {
                                        assert(reactives.contains_key(topo[i as int]));
                                    }
                                }
                            }
                            return Err(Fault::Unknown);
                        },
                    }
                }
                proof {
                    let nsub = insv.subrange(0, j + 1);
                    assert forall|m: int| 0 <= m < nsub.len() implies if (#[trigger] nsub[m]).0 == id {
                        done.contains(nsub[m].1)
                    } else {
                        imports.contains_key(nsub[m])
                    } by {
                        if m < j {
                            assert(nsub[m] == sub[m]);
                        }
                    }
                }
                j = j + 1;
            }
            proof {
                assert(insv.subrange(0, ins@.len() as int) =~= insv);
            }
            if ins.len() == 0 {
                let ghost before = refs_view(roots@);
                proof {
                    assert(insv.subrange(0, 0) =~= insv);
                    assert(before.to_set() == Set::<RefKey>::empty());
                }
                roots.push(ReactiveRef { service: self.id, name: name.copy() });
                proof {
                    assert(refs_view(roots@) =~= before.push((id, name@)));
                    before.lemma_push_to_set_commute((id, name@));
                    assert(refs_view(roots@).to_set() =~= Set::<RefKey>::empty().insert((id, name@)));
                }
            }
            let ghost old_roots = self.roots.map();
            let _ = self.roots.insert(name, roots);
            proof {
                assert(!done.contains(topo[i as int])) by {
                    if done.contains(topo[i as int]) {
                        let m = choose|m: int| 0 <= m < i && topo.subrange(0, i as int)[m] == topo[i as int];
                        assert(topo[m] == topo[i as int]);
                    }
                }
                assert(topo.subrange(0, i + 1) =~= topo.subrange(0, i as int).push(topo[i as int]));
                topo.subrange(0, i as int).lemma_push_to_set_commute(topo[i as int]);
                assert(self.roots.map().dom() =~= topo.subrange(0, i + 1).to_set());
                lemma_inputs_roots_frame(insv, id, old_roots, self.roots.map(), imports);
                assert forall|n: Seq<char>| #[trigger] self.roots.map().contains_key(n) implies refs_view(self.roots.map()[n]@).to_set()
                    == expected_roots(n, reactive_inputs(reactives[n]), id, self.roots.map(), imports) by {
                    if n != name@ {
                        assert(old_roots.contains_key(n));
                        let a = choose|a: int| 0 <= a < i && topo.subrange(0, i as int)[a] == n;
                        assert(topo[a] == n);
                        let ia = reactive_inputs(reactives[n]);
                        assert forall|m: int| 0 <= m < ia.len() && (#[trigger] ia[m]).0 == id implies old_roots.contains_key(ia[m].1)
                            && self.roots.map().contains_key(ia[m].1) && old_roots[ia[m].1] == self.roots.map()[ia[m].1] by {
                            assert(topo.subrange(0, a).to_set().contains(ia[m].1));
                            let b = choose|b: int| 0 <= b < a && topo.subrange(0, a)[b] == ia[m].1;
                            assert(topo[b] == ia[m].1);
                            assert(topo.subrange(0, i as int)[b] == ia[m].1);
                            assert(done.contains(ia[m].1));
                        }
                        lemma_inputs_roots_frame(ia, id, old_roots, self.roots.map(), imports);
                    }
                }
            }
            i = i + 1;
        }
        proof {
            assert(topo.subrange(0, topo.len() as int) =~= topo);
        }
        let ne = self.exports.len();
        proof {
            self.exports.lemma_len();
        }
        let ghost old_exports = self.exports.map();
        let ghost exp_keys = self.exports.keys();
        let mut k: usize = 0;
        while k < ne
            invariant
                k <= ne,
                ne == self.exports.size(),
                ne == self.exports.keys().len(),
                exp_keys == self.exports.keys(),
                old_exports == old(self).exports.map(),
                exp_keys == old(self).exports.keys(),
                self.id == old(self).id,
                self.queued == old(self).queued,
                self.held == old(self).held,
                self.preempted == old(self).preempted,
                self.reactives == old(self).reactives,
                self.subscriptions == old(self).subscriptions,
                self.imports == old(self).imports,
                self.iterations == old(self).iterations,
                self.topo == old(self).topo,
                self.roots.map().dom() == topo.to_set(),
                topo == names_of(self.topo@),
                reactives == self.reactives.map(),
                imports == self.imports.map(),
                id == self.id,
                forall|a: int| 0 <= a < topo.len() ==> reactives.contains_key(#[trigger] topo[a]) && inputs_known(
                    reactive_inputs(reactives[topo[a]]), id, topo.subrange(0, a).to_set(), imports),
                forall|n: Seq<char>| #[trigger] self.roots.map().contains_key(n) ==> refs_view(self.roots.map()[n]@).to_set()
                    == expected_roots(n, reactive_inputs(reactives[n]), id, self.roots.map(), imports),
                forall|a: int| 0 <= a < k ==> topo.contains(#[trigger] exp_keys[a]),
                forall|n: Seq<char>| #[trigger] self.exports.map().contains_key(n) ==>
                    self.exports.map()[n].importers == old_exports[n].importers,
                forall|a: int| 0 <= a < k ==> refs_view(self.exports.map()[#[trigger] exp_keys[a]].roots@).to_set()
                    == foreign(refs_view(self.roots.map()[exp_keys[a]]@).to_set(), id),
                forall|a: int| k <= a < ne ==> self.exports.map()[#[trigger] exp_keys[a]] == old_exports[exp_keys[a]],
            decreases ne - k,
        {
            let name = self.exports.key_at(k).copy();
            let filtered = match self.roots.get(&name) {
                Some(v) => foreign_refs(v, self.id),
                None => {
                    proof {
                        assert(old(self).exports_map().contains_key(name@));
                        assert(!topo.to_set().contains(name@));
                    }
                    return Err(Fault::Unknown);
                },
            };
            let ghost em = self.exports.map();
            proof {
                self.exports.lemma_len();
            }
            let old_export = self.exports.replace_at(k, Export { roots: Vec::new(), importers: Vec::new() });
            proof {
                self.exports.lemma_len();
            }
            let _ = self.exports.replace_at(k, Export { roots: filtered, importers: old_export.importers });
            let _ = self.exports.len();
            proof {
                assert(topo.to_set().contains(name@));
                assert forall|a: int| 0 <= a < k + 1 implies topo.contains(#[trigger] exp_keys[a]) by {
                    if a == k {
                        assert(topo.to_set().contains(exp_keys[a]));
                    }
                }
                self.exports.lemma_len();
                assert forall|a: int| 0 <= a < ne && a != k implies #[trigger] exp_keys[a] != exp_keys[k as int] by {}
            }
            k = k + 1;
        }
        proof {
            assert forall|n: Seq<char>| #[trigger] old(self).exports_map().contains_key(n) implies topo.contains(n) by {
                let a = choose|a: int| 0 <= a < exp_keys.len() && exp_keys[a] == n;
                assert(topo.contains(exp_keys[a]));
            }
        }
        Ok(())
    }
}

} // verus!

verus! {

/// A read waits for a value when it has returned none yet, or when a later
/// read of the same reactive is pending.
pub open spec fn read_due(r: Read) -> bool {
    r.complete@ == Map::<RefKey, u64>::empty() || r.pending@ != Map::<RefKey, u64>::empty()
}

/// Whether a due read of reactive `name` can now be answered: the reactive
/// has a value whose basis is not behind the read's pending basis on the
/// reactive's roots.
pub open spec fn read_fires(
    r: Read,
    name: Seq<char>,
    reactives: Map<Seq<char>, Reactive>,
    roots: Map<Seq<char>, Vec<ReactiveRef>>,
) -> bool {
    &&& read_due(r)
    &&& reactives.contains_key(name)
    &&& roots.contains_key(name)
    &&& reactives[name].current() matches Some(v)
    &&& stamp_prec_eq(r.pending@, v.basis@, refs_view(roots[name]@).to_set())
}

/// Whether answering the due reads among `keys`/`vals` finds every
/// reactive it needs, and the roots of every one with a value.
pub open spec fn reads_resolvable(
    keys: Seq<Seq<char>>,
    vals: Seq<Read>,
    reactives: Map<Seq<char>, Reactive>,
    roots: Map<Seq<char>, Vec<ReactiveRef>>,
) -> bool {
    forall|i: int| 0 <= i < keys.len() && read_due(#[trigger] vals[i]) ==> reactives.contains_key(keys[i]) && (
    reactives[keys[i]].current() is Some ==> roots.contains_key(keys[i]))
}

/// The answers to the reads among `keys`/`vals` of transaction `t`, in
/// order: the transaction, the reactive and its value.
pub open spec fn read_answers(
    t: TxKey,
    keys: Seq<Seq<char>>,
    vals: Seq<Read>,
    reactives: Map<Seq<char>, Reactive>,
    roots: Map<Seq<char>, Vec<ReactiveRef>>,
) -> Seq<(TxKey, Seq<char>, ExprV)>
    decreases keys.len(),
{
    if keys.len() == 0 || vals.len() < keys.len() {
        Seq::empty()
    } else {
        let n = (keys.len() - 1) as int;
        read_answers(t, keys.drop_last(), vals, reactives, roots) + if read_fires(vals[n], keys[n], reactives, roots) {
            seq![(t, keys[n], reactives[keys[n]].current().unwrap().value@)]
        } else {
            Seq::empty()
        }
    }
}

/// What a message answering a read carries.
pub open spec fn answer_view(e: Envelope) -> (TxKey, Seq<char>, ExprV) {
    match e.msg {
        Msg::ReturnedValue { txid, reactive, value, .. } => (txid@, reactive@, value@),
        _ => ((crate::new_runtime::message::TxPriority::High, 0, Seq::empty()), Seq::empty(), ExprV::Number { val: 0 }),
    }
}

} // verus!

verus! {

/// Whether `e` answers a read for service `service`, addressed to the
/// manager of the transaction.
pub open spec fn is_answer(e: Envelope, service: u64) -> bool {
    &&& e.msg matches Msg::ReturnedValue { txid, service: s, .. } && s == service
    &&& e.to matches Recipient::Manager(m) && m@ == answer_view(e).0.2
}

/// The answers that a list of messages carries.
pub open spec fn answers_of(out: Seq<Envelope>) -> Seq<(TxKey, Seq<char>, ExprV)> {
    out.map_values(|e: Envelope| answer_view(e))
}

/// The reads of `keys`/`old_vals` after answering: an answered read takes
/// the value's basis into its complete stamp; the others stay as they were.
pub open spec fn reads_after(
    keys: Seq<Seq<char>>,
    old_vals: Seq<Read>,
    new_vals: Seq<Read>,
    reactives: Map<Seq<char>, Reactive>,
    roots: Map<Seq<char>, Vec<ReactiveRef>>,
) -> bool {
    &&& new_vals.len() == old_vals.len()
    &&& forall|i: int| 0 <= i < keys.len() ==> (#[trigger] new_vals[i]).pending@ == old_vals[i].pending@
        && new_vals[i].complete@ == if read_fires(old_vals[i], keys[i], reactives, roots) {
            stamp_join(old_vals[i].complete@, reactives[keys[i]].current().unwrap().basis@)
        } else {
            old_vals[i].complete@
        }
}

} // verus!

verus! {

/// Answers the due reads of one lock's state that can be answered now.
fn answer_reads(
    state: &mut SharedLockState,
    txid: &TxId,
    reactives: &Table<ReactiveName, Reactive>,
    roots: &Table<ReactiveName, Vec<ReactiveRef>>,
    id: u64,
    out: &mut Vec<Envelope>,
) -> (r: Result<(), Fault>)
    ensures
        r is Ok <==> reads_resolvable(old(state).reads.keys(), old(state).reads.values(), reactives.map(), roots.map()),
        r matches Err(f) ==> f is Unknown,
        r is Ok ==> final(state).reads.keys() == old(state).reads.keys(),
        r is Ok ==> reads_after(old(state).reads.keys(), old(state).reads.values(), final(state).reads.values(),
            reactives.map(), roots.map()),
        r is Ok ==> final(out)@.len() >= old(out)@.len(),
        r is Ok ==> final(out)@.subrange(0, old(out)@.len() as int) == old(out)@,
        r is Ok ==> answers_of(final(out)@.subrange(old(out)@.len() as int, final(out)@.len() as int)) == read_answers(
            txid@, old(state).reads.keys(), old(state).reads.values(), reactives.map(), roots.map()),
        r is Ok ==> forall|j: int| old(out)@.len() <= j < final(out)@.len() ==> #[trigger] is_answer(final(out)@[j], id),
{
    let ghost keys = state.reads.keys();
    let ghost vals = state.reads.values();
    let ghost out0 = out@;
    let n = state.reads.len();
    proof {
        state.reads.lemma_len();
        assert(keys.subrange(0, 0) =~= Seq::<Seq<char>>::empty());
        assert(out@.subrange(out0.len() as int, out@.len() as int) =~= Seq::<Envelope>::empty());
        assert(answers_of(Seq::<Envelope>::empty()) =~= Seq::empty());
        assert(out@.subrange(0, out0.len() as int) =~= out0);
    }
    let mut i: usize = 0;
    while i < n
        invariant
            i <= n,
            n == state.reads.size(),
            n == keys.len(),
            n == vals.len(),
            keys == old(state).reads.keys(),
            vals == old(state).reads.values(),
            out0 == old(out)@,
            state.reads.keys() == keys,
            state.reads.values().len() == n,
            forall|a: int| i <= a < n ==> #[trigger] state.reads.values()[a] == vals[a],
            forall|a: int| 0 <= a < i ==> (#[trigger] state.reads.values()[a]).pending@ == vals[a].pending@
                && state.reads.values()[a].complete@ == if read_fires(vals[a], keys[a], reactives.map(), roots.map()) {
                    stamp_join(vals[a].complete@, reactives.map()[keys[a]].current().unwrap().basis@)
                } else {
                    vals[a].complete@
                },
            reads_resolvable(keys.subrange(0, i as int), vals, reactives.map(), roots.map()),
            out@.len() >= out0.len(),
            out@.subrange(0, out0.len() as int) == out0,
            answers_of(out@.subrange(out0.len() as int, out@.len() as int)) == read_answers(txid@, keys.subrange(0, i as int),
                vals, reactives.map(), roots.map()),
            forall|j: int| out0.len() <= j < out@.len() ==> #[trigger] is_answer(out@[j], id),
        decreases n - i,
    {
        let ghost sub = keys.subrange(0, i as int);
        proof {
            assert(keys.subrange(0, i + 1).drop_last() =~= sub);
            assert(keys.subrange(0, i + 1)[i as int] == keys[i as int]);
        }
        let rd = state.reads.value_at(i);
        let due = rd.complete.is_empty() || !rd.pending.is_empty();
        let ghost o = out@;
        if due {
            let name = state.reads.key_at(i);
            let reactive = match reactives.get(name) {
                Some(x) => x,
                None => {
                    proof {
                        assert(!reads_resolvable(keys, vals, reactives.map(), roots.map())) by {
                            assert(read_due(vals[i as int]));
                        }
                    }
                    return Err(Fault::Unknown);
                },
            };
            match reactive.value() {
                Some(v) => {
                    let rts = match roots.get(name) {
                        Some(x) => x,
                        None => {
                            proof {
                                assert(!reads_resolvable(keys, vals, reactives.map(), roots.map())) by {
                                    assert(read_due(vals[i as int]));
                                }
                            }
                            return Err(Fault::Unknown);
                        },
                    };
                    if rd.pending.prec_eq_wrt_roots(&v.basis, rts) {
                        out.push(Envelope {
                            to: Recipient::Manager(txid.manager.clone()),
                            msg: Msg::ReturnedValue { txid: txid.copy(), service: id, reactive: name.copy(), value: v.value.copy() },
                        });
                        let basis = v.basis.copy();
                        let mut updated = state.reads.replace_at(i, Read { pending: BasisStamp::empty(), complete: BasisStamp::empty() });
                        proof {
                            state.reads.lemma_len();
                        }
                        updated.complete.merge_from(&basis);
                        let _ = state.reads.replace_at(i, updated);
                        proof {
                            assert(read_fires(vals[i as int], keys[i as int], reactives.map(), roots.map()));
                            assert(out@.subrange(out0.len() as int, out@.len() as int) =~= o.subrange(out0.len() as int, o.len() as int).push(out@.last()));
                            assert(answers_of(out@.subrange(out0.len() as int, out@.len() as int)) =~= answers_of(o.subrange(out0.len() as int, o.len() as int)).push(answer_view(out@.last())));
                        }
                    } else {
                        proof {
                            assert(!read_fires(vals[i as int], keys[i as int], reactives.map(), roots.map()));
                        }
                    }
                },
                None => {},
            }
        }
        proof {
            state.reads.lemma_len();
            assert(out@.subrange(0, out0.len() as int) =~= out0) by {
                if out@.len() > o.len() {
                    assert(out@.subrange(0, out0.len() as int) =~= o.subrange(0, out0.len() as int));
                }
            }
            assert forall|j: int| out0.len() <= j < out@.len() implies #[trigger] is_answer(out@[j], id) by {
                if j < o.len() {
                    assert(out@[j] == o[j]);
                }
            }
            assert forall|a: int| 0 <= a < keys.subrange(0, i + 1).len() && read_due(#[trigger] vals[a]) implies reactives.map().contains_key(
                keys.subrange(0, i + 1)[a]) && (reactives.map()[keys.subrange(0, i + 1)[a]].current() is Some
                ==> roots.map().contains_key(keys.subrange(0, i + 1)[a])) by {
                if a < i {
                    assert(keys.subrange(0, i + 1)[a] == sub[a]);
                }
            }
        }
        i = i + 1;
    }
    proof {
        assert(keys.subrange(0, n as int) =~= keys);
    }
    Ok(())
}

} // verus!

verus! {

/// The answers to the reads of the locks `locks`, lock by lock in order.
pub open spec fn locks_answers(
    locks: Seq<(TxId, SharedLockState)>,
    reactives: Map<Seq<char>, Reactive>,
    roots: Map<Seq<char>, Vec<ReactiveRef>>,
) -> Seq<(TxKey, Seq<char>, ExprV)>
    decreases locks.len(),
{
    if locks.len() == 0 {
        Seq::empty()
    } else {
        locks_answers(locks.drop_last(), reactives, roots) + read_answers(
            locks.last().0@,
            locks.last().1.reads.keys(),
            locks.last().1.reads.values(),
            reactives,
            roots,
        )
    }
}

/// A lock's state after its reads are answered.
pub open spec fn lock_after(
    old: SharedLockState,
    new: SharedLockState,
    reactives: Map<Seq<char>, Reactive>,
    roots: Map<Seq<char>, Vec<ReactiveRef>>,
) -> bool {
    &&& new.reads.keys() == old.reads.keys()
    &&& reads_after(old.reads.keys(), old.reads.values(), new.reads.values(), reactives, roots)
}

/// The answers owed to the holders of `held`, and whether they can be had.
pub open spec fn held_answers(
    held: HeldLocks,
    reactives: Map<Seq<char>, Reactive>,
    roots: Map<Seq<char>, Vec<ReactiveRef>>,
) -> (bool, Seq<(TxKey, Seq<char>, ExprV)>) {
    match held {
        HeldLocks::Free => (true, Seq::empty()),
        HeldLocks::Shared(v) => (
            forall|j: int| 0 <= j < v@.len() ==> reads_resolvable(
                (#[trigger] v@[j]).1.reads.keys(),
                v@[j].1.reads.values(),
                reactives,
                roots,
            ),
            locks_answers(v@, reactives, roots),
        ),
        HeldLocks::Exclusive(t, s, _) => (
            reads_resolvable(s.reads.keys(), s.reads.values(), reactives, roots),
            read_answers(t@, s.reads.keys(), s.reads.values(), reactives, roots),
        ),
    }
}

/// The held locks after their reads are answered: the same locks, each
/// lock's reads answered.
pub open spec fn held_after(
    old: HeldLocks,
    new: HeldLocks,
    reactives: Map<Seq<char>, Reactive>,
    roots: Map<Seq<char>, Vec<ReactiveRef>>,
) -> bool {
    match (old, new) {
        (HeldLocks::Free, HeldLocks::Free) => true,
        (HeldLocks::Shared(v), HeldLocks::Shared(w)) => shared_keys(w@) == shared_keys(v@) && forall|j: int|
            0 <= j < v@.len() ==> lock_after((#[trigger] v@[j]).1, w@[j].1, reactives, roots),
        (HeldLocks::Exclusive(t, s, e), HeldLocks::Exclusive(t2, s2, e2)) => t2@ == t@ && e2 == e && lock_after(
            s,
            s2,
            reactives,
            roots,
        ),
        _ => false,
    }
}

impl ServiceActor {
    /// Answers every due read of every held lock that can be answered now,
    /// lock by lock in order.
    fn grant_reads(&mut self, out: &mut Vec<Envelope>) -> (r: Result<(), Fault>)
        requires
            old(self).locks_wf(),
        ensures
            final(self).id == old(self).id,
            final(self).queued == old(self).queued,
            final(self).preempted == old(self).preempted,
            final(self).reactives == old(self).reactives,
            final(self).subscriptions == old(self).subscriptions,
            final(self).imports == old(self).imports,
            final(self).exports == old(self).exports,
            final(self).iterations == old(self).iterations,
            final(self).roots == old(self).roots,
            final(self).topo == old(self).topo,
            r is Ok <==> held_answers(old(self).held, old(self).reactives.map(), old(self).roots.map()).0,
            r matches Err(f) ==> f is Unknown,
            r is Ok ==> final(self).locks_wf(),
            r is Ok ==> held_after(old(self).held, final(self).held, old(self).reactives.map(), old(self).roots.map()),
            r is Ok ==> final(self).held.view() == old(self).held.view(),
            r is Ok ==> final(out)@.len() >= old(out)@.len(),
            r is Ok ==> final(out)@.subrange(0, old(out)@.len() as int) == old(out)@,
            r is Ok ==> answers_of(final(out)@.subrange(old(out)@.len() as int, final(out)@.len() as int))
                == held_answers(old(self).held, old(self).reactives.map(), old(self).roots.map()).1,
            r is Ok ==> forall|j: int| old(out)@.len() <= j < final(out)@.len() ==> #[trigger] is_answer(final(out)@[j], old(self).id),
    {
        let mut held = HeldLocks::Free;
        std::mem::swap(&mut held, &mut self.held);
        let ghost h0 = held;
        let ghost out0 = out@;
        proof {
            assert(out@.subrange(out0.len() as int, out@.len() as int) =~= Seq::<Envelope>::empty());
            assert(answers_of(Seq::<Envelope>::empty()) =~= Seq::empty());
            assert(out@.subrange(0, out0.len() as int) =~= out0);
        }
        match held {
            HeldLocks::Free => {
                self.held = held;
                Ok(())
            },
            HeldLocks::Exclusive(t, mut s, e) => {
                let res = answer_reads(&mut s, &t, &self.reactives, &self.roots, self.id, out);
                self.held = HeldLocks::Exclusive(t, s, e);
                res
            },
            HeldLocks::Shared(mut v) => {
                let ghost v0 = v@;
                let n = v.len();
                let mut j: usize = 0;
                proof {
                    assert(v0.subrange(0, 0) =~= Seq::<(TxId, SharedLockState)>::empty());
                }
                while j < n
                    invariant
                        j <= n,
                        n == v@.len(),
                        v0.len() == n,
                        old(self).held is Shared,
                        h0 == HeldLocks::Shared(old(self).held->Shared_0),
                        v0 == old(self).held->Shared_0@,
                        old(self).held.wf(),
                        shared_keys(v@) == shared_keys(v0),
                        forall|a: int| j <= a < n ==> #[trigger] v@[a] == v0[a],
                        forall|a: int| 0 <= a < j ==> lock_after((#[trigger] v0[a]).1, v@[a].1, self.reactives.map(), self.roots.map()),
                        forall|a: int| 0 <= a < j ==> reads_resolvable((#[trigger] v0[a]).1.reads.keys(), v0[a].1.reads.values(),
                            self.reactives.map(), self.roots.map()),
                        out@.len() >= out0.len(),
                        out0 == old(out)@,
                        out@.subrange(0, out0.len() as int) == out0,
                        answers_of(out@.subrange(out0.len() as int, out@.len() as int)) == locks_answers(v0.subrange(0, j as int),
                            self.reactives.map(), self.roots.map()),
                        forall|k: int| out0.len() <= k < out@.len() ==> #[trigger] is_answer(out@[k], self.id),
                        self.id == old(self).id,
                        self.queued == old(self).queued,
                        self.preempted == old(self).preempted,
                        self.reactives == old(self).reactives,
                        self.subscriptions == old(self).subscriptions,
                        self.imports == old(self).imports,
                        self.exports == old(self).exports,
                        self.iterations == old(self).iterations,
                        self.roots == old(self).roots,
                        self.topo == old(self).topo,
                    decreases n - j,
                {
                    let (t, mut st) = v.remove(j);
                    let ghost o = out@;
                    let res = answer_reads(&mut st, &t, &self.reactives, &self.roots, self.id, out);
                    let ghost tv = t@;
                    v.insert(j, (t, st));
                    match res {
                        Ok(()) => {},
                        Err(f) => {
                            proof {
                                assert(!reads_resolvable(v0[j as int].1.reads.keys(), v0[j as int].1.reads.values(),
                                    self.reactives.map(), self.roots.map()));
                                assert(old(self).held->Shared_0@[j as int] == v0[j as int]);
                            }
                            self.held = HeldLocks::Shared(v);
                            return Err(f);
                        },
                    }
                    proof {
                        assert(shared_keys(v@) =~= shared_keys(v0)) by {
                            assert forall|a: int| 0 <= a < n implies shared_keys(v@)[a] == shared_keys(v0)[a] by {
                                if a != j {
                                    assert(shared_keys(v@)[a] == v@[a].0@);
                                }
                            }
                        }
                        assert(v0.subrange(0, j + 1).drop_last() =~= v0.subrange(0, j as int));
                        assert(v0.subrange(0, j + 1).last() == v0[j as int]);
                        let seg0 = o.subrange(out0.len() as int, o.len() as int);
                        let seg1 = out@.subrange(o.len() as int, out@.len() as int);
                        assert(out@.subrange(out0.len() as int, out@.len() as int) =~= seg0 + seg1);
                        assert(answers_of(seg0 + seg1) =~= answers_of(seg0) + answers_of(seg1));
                        assert(out@.subrange(0, out0.len() as int) =~= o.subrange(0, out0.len() as int));
                        assert forall|k: int| out0.len() <= k < out@.len() implies #[trigger] is_answer(out@[k], self.id) by {
                            if k < o.len() {
                                assert(out@[k] == o[k]);
                            }
                        }
                    }
                    j = j + 1;
                }
                proof {
                    assert(v0.subrange(0, n as int) =~= v0);
                    assert(shared_keys(v@) == shared_keys(v0));
                }
                self.held = HeldLocks::Shared(v);
                Ok(())
            },
        }
    }
}

} // verus!

verus! {

/// Whether `names` holds `n`.
fn names_contain(names: &Vec<ReactiveName>, n: &ReactiveName) -> (r: bool)
    ensures
        r == names_of(names@).contains(n@),
{
    let mut i: usize = 0;
    while i < names.len()
        invariant
            i <= names@.len(),
            forall|j: int| 0 <= j < i ==> names@[j]@ != n@,
        decreases names@.len() - i,
    {
        if names[i].same(n) {
            proof {
                assert(names_of(names@)[i as int] == n@);
            }
            return true;
        }
        i = i + 1;
    }
    proof {
        if names_of(names@).contains(n@) {
            let j = choose|j: int| 0 <= j < names_of(names@).len() && names_of(names@)[j] == n@;
            assert(names@[j]@ == n@);
        }
    }
    false
}

/// The position in `topo` of the first name of `modified`, or the length
/// of `topo` when there is none.
pub open spec fn first_modified(topo: Seq<Seq<char>>, modified: Seq<Seq<char>>) -> int
    decreases topo.len(),
{
    if topo.len() == 0 {
        0
    } else if modified.contains(topo[0]) {
        0
    } else {
        1 + first_modified(topo.subrange(1, topo.len() as int), modified)
    }
}

/// A name of the order that was modified lies at or after the first
/// modified position.
pub(crate) proof fn lemma_first_modified_le(topo: Seq<Seq<char>>, modified: Seq<Seq<char>>, a: int)
    requires
        0 <= a < topo.len(),
        modified.contains(topo[a]),
    ensures
        first_modified(topo, modified) <= a,
    decreases a,
{
    if !modified.contains(topo[0]) {
        let rest = topo.subrange(1, topo.len() as int);
        assert(rest[a - 1] == topo[a]);
        lemma_first_modified_le(rest, modified, a - 1);
    }
}

proof fn lemma_first_modified(topo: Seq<Seq<char>>, modified: Seq<Seq<char>>, i: int)
    requires
        0 <= i <= topo.len(),
        forall|a: int| 0 <= a < i ==> !modified.contains(#[trigger] topo[a]),
    ensures
        first_modified(topo, modified) >= i,
        i < topo.len() && modified.contains(topo[i]) ==> first_modified(topo, modified) == i,
    decreases i,
{
    if i > 0 {
        let rest = topo.subrange(1, topo.len() as int);
        assert forall|a: int| 0 <= a < i - 1 implies !modified.contains(#[trigger] rest[a]) by {
            assert(rest[a] == topo[a + 1]);
        }
        lemma_first_modified(rest, modified, i - 1);
        assert(!modified.contains(topo[0]));
        if i < topo.len() {
            assert(rest[i - 1] == topo[i]);
        }
    } else {
        lemma_first_modified_nonneg(topo, modified);
    }
}

proof fn lemma_first_modified_nonneg(topo: Seq<Seq<char>>, modified: Seq<Seq<char>>)
    ensures
        0 <= first_modified(topo, modified) <= topo.len(),
    decreases topo.len(),
{
    if topo.len() > 0 && !modified.contains(topo[0]) {
        lemma_first_modified_nonneg(topo.subrange(1, topo.len() as int), modified);
    }
}

/// Whether `e` propagates a value of reactive `name` of service `id` to
/// another service.
pub open spec fn is_propagation(e: Envelope, id: u64) -> bool {
    &&& e.msg matches Msg::Propagate { sender, .. } && sender.service == id
    &&& e.to is Service
}

/// Whether each variable of `before` is still a variable of `after`, with
/// the same current value.
pub open spec fn vars_kept(before: Map<Seq<char>, Reactive>, after: Map<Seq<char>, Reactive>) -> bool {
    forall|m: Seq<char>| #[trigger] before.contains_key(m) && before[m].definition() is None ==> after.contains_key(m)
        && after[m].definition() is None && after[m].current() == before[m].current()
}

/// Whether every definition among `reactives` holds the value of its
/// expression over its inputs' values (see `Reactive::up_to_date`).
pub open spec fn values_current(reactives: Map<Seq<char>, Reactive>) -> bool {
    forall|n: Seq<char>| #[trigger] reactives.contains_key(n) ==> reactives[n].up_to_date()
}

/// Whether each definition of `before` still has, in `after`, the latest
/// news it had of each input from another service than `id`.
pub open spec fn news_kept(before: Map<Seq<char>, Reactive>, after: Map<Seq<char>, Reactive>, id: u64) -> bool {
    forall|m: Seq<char>, k: RefKey, v: (crate::ast::ExprV, Map<RefKey, u64>)| #![trigger after[m].input_latest(k, v)]
        #![trigger before[m].input_latest(k, v)] k.0 != id && before.contains_key(m) && before[m].input_latest(k, v)
        ==> after.contains_key(m) && after[m].input_latest(k, v)
}

/// The latest news that definitions named in `names` had of input `k`, from
/// another service than `id`, they still have after a change that keeps news.
pub(crate) proof fn lemma_news_reaches(
    before: Map<Seq<char>, Reactive>,
    after: Map<Seq<char>, Reactive>,
    id: u64,
    names: Seq<Seq<char>>,
    k: RefKey,
    v: (crate::ast::ExprV, Map<RefKey, u64>),
)
    requires
        news_kept(before, after, id),
        k.0 != id,
        forall|j: int| 0 <= j < names.len() ==> before.contains_key(#[trigger] names[j]) && before[names[j]].input_latest(k, v),
    ensures
        forall|j: int| 0 <= j < names.len() ==> after.contains_key(#[trigger] names[j]) && after[names[j]].input_latest(k, v),
{
    assert forall|j: int| 0 <= j < names.len() implies after.contains_key(#[trigger] names[j])
        && after[names[j]].input_latest(k, v) by {
        let m = names[j];
        assert(before.contains_key(m) && before[m].input_latest(k, v));
        assert(k.0 != id && before.contains_key(m) && before[m].input_latest(k, v) ==> after.contains_key(m)
            && after[m].input_latest(k, v));
    }
}

/// Whether `a` and `b` have the same names, and give each the same kind of
/// reactive reading the same inputs.
pub open spec fn same_shape(a: Map<Seq<char>, Reactive>, b: Map<Seq<char>, Reactive>) -> bool {
    &&& a.dom() == b.dom()
    &&& forall|m: Seq<char>| #[trigger] a.contains_key(m) ==> reactive_inputs(a[m]) == reactive_inputs(b[m])
        && (a[m].definition() is Some <==> b[m].definition() is Some)
}

/// Whether `m` may receive the values of `n`: another hosted reactive, a
/// definition that reads `n`.
pub(crate) open spec fn subscriber_ok(s: &ServiceActor, n: Seq<char>, m: Seq<char>) -> bool {
    &&& m != n
    &&& s.reactives.map().contains_key(m)
    &&& s.reactives.map()[m].definition() matches Some(d) && d.inputs().map().contains_key((s.id, n))
}

/// Whether the roots of input `k` are known: a local input's as a root
/// entry, an imported one's as an import.
pub(crate) open spec fn input_known(s: &ServiceActor, k: RefKey) -> bool {
    if k.0 == s.id {
        s.roots.map().contains_key(k.1)
    } else {
        s.imports.map().contains_key(k)
    }
}

/// Whether reactive `n` can be propagated from: it is hosted, its
/// subscribers may receive its values, and its inputs' roots are known.
pub(crate) open spec fn sound_at(s: &ServiceActor, n: Seq<char>) -> bool {
    &&& s.reactives.map().contains_key(n)
    &&& s.subscriptions.map().contains_key(n)
    &&& forall|j: int| 0 <= j < s.subscriptions.map()[n]@.len() ==> subscriber_ok(s, n, #[trigger] s.subscriptions.map()[n]@[j]@)
    &&& forall|j: int| 0 <= j < reactive_inputs(s.reactives.map()[n]).len() ==> input_known(s,
        #[trigger] reactive_inputs(s.reactives.map()[n])[j])
}

/// Whether propagation along the dependency order can fail only in
/// evaluating a definition: every name in the order can be propagated from.
pub(crate) open spec fn propagation_sound(s: &ServiceActor) -> bool {
    forall|a: int| 0 <= a < s.topo@.len() ==> #[trigger] sound_at(s, names_of(s.topo@)[a])
}

/// Propagation stays sound across a change that keeps the shape of the
/// reactives and the subscriptions, roots, imports and order.
pub(crate) proof fn lemma_sound_transfer(s1: &ServiceActor, s2: &ServiceActor)
    requires
        propagation_sound(s1),
        same_shape(s1.reactives.map(), s2.reactives.map()),
        s1.subscriptions.map() == s2.subscriptions.map(),
        s1.roots.map() == s2.roots.map(),
        s1.imports.map() == s2.imports.map(),
        s1.topo@ == s2.topo@,
        s1.id == s2.id,
    ensures
        propagation_sound(s2),
{
    assert forall|a: int| 0 <= a < s2.topo@.len() implies #[trigger] sound_at(s2, names_of(s2.topo@)[a]) by {
        let n = names_of(s1.topo@)[a];
        assert(sound_at(s1, n));
        assert forall|j: int| 0 <= j < s2.subscriptions.map()[n]@.len() implies subscriber_ok(s2, n,
            #[trigger] s2.subscriptions.map()[n]@[j]@) by {
            let m = s2.subscriptions.map()[n]@[j]@;
            assert(subscriber_ok(s1, n, m));
            let d = s1.reactives.map()[m].definition()->Some_0;
            assert(reactive_inputs(s1.reactives.map()[m]) == d.inputs().keys());
            assert(d.inputs().keys().contains((s1.id, n)));
            let d2 = s2.reactives.map()[m].definition()->Some_0;
            assert(reactive_inputs(s2.reactives.map()[m]) == d2.inputs().keys());
        }
        assert forall|j: int| 0 <= j < reactive_inputs(s2.reactives.map()[n]).len() implies input_known(s2,
            #[trigger] reactive_inputs(s2.reactives.map()[n])[j]) by {
            assert(reactive_inputs(s1.reactives.map()[n])[j] == reactive_inputs(s2.reactives.map()[n])[j]);
        }
    }
}

/// Whether the hosted reactive `b` reads the local reactive `a`.
pub open spec fn reads_local(reactives: Map<Seq<char>, Reactive>, id: u64, b: Seq<char>, a: Seq<char>) -> bool {
    reactives.contains_key(b) && reactive_inputs(reactives[b]).contains((id, a))
}

/// Whether the subscriptions are exactly the local reads: `b` subscribes to
/// `a` just when the hosted reactive `b` reads `a`, and each name that a
/// hosted reactive reads has a list of subscribers.
pub(crate) open spec fn subs_exact(s: &ServiceActor) -> bool {
    &&& forall|a: Seq<char>, b: Seq<char>| #![trigger edge(s.subscriptions.map(), a, b)]
        #![trigger reads_local(s.reactives.map(), s.id, b, a)]
        edge(s.subscriptions.map(), a, b) <==> reads_local(s.reactives.map(), s.id, b, a)
    &&& forall|a: Seq<char>, b: Seq<char>| #[trigger] reads_local(s.reactives.map(), s.id, b, a)
        ==> s.subscriptions.map().contains_key(a)
}

/// Exact subscriptions stay exact across a change that keeps the shape of
/// the reactives and the subscriptions.
pub(crate) proof fn lemma_subs_exact_transfer(s1: &ServiceActor, s2: &ServiceActor)
    requires
        subs_exact(s1),
        same_shape(s1.reactives.map(), s2.reactives.map()),
        s1.subscriptions.map() == s2.subscriptions.map(),
        s1.id == s2.id,
    ensures
        subs_exact(s2),
{
    assert forall|a: Seq<char>, b: Seq<char>| reads_local(s2.reactives.map(), s2.id, b, a) == reads_local(s1.reactives.map(),
        s1.id, b, a) by {
        if s1.reactives.map().contains_key(b) {
            assert(reactive_inputs(s1.reactives.map()[b]) == reactive_inputs(s2.reactives.map()[b]));
        }
        assert(s1.reactives.map().contains_key(b) == s2.reactives.map().contains_key(b));
    }
}

/// The reactives that configuration `c` reads, all of service `id`.
pub open spec fn config_reads(c: crate::new_runtime::message::ReactiveConfiguration, id: u64) -> Set<RefKey> {
    match c {
        crate::new_runtime::message::ReactiveConfiguration::Definition { expr } => crate::new_runtime::evaluator::reads_of(
            Seq::empty(), expr@, id).to_set(),
        _ => Set::empty(),
    }
}

/// Whether `out`, from position `from` on, sends service `to` the value `v`
/// of reactive `n` of service `id`.
pub open spec fn sends_value(out: Seq<Envelope>, from: int, to: u64, id: u64, n: Seq<char>, v: crate::ast::ExprV) -> bool {
    exists|j: int| from <= j < out.len() && out[j].to == Recipient::Service(to)
        && (out[j].msg matches Msg::Propagate { sender, value } && sender@ == (id, n) && value.value@ == v)
}

/// Whether `out`, from position `from` on, sends the value `v` of reactive
/// `n` of service `id` to every service importing it in `exports`.
pub open spec fn sent_to_importers(out: Seq<Envelope>, from: int, exports: Map<Seq<char>, Export>, id: u64, n: Seq<char>,
    v: crate::ast::ExprV) -> bool {
    forall|j: int| 0 <= j < exports[n].importers@.len() ==> sends_value(out, from, #[trigger] exports[n].importers@[j], id, n, v)
}

/// Whether each reactive outside `skip` that `exports` exports, and whose
/// value in `after` differs from that in `before` or which was marked as
/// changed with a value in `before` and is no longer so marked, has its
/// value in `after` sent, in `out` from position `from` on, to every service
/// importing it.
pub open spec fn changes_sent(
    before: Map<Seq<char>, Reactive>,
    after: Map<Seq<char>, Reactive>,
    exports: Map<Seq<char>, Export>,
    out: Seq<Envelope>,
    from: int,
    id: u64,
    skip: Set<Seq<char>>,
) -> bool {
    forall|n: Seq<char>| #![trigger after[n].current()] after.contains_key(n) && before.contains_key(n) && !skip.contains(n)
        && (after[n].current() != before[n].current() || (before[n].changed() && before[n].current() is Some
        && !after[n].changed())) && exports.contains_key(n) ==> after[n].current() is Some
        && forall|j: int| 0 <= j < exports[n].importers@.len() ==> sends_value(out, from, #[trigger] exports[n].importers@[j], id,
        n, after[n].current()->Some_0.value@)
}

/// What is sent stays sent as more messages follow.
proof fn lemma_changes_sent_extend(
    before: Map<Seq<char>, Reactive>,
    after: Map<Seq<char>, Reactive>,
    exports: Map<Seq<char>, Export>,
    out: Seq<Envelope>,
    out2: Seq<Envelope>,
    from: int,
    id: u64,
    skip: Set<Seq<char>>,
)
    requires
        changes_sent(before, after, exports, out, from, id, skip),
        0 <= from,
        out.len() <= out2.len(),
        out2.subrange(0, out.len() as int) == out,
    ensures
        changes_sent(before, after, exports, out2, from, id, skip),
{
    assert forall|n: Seq<char>| #![trigger after[n].current()] after.contains_key(n) && before.contains_key(n) && !skip.contains(n)
        && (after[n].current() != before[n].current() || (before[n].changed() && before[n].current() is Some
        && !after[n].changed())) && exports.contains_key(n) implies after[n].current() is Some
        && forall|j: int| 0 <= j < exports[n].importers@.len() ==> sends_value(out2, from, #[trigger] exports[n].importers@[j],
        id, n, after[n].current()->Some_0.value@) by {
        assert forall|j: int| 0 <= j < exports[n].importers@.len() implies sends_value(out2, from,
            #[trigger] exports[n].importers@[j], id, n, after[n].current()->Some_0.value@) by {
            assert(sends_value(out, from, exports[n].importers@[j], id, n, after[n].current()->Some_0.value@));
            let w = choose|w: int| from <= w < out.len() && out[w].to == Recipient::Service(exports[n].importers@[j])
                && (out[w].msg matches Msg::Propagate { sender, value } && sender@ == (id, n)
                && value.value@ == after[n].current()->Some_0.value@);
            assert(out2[w] == out2.subrange(0, out.len() as int)[w]);
        }
    }
}

/// Whether every reactive is well formed and hosted by service `id`.
pub open spec fn reactives_wf(reactives: Map<Seq<char>, Reactive>, id: u64) -> bool {
    forall|n: Seq<char>| #[trigger] reactives.contains_key(n) ==> reactives[n].wf() && reactives[n].service() == id
}

impl ServiceActor {
    /// The roots of each input in `inputs`: a local input's roots as the
    /// service knows them, an imported one's as its import says.
    fn inputs_roots_table(&self, inputs: &Vec<ReactiveRef>) -> (r: Result<Table<ReactiveRef, Vec<ReactiveRef>>, Fault>)
        ensures
            r matches Err(f) ==> f is Unknown,
            r is Err <==> exists|j: int| 0 <= j < inputs@.len() && if (#[trigger] inputs@[j]).service == self.id {
                !self.roots.map().contains_key(inputs@[j].name@)
            } else {
                !self.imports.map().contains_key(inputs@[j]@)
            },
            r matches Ok(t) ==> forall|j: int| 0 <= j < inputs@.len() ==> t.map().contains_key((#[trigger] inputs@[j])@)
                && refs_view(t.map()[inputs@[j]@]@) == if inputs@[j].service == self.id {
                    refs_view(self.roots.map()[inputs@[j].name@]@)
                } else {
                    refs_view(self.imports.map()[inputs@[j]@].roots@)
                },
    {
        let mut t: Table<ReactiveRef, Vec<ReactiveRef>> = Table::new();
        let mut i: usize = 0;
        while i < inputs.len()
            invariant
                i <= inputs@.len(),
                forall|j: int| 0 <= j < i ==> if (#[trigger] inputs@[j]).service == self.id {
                    self.roots.map().contains_key(inputs@[j].name@)
                } else {
                    self.imports.map().contains_key(inputs@[j]@)
                },
                forall|k: RefKey| #[trigger] t.map().contains_key(k) ==> refs_view(t.map()[k]@) == if k.0 == self.id {
                    refs_view(self.roots.map()[k.1]@)
                } else {
                    refs_view(self.imports.map()[k].roots@)
                },
                forall|j: int| 0 <= j < i ==> t.map().contains_key((#[trigger] inputs@[j])@),
            decreases inputs@.len() - i,
        {
            let input = &inputs[i];
            if input.service == self.id {
                match self.roots.get(&input.name) {
                    Some(v) => {
                        let _ = t.insert(input.copy(), crate::new_runtime::service::batch::copy_refs(v));
                    },
                    None => {
                        return Err(Fault::Unknown);
                    },
                }
            } else {
                match self.imports.get(input) {
                    Some(imp) => {
                        let _ = t.insert(input.copy(), crate::new_runtime::service::batch::copy_refs(&imp.roots));
                    },
                    None => {
                        return Err(Fault::Unknown);
                    },
                }
            }
            i = i + 1;
        }
        Ok(t)
    }
}

} // verus!

verus! {

impl ServiceActor {
    /// Propagates new values along the dependency order, starting at the
    /// first reactive of `modified` in the order: each reactive gives its
    /// next values one by one; each value goes as an update to the
    /// subscribers, and to the services importing the reactive (without the
    /// roots of this service that are not exported). Then the reads that can
    /// now be answered are.
    fn propagate(&mut self, modified: &Vec<ReactiveName>, out: &mut Vec<Envelope>) -> (r: Result<(), Fault>)
        requires
            old(self).locks_wf(),
            reactives_wf(old(self).reactives.map(), old(self).id),
        ensures
            final(self).id == old(self).id,
            final(self).queued == old(self).queued,
            final(self).preempted == old(self).preempted,
            final(self).subscriptions == old(self).subscriptions,
            final(self).imports == old(self).imports,
            final(self).exports == old(self).exports,
            final(self).iterations == old(self).iterations,
            final(self).roots == old(self).roots,
            final(self).topo == old(self).topo,
            final(self).reactives.keys() == old(self).reactives.keys(),
            reactives_wf(final(self).reactives.map(), final(self).id),
            vars_kept(old(self).reactives.map(), final(self).reactives.map()),
            r is Ok && values_current(old(self).reactives.map()) ==> values_current(final(self).reactives.map()),
            r is Ok ==> news_kept(old(self).reactives.map(), final(self).reactives.map(), old(self).id),
            r is Ok ==> same_shape(old(self).reactives.map(), final(self).reactives.map()),
            r is Ok ==> changes_sent(old(self).reactives.map(), final(self).reactives.map(), old(self).exports.map(), final(out)@,
                old(out)@.len() as int, old(self).id, Set::empty()),
            (r matches Err(Fault::Stuck) || r matches Err(Fault::Evaluation(_))) ==> exists|n: Seq<char>|
                #[trigger] final(self).reactives.map().contains_key(n) && final(self).reactives.map()[n].evaluation_fails(),
            propagation_sound(old(self)) && r is Err ==> (r matches Err(Fault::Stuck) || r matches Err(Fault::Evaluation(_))
                || !held_answers(old(self).held, final(self).reactives.map(), old(self).roots.map()).0),
            r is Ok ==> final(self).locks_wf(),
            r is Ok ==> final(self).held.view() == old(self).held.view(),
            r is Ok ==> forall|i: int| first_modified(old(self).topo_names(), names_of(modified@)) <= i < old(self).topo_names().len()
                ==> !(#[trigger] final(self).reactives.map()[old(self).topo_names()[i]]).changed(),
            r is Ok ==> final(out)@.len() >= old(out)@.len(),
            r is Ok ==> final(out)@.subrange(0, old(out)@.len() as int) == old(out)@,
            r is Ok ==> forall|j: int| old(out)@.len() <= j < final(out)@.len() ==> is_propagation(#[trigger] final(out)@[j], old(self).id)
                || is_answer(final(out)@[j], old(self).id),
            r is Ok ==> exists|k: int| old(out)@.len() <= k <= final(out)@.len()
                && (forall|j: int| old(out)@.len() <= j < k ==> #[trigger] is_propagation(final(out)@[j], old(self).id))
                && answers_of(final(out)@.subrange(k, final(out)@.len() as int)) == held_answers(
                    old(self).held, final(self).reactives.map(), old(self).roots.map()).1,
            r is Ok ==> held_answers(old(self).held, final(self).reactives.map(), old(self).roots.map()).0,
            first_modified(old(self).topo_names(), names_of(modified@)) == old(self).topo_names().len() ==> final(self).reactives
                == old(self).reactives && (r is Ok <==> held_answers(old(self).held, old(self).reactives.map(),
                old(self).roots.map()).0),
            plain_variables(old(self)) ==> (r is Ok <==> held_answers(old(self).held, final(self).reactives.map(),
                old(self).roots.map()).0),
    {
        let ghost topo = names_of(self.topo@);
        let ghost mods = names_of(modified@);
        let ghost out0 = out@;
        let n = self.topo.len();
        let mut found = false;
        let mut i: usize = 0;
        proof {
            assert(out@.subrange(0, out0.len() as int) =~= out0);
            lemma_first_modified(topo, mods, 0);
            lemma_first_modified_nonneg(topo, mods);
        }
        while i < n
            invariant
                i <= n,
                n == self.topo@.len(),
                topo == names_of(self.topo@),
                mods == names_of(modified@),
                self.id == old(self).id,
                self.queued == old(self).queued,
                self.held == old(self).held,
                self.preempted == old(self).preempted,
                self.subscriptions == old(self).subscriptions,
                self.imports == old(self).imports,
                self.exports == old(self).exports,
                self.iterations == old(self).iterations,
                self.roots == old(self).roots,
                self.topo == old(self).topo,
                self.reactives.keys() == old(self).reactives.keys(),
                reactives_wf(self.reactives.map(), self.id),
                vars_kept(old(self).reactives.map(), self.reactives.map()),
                values_current(old(self).reactives.map()) ==> values_current(self.reactives.map()),
                news_kept(old(self).reactives.map(), self.reactives.map(), self.id),
                same_shape(old(self).reactives.map(), self.reactives.map()),
                changes_sent(old(self).reactives.map(), self.reactives.map(), self.exports.map(), out@, out0.len() as int, self.id, Set::empty()),
                found <==> exists|a: int| 0 <= a < i && mods.contains(#[trigger] topo[a]),
                !found ==> self.reactives == old(self).reactives,
                !found ==> forall|a: int| 0 <= a < i ==> !mods.contains(#[trigger] topo[a]),
                !found ==> first_modified(topo, mods) >= i,
                found ==> first_modified(topo, mods) < i,
                0 <= first_modified(topo, mods) <= topo.len(),
                forall|a: int| first_modified(topo, mods) <= a < i ==> !(#[trigger] self.reactives.map()[topo[a]]).changed()
                    || exists|b: int| a < b < i && topo[b] == topo[a],
                out@.len() >= out0.len(),
                out@.subrange(0, out0.len() as int) == out0,
                forall|j: int| out0.len() <= j < out@.len() ==> #[trigger] is_propagation(out@[j], self.id),
            decreases n - i,
        {
            let name = self.topo[i].copy();
            proof {
                assert(name@ == topo[i as int]);
            }
            if !found {
                if names_contain(modified, &name) {
                    found = true;
                    proof {
                        lemma_first_modified(topo, mods, i as int);
                    }
                }
            }
            if found {
                let pos = match self.reactives.position(&name) {
                    Some(p) => p,
                    None => {
                        proof {
                            if propagation_sound(old(self)) {
                                assert(sound_at(old(self), names_of(old(self).topo@)[i as int]));
                                assert(self.reactives.map().contains_key(name@));
                            }
                        }
                        return Err(Fault::Unknown);
                    },
                };
                proof {
                    self.reactives.lemma_len();
                }
                let ins = self.reactives.value_at(pos).inputs();
                let rt = match self.inputs_roots_table(&ins) {
                    Ok(t) => t,
                    Err(f) => {
                        proof {
                            if propagation_sound(old(self)) {
                                let nm = names_of(old(self).topo@)[i as int];
                                assert(sound_at(old(self), nm));
                                assert(nm == name@);
                                self.reactives.lemma_len();
                                assert(self.reactives.values()[pos as int] == self.reactives.map()[name@]);
                                let ri = reactive_inputs(old(self).reactives.map()[nm]);
                                assert(ri == reactive_inputs(self.reactives.map()[nm]));
                                let j = choose|j: int| 0 <= j < ins@.len() && if (#[trigger] ins@[j]).service == self.id {
                                    !self.roots.map().contains_key(ins@[j].name@)
                                } else {
                                    !self.imports.map().contains_key(ins@[j]@)
                                };
                                assert(crate::new_runtime::evaluator::refs_view(ins@)[j] == ins@[j]@);
                                assert(ri[j] == ins@[j]@);
                                assert(input_known(old(self), ri[j]));
                            }
                        }
                        return Err(f);
                    },
                };
                let ghost kpos = self.reactives.keys()[pos as int];
                loop
                    invariant
                        pos < self.reactives.size(),
                        self.reactives.keys().len() == self.reactives.size(),
                        self.reactives.values().len() == self.reactives.size(),
                        kpos == self.reactives.keys()[pos as int],
                        kpos == name@,
                        topo == names_of(self.topo@),
                        name@ == topo[i as int],
                        i < n,
                        n == self.topo@.len(),
                        self.id == old(self).id,
                        self.queued == old(self).queued,
                        self.held == old(self).held,
                        self.preempted == old(self).preempted,
                        self.subscriptions == old(self).subscriptions,
                        self.imports == old(self).imports,
                        self.exports == old(self).exports,
                        self.iterations == old(self).iterations,
                        self.roots == old(self).roots,
                        self.topo == old(self).topo,
                        self.reactives.keys() == old(self).reactives.keys(),
                        reactives_wf(self.reactives.map(), self.id),
                        vars_kept(old(self).reactives.map(), self.reactives.map()),
                values_current(old(self).reactives.map()) ==> values_current(self.reactives.map()),
                news_kept(old(self).reactives.map(), self.reactives.map(), self.id),
                same_shape(old(self).reactives.map(), self.reactives.map()),
                changes_sent(old(self).reactives.map(), self.reactives.map(), self.exports.map(), out@, out0.len() as int, self.id, Set::empty()),
                        self.reactives.values()[pos as int].definition() matches Some(d) ==> (forall|k: RefKey|
                            #[trigger] d.inputs().map().contains_key(k) ==> rt.map().contains_key(k)),
                        out@.len() >= out0.len(),
                        out@.subrange(0, out0.len() as int) == out0,
                        forall|j: int| out0.len() <= j < out@.len() ==> #[trigger] is_propagation(out@[j], self.id),
                        found,
                        first_modified(topo, mods) <= i,
                        mods == names_of(modified@),
                        forall|a: int| first_modified(topo, mods) <= a < i ==> !(#[trigger] self.reactives.map()[topo[a]]).changed()
                            || exists|b: int| a < b < i && topo[b] == topo[a],
                    ensures
                        !self.reactives.map()[name@].changed(),
                    decreases work(self.reactives.values()[pos as int]),
                {
                    let placeholder = Reactive::new(
                        crate::new_runtime::message::ReactiveConfiguration::Variable { value: crate::ast::Expr::Number { val: 0 } },
                        self.id,
                    );
                    let ghost before = self.reactives.map();
                    let mut reactive = self.reactives.replace_at(pos, placeholder);
                    proof {
                        assert(before.contains_key(kpos));
                        assert(reactive == before[kpos]);
                    }
                    let ghost taken = reactive;
                    let res = reactive.next_value(&rt);
                    proof {
                        self.reactives.lemma_len();
                        match taken.definition() {
                            Some(d) => {
                                let d2 = reactive.definition().unwrap();
                                assert forall|k: RefKey| #[trigger] d2.inputs().map().contains_key(k) implies rt.map().contains_key(k) by {
                                    assert(d2.inputs().keys().contains(k));
                                    assert(d.inputs().map().contains_key(k));
                                }
                            },
                            None => {},
                        }
                    }
                    let _ = self.reactives.replace_at(pos, reactive);
                    proof {
                        self.reactives.lemma_len();
                        assert(self.reactives.map() == before.insert(kpos, self.reactives.values()[pos as int]));
                        assert forall|m: Seq<char>| #[trigger] old(self).reactives.map().contains_key(m)
                            && old(self).reactives.map()[m].definition() is None implies self.reactives.map().contains_key(m)
                            && self.reactives.map()[m].definition() is None
                            && self.reactives.map()[m].current() == old(self).reactives.map()[m].current() by {
                            assert(before.contains_key(m));
                        }
                        assert forall|m: Seq<char>| #[trigger] self.reactives.map().contains_key(m) implies self.reactives.map()[m].wf()
                            && self.reactives.map()[m].service() == self.id by {
                            if m != kpos {
                                assert(before.contains_key(m));
                            }
                        }
                        if res is Ok {
                            assert forall|m: Seq<char>, k: RefKey, v: (crate::ast::ExprV, Map<RefKey, u64>)| k.0 != self.id
                                && old(self).reactives.map().contains_key(m) && old(self).reactives.map()[m].input_latest(k, v)
                                implies self.reactives.map().contains_key(m) && #[trigger] self.reactives.map()[m].input_latest(k, v) by {
                                assert(before.contains_key(m) && before[m].input_latest(k, v));
                                if m == kpos {
                                    assert(taken.input_latest(k, v));
                                }
                            }
                        }
                        if res is Ok && values_current(old(self).reactives.map()) {
                            assert forall|m: Seq<char>| #[trigger] self.reactives.map().contains_key(m) implies
                                self.reactives.map()[m].up_to_date() by {
                                assert(before.contains_key(m));
                            }
                        }
                    }
                    let value = match res {
                        Err(f) => {
                            proof {
                                assert(self.reactives.map().contains_key(kpos));
                            }
                            return Err(f);
                        },
                        Ok(None) => {
                            proof {
                                assert(self.reactives.map()[name@] == self.reactives.values()[pos as int]);
                                assert(self.reactives.map()[kpos].current() == before[kpos].current());
                                assert forall|m: Seq<char>| #![trigger self.reactives.map()[m].current()] self.reactives.map().contains_key(m)
                                    implies self.reactives.map()[m].current() == before[m].current() by {
                                    assert(before.contains_key(m));
                                }
                            }
                            break;
                        },
                        Ok(Some(v)) => v,
                    };
                    proof {
                        assert(self.reactives.map()[name@] == self.reactives.values()[pos as int]);
                        assert forall|m: Seq<char>| #![trigger self.reactives.map()[m].current()] self.reactives.map().contains_key(m)
                            && m != name@ implies self.reactives.map()[m].current() == before[m].current() by {
                            assert(before.contains_key(m));
                        }
                        assert(changes_sent(old(self).reactives.map(), self.reactives.map(), self.exports.map(), out@, out0.len() as int, self.id, Set::empty().insert(name@)));
                    }
                    let ghost w = work(self.reactives.values()[pos as int]);
                    let subs = match self.subscriptions.get(&name) {
                        Some(s) => copy_names(s),
                        None => {
                            proof {
                                if propagation_sound(old(self)) {
                                    assert(sound_at(old(self), names_of(old(self).topo@)[i as int]));
                                }
                            }
                            return Err(Fault::Unknown);
                        },
                    };
                    proof {
                        if plain_variables(old(self)) {
                            assert(names_of(old(self).topo@)[i as int] == name@);
                            assert(names_of(subs@).len() == subs@.len());
                        }
                    }
                    let mut k: usize = 0;
                    while k < subs.len()
                        invariant
                            plain_variables(old(self)) ==> subs@.len() == 0,
                            self.subscriptions.map().contains_key(name@),
                            names_of(subs@) == names_of(self.subscriptions.map()[name@]@),
                            name@ == topo[i as int],
                            k <= subs@.len(),
                            pos < self.reactives.size(),
                            self.reactives.keys().len() == self.reactives.size(),
                            self.reactives.values().len() == self.reactives.size(),
                            kpos == self.reactives.keys()[pos as int],
                            kpos == name@,
                            w == work(self.reactives.values()[pos as int]),
                            topo == names_of(self.topo@),
                            mods == names_of(modified@),
                            i < n,
                            n == self.topo@.len(),
                            first_modified(topo, mods) <= i,
                            self.reactives.values()[pos as int].definition() matches Some(d) ==> (forall|k: RefKey|
                                #[trigger] d.inputs().map().contains_key(k) ==> rt.map().contains_key(k)),
                            self.id == old(self).id,
                            self.queued == old(self).queued,
                            self.held == old(self).held,
                            self.preempted == old(self).preempted,
                            self.subscriptions == old(self).subscriptions,
                            self.imports == old(self).imports,
                            self.exports == old(self).exports,
                            self.iterations == old(self).iterations,
                            self.roots == old(self).roots,
                            self.topo == old(self).topo,
                            self.reactives.keys() == old(self).reactives.keys(),
                            reactives_wf(self.reactives.map(), self.id),
                            vars_kept(old(self).reactives.map(), self.reactives.map()),
                values_current(old(self).reactives.map()) ==> values_current(self.reactives.map()),
                news_kept(old(self).reactives.map(), self.reactives.map(), self.id),
                same_shape(old(self).reactives.map(), self.reactives.map()),
                changes_sent(old(self).reactives.map(), self.reactives.map(), self.exports.map(), out@, out0.len() as int, self.id, Set::empty().insert(name@)),
                self.reactives.map()[name@].current() matches Some(cc) && cc.value@ == value.value@,
                            forall|a: int| first_modified(topo, mods) <= a < i ==> !(#[trigger] self.reactives.map()[topo[a]]).changed()
                                || exists|b: int| a < b < i && topo[b] == topo[a],
                        decreases subs@.len() - k,
                    {
                        proof {
                            assert(names_of(subs@)[k as int] == subs@[k as int]@);
                            assert(names_of(subs@).len() == subs@.len());
                            assert(names_of(self.subscriptions.map()[name@]@)[k as int] == self.subscriptions.map()[name@]@[k as int]@);
                        }
                        if subs[k].same(&name) {
                            proof {
                                if propagation_sound(old(self)) {
                                    assert(sound_at(old(self), names_of(old(self).topo@)[i as int]));
                                    assert(subscriber_ok(old(self), name@, old(self).subscriptions.map()[name@]@[k as int]@));
                                }
                            }
                            return Err(Fault::Cyclical);
                        }
                        let spos = match self.reactives.position(&subs[k]) {
                            Some(p) => p,
                            None => {
                                proof {
                                    if propagation_sound(old(self)) {
                                        assert(sound_at(old(self), names_of(old(self).topo@)[i as int]));
                                        assert(subscriber_ok(old(self), name@, old(self).subscriptions.map()[name@]@[k as int]@));
                                        assert(self.reactives.map().contains_key(subs@[k as int]@));
                                    }
                                }
                                return Err(Fault::Unknown);
                            },
                        };
                        proof {
                            self.reactives.lemma_len();
                        }
                        let sender = ReactiveRef { service: self.id, name: name.copy() };
                        if !self.reactives.value_at(spos).accepts_update(&sender) {
                            proof {
                                if propagation_sound(old(self)) {
                                    let m = subs@[k as int]@;
                                    assert(sound_at(old(self), names_of(old(self).topo@)[i as int]));
                                    assert(subscriber_ok(old(self), name@, old(self).subscriptions.map()[name@]@[k as int]@));
                                    let d = old(self).reactives.map()[m].definition()->Some_0;
                                    assert(d.inputs().keys().contains((self.id, name@)));
                                    assert(reactive_inputs(self.reactives.map()[m]) == d.inputs().keys());
                                    assert(self.reactives.map()[m] == self.reactives.values()[spos as int]);
                                }
                            }
                            return Err(Fault::Unknown);
                        }
                        let placeholder = Reactive::new(
                            crate::new_runtime::message::ReactiveConfiguration::Variable { value: crate::ast::Expr::Number { val: 0 } },
                            self.id,
                        );
                        let ghost before = self.reactives.map();
                        let ghost skey = self.reactives.keys()[spos as int];
                        let mut sr = self.reactives.replace_at(spos, placeholder);
                        proof {
                            assert(before.contains_key(skey));
                            assert(sr == before[skey]);
                        }
                        sr.add_update(sender, value.copy());
                        proof {
                            self.reactives.lemma_len();
                        }
                        let _ = self.reactives.replace_at(spos, sr);
                        proof {
                            self.reactives.lemma_len();
                            assert(spos != pos);
                            assert(self.reactives.map() == before.insert(skey, self.reactives.values()[spos as int]));
                            assert forall|m: Seq<char>| #[trigger] old(self).reactives.map().contains_key(m)
                                && old(self).reactives.map()[m].definition() is None implies self.reactives.map().contains_key(m)
                                && self.reactives.map()[m].definition() is None
                                && self.reactives.map()[m].current() == old(self).reactives.map()[m].current() by {
                                assert(before.contains_key(m));
                            }
                            assert forall|m: Seq<char>| #[trigger] self.reactives.map().contains_key(m) implies self.reactives.map()[m].wf()
                                && self.reactives.map()[m].service() == self.id by {
                                if m != skey {
                                    assert(before.contains_key(m));
                                }
                            }
                            assert forall|a: int| first_modified(topo, mods) <= a < i implies !(#[trigger] self.reactives.map()[topo[a]]).changed()
                                || exists|b: int| a < b < i && topo[b] == topo[a] by {
                                if topo[a] != skey {
                                    assert(self.reactives.map()[topo[a]] == before[topo[a]]);
                                }
                            }
                            assert forall|m: Seq<char>| #![trigger self.reactives.map()[m].current()] self.reactives.map().contains_key(m)
                                implies self.reactives.map()[m].current() == before[m].current() by {
                                assert(before.contains_key(m));
                            }
                        }
                        k = k + 1;
                    }
                    match self.exports.get(&name) {
                        Some(export) => {
                            let kept = self.export_names();
                            let basis = value.basis.without_local(self.id, &kept);
                            let mut a: usize = 0;
                            let ghost out_k = out@;
                            while a < export.importers.len()
                                invariant
                                    a <= export.importers@.len(),
                                    out@.len() >= out_k.len(),
                                    out@.subrange(0, out_k.len() as int) == out_k,
                                    forall|j: int| 0 <= j < a ==> sends_value(out@, out0.len() as int, #[trigger] export.importers@[j],
                                        self.id, name@, value.value@),
                                    out@.len() >= out0.len(),
                                    out@.subrange(0, out0.len() as int) == out0,
                                    forall|j: int| out0.len() <= j < out@.len() ==> #[trigger] is_propagation(out@[j], self.id),
                                decreases export.importers@.len() - a,
                            {
                                let ghost o = out@;
                                out.push(Envelope {
                                    to: Recipient::Service(export.importers[a]),
                                    msg: Msg::Propagate {
                                        sender: ReactiveRef { service: self.id, name: name.copy() },
                                        value: crate::new_runtime::message::StampedValue {
                                            value: value.value.copy(),
                                            basis: basis.copy(),
                                        },
                                    },
                                });
                                proof {
                                    assert(out@.subrange(0, out_k.len() as int) =~= o.subrange(0, out_k.len() as int));
                                    assert forall|j: int| 0 <= j < a + 1 implies sends_value(out@, out0.len() as int,
                                        #[trigger] export.importers@[j], self.id, name@, value.value@) by {
                                        if j < a {
                                            let w = choose|w: int| out0.len() <= w < o.len() && o[w].to == Recipient::Service(
                                                export.importers@[j]) && (o[w].msg matches Msg::Propagate { sender, value: vv }
                                                && sender@ == (self.id, name@) && vv.value@ == value.value@);
                                            assert(out@[w] == o[w]);
                                        } else {
                                            assert(out@[o.len() as int].to == Recipient::Service(export.importers@[j]));
                                        }
                                    }
                                    assert(out@.subrange(0, out0.len() as int) =~= o.subrange(0, out0.len() as int));
                                    assert forall|j: int| out0.len() <= j < out@.len() implies #[trigger] is_propagation(out@[j], self.id) by {
                                        if j < o.len() {
                                            assert(out@[j] == o[j]);
                                        }
                                    }
                                }
                                a = a + 1;
                            }
                            proof {
                                lemma_changes_sent_extend(old(self).reactives.map(), self.reactives.map(), self.exports.map(), out_k, out@,
                                    out0.len() as int, self.id, Set::empty().insert(name@));
                            }
                        },
                        None => {},
                    }
                    proof {
                        assert(changes_sent(old(self).reactives.map(), self.reactives.map(), self.exports.map(), out@, out0.len() as int, self.id, Set::empty()));
                    }
                }
            }
            proof {
                lemma_first_modified_nonneg(topo, mods);
                if found {
                    assert forall|a: int| first_modified(topo, mods) <= a < i + 1 implies !(#[trigger] self.reactives.map()[topo[a]]).changed()
                        || exists|b: int| a < b < i + 1 && topo[b] == topo[a] by {
                        if a < i {
                            if !(!self.reactives.map()[topo[a]].changed()) {
                                let b = choose|b: int| a < b < i && topo[b] == topo[a];
                                assert(a < b < i + 1 && topo[b] == topo[a]);
                            }
                        }
                    }
                } else {
                    assert(forall|a: int| 0 <= a < i + 1 ==> !mods.contains(#[trigger] topo[a]));
                    lemma_first_modified(topo, mods, i + 1);
                }
            }
            i = i + 1;
        }
        proof {
            if !found {
                lemma_first_modified(topo, mods, n as int);
            }
            assert forall|a: int| first_modified(topo, mods) <= a < topo.len() implies !(#[trigger] self.reactives.map()[topo[a]]).changed() by {
                lemma_last_occurrence(topo, a, self.reactives.map(), first_modified(topo, mods));
            }
        }
        let ghost mid = out@.len();
        let ghost mid_out = out@;
        match self.grant_reads(out) {
            Ok(()) => {},
            Err(f) => {
                return Err(f);
            },
        }
        proof {
            lemma_changes_sent_extend(old(self).reactives.map(), self.reactives.map(), self.exports.map(), mid_out, out@,
                out0.len() as int, self.id, Set::empty());
            assert(out@.subrange(0, out0.len() as int) =~= mid_out.subrange(0, out0.len() as int));
            assert forall|j: int| out0.len() <= j < mid implies #[trigger] is_propagation(out@[j], self.id) by {
                assert(out@[j] == mid_out[j]) by {
                    assert(out@.subrange(0, mid_out.len() as int)[j] == mid_out[j]);
                }
            }
            assert forall|j: int| out0.len() <= j < out@.len() implies is_propagation(#[trigger] out@[j], self.id)
                || is_answer(out@[j], self.id) by {
                if j < mid {
                    assert(is_propagation(out@[j], self.id));
                }
            }
        }
        Ok(())
    }

    /// The names of the exported reactives.
    fn export_names(&self) -> (r: Vec<ReactiveName>)
        ensures
            names_of(r@) == self.exports.keys(),
    {
        let n = self.exports.len();
        let mut r: Vec<ReactiveName> = Vec::new();
        let mut i: usize = 0;
        while i < n
            invariant
                i <= n,
                n == self.exports.size(),
                n == self.exports.keys().len(),
                r@.len() == i,
                names_of(r@) == self.exports.keys().subrange(0, i as int),
            decreases n - i,
        {
            let ghost before = r@;
            r.push(self.exports.key_at(i).copy());
            proof {
                assert(r@.drop_last() =~= before);
                assert(names_of(r@) =~= self.exports.keys().subrange(0, i + 1));
            }
            i = i + 1;
        }
        proof {
            assert(self.exports.keys().subrange(0, n as int) =~= self.exports.keys());
        }
        r
    }
}

/// A copy of a list of names.
fn copy_names(v: &Vec<ReactiveName>) -> (r: Vec<ReactiveName>)
    ensures
        names_of(r@) == names_of(v@),
{
    let mut r: Vec<ReactiveName> = Vec::new();
    let mut i: usize = 0;
    while i < v.len()
        invariant
            i <= v@.len(),
            r@.len() == i,
            names_of(r@) == names_of(v@).subrange(0, i as int),
        decreases v@.len() - i,
    {
        let ghost before = r@;
        r.push(v[i].copy());
        proof {
            assert(r@.drop_last() =~= before);
            assert(names_of(r@) =~= names_of(v@).subrange(0, i + 1));
        }
        i = i + 1;
    }
    proof {
        assert(names_of(v@).subrange(0, v@.len() as int) =~= names_of(v@));
    }
    r
}

/// A name processed more than once ends as its last processing leaves it.
proof fn lemma_last_occurrence(topo: Seq<Seq<char>>, a: int, reactives: Map<Seq<char>, Reactive>, start: int)
    requires
        start <= a < topo.len(),
        forall|x: int| start <= x < topo.len() ==> !(#[trigger] reactives[topo[x]]).changed()
            || exists|b: int| x < b < topo.len() && topo[b] == topo[x],
    ensures
        !reactives[topo[a]].changed(),
    decreases topo.len() - a,
{
    if reactives[topo[a]].changed() {
        let b = choose|b: int| a < b < topo.len() && topo[b] == topo[a];
        lemma_last_occurrence(topo, b, reactives, start);
    }
}

} // verus!
