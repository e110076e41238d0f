//! The locks a service holds for transactions: none, shared locks of any
//! number of transactions, or one exclusive lock.
use vstd::prelude::*;

use crate::ast::Expr;
use crate::new_runtime::message::{
    tx_lt, BasisStamp, ImportConfiguration, Iteration, ReactiveConfiguration, TxId, TxKey,
};
use crate::new_runtime::service::{ReactiveName, ReactiveRef};
use crate::table::Table;

verus! {

/// A read of a reactive within a transaction: the basis a pending read
/// waits for, and the union of the bases of the values already returned.
#[derive(Debug)]
pub struct Read {
    pub pending: BasisStamp,
    pub complete: BasisStamp,
}

/// What a service records for any lock: the reads made under it.
#[derive(Debug)]
pub struct SharedLockState {
    pub reads: Table<ReactiveName, Read>,
}

/// What a service records for an exclusive lock: the writes and the
/// configuration changes to make at commit, and the iterations prepared for
/// the reactives the commit changes.
#[derive(Debug)]
pub struct ExclusiveLockState {
    pub writes: Table<ReactiveName, Expr>,
    pub imports: Table<ReactiveRef, Option<ImportConfiguration>>,
    pub reactives: Table<ReactiveName, Option<ReactiveConfiguration>>,
    pub exports: Table<ReactiveName, Vec<u64>>,
    pub prepared_iterations: Table<ReactiveName, Iteration>,
}

impl SharedLockState {
    /// A state with no reads.
    pub fn new() -> (r: SharedLockState)
        ensures
            r.reads.map() == Map::<Seq<char>, Read>::empty(),
    {
        SharedLockState { reads: Table::new() }
    }
}

impl ExclusiveLockState {
    /// A state with nothing to do at commit.
    pub fn new() -> (r: ExclusiveLockState)
        ensures
            r.writes.map() == Map::<Seq<char>, Expr>::empty(),
            r.imports.map() == Map::<(u64, Seq<char>), Option<ImportConfiguration>>::empty(),
            r.reactives.map() == Map::<Seq<char>, Option<ReactiveConfiguration>>::empty(),
            r.exports.map() == Map::<Seq<char>, Vec<u64>>::empty(),
            r.prepared_iterations.map() == Map::<Seq<char>, Iteration>::empty(),
    {
        ExclusiveLockState {
            writes: Table::new(),
            imports: Table::new(),
            reactives: Table::new(),
            exports: Table::new(),
            prepared_iterations: Table::new(),
        }
    }
}

/// The locks held, as transaction identities.
pub enum HeldV {
    Free,
    Shared(Set<TxKey>),
    Exclusive(TxKey),
}

/// The locks a service holds. Shared locks are kept in transaction order.
#[derive(Debug)]
pub enum HeldLocks {
    Free,
    Shared(Vec<(TxId, SharedLockState)>),
    Exclusive(TxId, SharedLockState, ExclusiveLockState),
}

/// The identities of a list of shared locks, in order.
pub open spec fn shared_keys(v: Seq<(TxId, SharedLockState)>) -> Seq<TxKey> {
    v.map_values(|e: (TxId, SharedLockState)| e.0@)
}

/// Whether a sequence of identities is strictly increasing.
pub open spec fn tx_sorted(s: Seq<TxKey>) -> bool {
    forall|i: int, j: int| 0 <= i < j < s.len() ==> tx_lt(#[trigger] s[i], #[trigger] s[j])
}

impl HeldLocks {
    pub open spec fn view(&self) -> HeldV {
        match self {
            HeldLocks::Free => HeldV::Free,
            HeldLocks::Shared(v) => HeldV::Shared(shared_keys(v@).to_set()),
            HeldLocks::Exclusive(t, _, _) => HeldV::Exclusive(t@),
        }
    }

    /// Shared locks are kept sorted, and there is at least one.
    pub open spec fn wf(&self) -> bool {
        match self {
            HeldLocks::Shared(v) => v@.len() > 0 && tx_sorted(shared_keys(v@)),
            _ => true,
        }
    }

    /// The exclusive state of `txid`'s lock, if it holds the exclusive lock.
    pub fn exclusive(&self, txid: &TxId) -> (r: Option<&ExclusiveLockState>)
        ensures
            r is Some <==> self.view() == HeldV::Exclusive(txid@),
            r matches Some(e) ==> self matches HeldLocks::Exclusive(_, _, x) && x == *e,
    {
        match self {
            HeldLocks::Exclusive(held_txid, _, exclusive_data) => {
                if held_txid.same(txid) {
                    Some(exclusive_data)
                } else {
                    None
                }
            },
            _ => None,
        }
    }

    /// The shared state of `txid`'s lock, whichever lock it holds.
    pub fn shared(&self, txid: &TxId) -> (r: Option<&SharedLockState>)
        requires
            self.wf(),
        ensures
            r is Some <==> match self.view() {
                HeldV::Free => false,
                HeldV::Shared(s) => s.contains(txid@),
                HeldV::Exclusive(t) => t == txid@,
            },
            r matches Some(st) ==> match self {
                HeldLocks::Shared(v) => exists|i: int| 0 <= i < v@.len() && v@[i].0@ == txid@ && v@[i].1 == *st,
                HeldLocks::Exclusive(_, s0, _) => s0 == *st,
                HeldLocks::Free => false,
            },
    {
        match self {
            HeldLocks::Shared(held) => {
                let i = shared_position(held, txid);
                match i {
                    Some(i) => {
                        proof {
                            assert(shared_keys(held@)[i as int] == txid@);
                        }
                        Some(&held[i].1)
                    },
                    None => None,
                }
            },
            HeldLocks::Exclusive(held_txid, shared_data, _) => {
                if held_txid.same(txid) {
                    Some(shared_data)
                } else {
                    None
                }
            },
            HeldLocks::Free => None,
        }
    }
}

/// The position of `txid` among shared locks.
pub fn shared_position(held: &Vec<(TxId, SharedLockState)>, txid: &TxId) -> (r: Option<usize>)
    ensures
        match r {
            Some(i) => i < held@.len() && held@[i as int].0@ == txid@,
            None => !shared_keys(held@).contains(txid@),
        },
{
    let mut i: usize = 0;
    while i < held.len()
        invariant
            i <= held@.len(),
            forall|j: int| 0 <= j < i ==> held@[j].0@ != txid@,
        decreases held@.len() - i,
    {
        if held[i].0.same(txid) {
            return Some(i);
        }
        i = i + 1;
    }
    proof {
        if shared_keys(held@).contains(txid@) {
            let j = choose|j: int| 0 <= j < shared_keys(held@).len() && shared_keys(held@)[j] == txid@;
            assert(held@[j].0@ == txid@);
        }
    }
    None
}

/// Inserts a shared lock of `txid`, keeping the order.
pub fn insert_shared(held: &mut Vec<(TxId, SharedLockState)>, txid: TxId, state: SharedLockState)
    requires
        tx_sorted(shared_keys(old(held)@)),
        !shared_keys(old(held)@).contains(txid@),
    ensures
        tx_sorted(shared_keys(final(held)@)),
        shared_keys(final(held)@).to_set() == shared_keys(old(held)@).to_set().insert(txid@),
        final(held)@.len() == old(held)@.len() + 1,
        exists|i: int| 0 <= i <= old(held)@.len() && final(held)@ == old(held)@.insert(i, (txid, state)),
{
    let ghost ks = shared_keys(held@);
    let mut i: usize = 0;
    while i < held.len() && held[i].0.precedes(&txid)
        invariant
            i <= held@.len(),
            ks == shared_keys(held@),
            forall|j: int| 0 <= j < i ==> tx_lt(#[trigger] ks[j], txid@),
        decreases held@.len() - i,
    {
        i = i + 1;
    }
    let ghost k = txid@;
    held.insert(i, (txid, state));
    proof {
        let nk = shared_keys(held@);
        assert(nk =~= ks.insert(i as int, k));
        if i < ks.len() {
            assert(!tx_lt(ks[i as int], k));
            assert(ks[i as int] != k);
            crate::new_runtime::message::law_tx_lt_total(ks[i as int], k);
        }
        assert forall|a: int, b: int| 0 <= a < b < nk.len() implies tx_lt(#[trigger] nk[a], #[trigger] nk[b]) by {
            if b < i {
            } else if a < i && b == i {
            } else if a < i {
                assert(tx_lt(ks[a], ks[b - 1]));
            } else if a == i {
                if b - 1 > i {
                    crate::new_runtime::message::law_tx_lt_transitive(k, ks[i as int], ks[b - 1]);
                }
            } else {
            }
        }
        assert(nk.to_set() =~= ks.to_set().insert(k)) by {
            assert forall|x: TxKey| nk.to_set().contains(x) <==> ks.to_set().insert(k).contains(x) by {
                if nk.contains(x) {
                    let j = choose|j: int| 0 <= j < nk.len() && nk[j] == x;
                    if j < i {
                        assert(ks[j] == x);
                    } else if j > i {
                        assert(ks[j - 1] == x);
                    }
                }
                if ks.contains(x) {
                    let j = choose|j: int| 0 <= j < ks.len() && ks[j] == x;
                    if j < i {
                        assert(nk[j] == x);
                    } else {
                        assert(nk[j + 1] == x);
                    }
                }
                if x == k {
                    assert(nk[i as int] == x);
                }
            }
        }
    }
}

} // verus!
