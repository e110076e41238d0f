//! The clients that drive a service through transactions: one that
//! configures its reactives, one that does an action, one that checks an
//! assertion. Each is a state machine: it takes the service's replies one at
//! a time and answers with the messages to send next.
use vstd::prelude::*;

use crate::ast::{Assn, AssnV, Expr, ExprV};
use crate::new_runtime::evaluator::{
    eval, EvalError, EvalOutcome, Evaluator, PartialEvalError, ReadEntry, Reads, ReadsV, EVAL_FUEL,
};
use crate::new_runtime::message::{BasisStamp, Envelope, LockKind, Msg, ReactiveConfiguration, Recipient, TxId};
use crate::new_runtime::service::{ReactiveName, ReactiveRef};
use crate::table::Table;

verus! {

/// What stops a client: a reply that does not fit its state, or an
/// evaluation that fails.
#[derive(Debug)]
pub enum ClientFault {
    /// A message of a kind the client does not take in its state.
    Unexpected,
    /// A reply for another transaction, or from another service.
    Mismatch,
    /// A value for a reactive that was not asked for, or that came twice.
    Unrequested,
    /// The evaluation failed with this error.
    Evaluation(EvalError),
    /// The evaluation met an operation without a result.
    Stuck,
    /// The expression to do is not an action.
    NotAction,
    /// The asserted expression is not `true`.
    AssertionFailed,
}

/// The values received so far, as reads of the service's reactives; a
/// reactive without a value is missing.
pub open spec fn received_reads(service: u64, vals: Table<ReactiveName, Expr>) -> ReadsV {
    (Seq::new(vals.keys().len(), |j: int| ((service, vals.keys()[j]), Some(vals.values()[j]@))), false)
}

/// The reads of the received values.
fn reads_from(service: u64, vals: &Table<ReactiveName, Expr>) -> (r: Reads)
    ensures
        r@ == received_reads(service, *vals),
{
    proof {
        vals.lemma_len();
    }
    let n = vals.len();
    let mut entries: Vec<ReadEntry> = Vec::new();
    let mut i: usize = 0;
    while i < n
        invariant
            i <= n,
            n == vals.keys().len(),
            n == vals.values().len(),
            n == vals.size(),
            entries@.len() == i,
            forall|j: int| 0 <= j < i ==> (#[trigger] entries@[j]).reactive@ == (service, vals.keys()[j])
                && entries@[j].value is Some && entries@[j].value.unwrap()@ == vals.values()[j]@,
        decreases n - i,
    {
        let name = vals.key_at(i).copy();
        let value = vals.value_at(i).copy();
        entries.push(ReadEntry { reactive: ReactiveRef { service, name }, value: Some(value) });
        i = i + 1;
    }
    let r = Reads { entries, exhaustive: false };
    proof {
        assert(r@.0 =~= received_reads(service, *vals).0);
    }
    r
}

/// Whether fault `f` reports how an evaluation ended, `o`: an unknown
/// variable, an error message, or an operation without a result.
pub open spec fn faulted(f: ClientFault, o: EvalOutcome) -> bool {
    match (f, o) {
        (ClientFault::Evaluation(EvalError::UnknownVariable(a)), EvalOutcome::Unknown(b)) => a@ == b,
        (ClientFault::Evaluation(EvalError::Other(a)), EvalOutcome::Failed(b)) => a@ == b,
        (ClientFault::Stuck, EvalOutcome::Stuck) => true,
        _ => false,
    }
}

/// Evaluates `expr` in place as far as the received values allow: `true`
/// when it is now a value; `false` when the value of a reactive is still
/// missing, which is then added to `needed`; a fault when the evaluation
/// fails.
fn do_partial_eval(
    service: u64,
    expr: &mut Expr,
    partial_values: &Table<ReactiveName, Expr>,
    needed: &mut Table<ReactiveName, ()>,
    e: &mut Evaluator,
) -> (r: Result<bool, ClientFault>)
    ensures
        final(e)@ == old(e)@,
        ({
            let (v, o) = eval(old(e)@, old(expr)@, service, received_reads(service, *partial_values), EVAL_FUEL as nat, true);
            &&& final(expr)@ == v
            &&& match r {
                Ok(true) => o is Done && *final(needed) == *old(needed),
                Ok(false) => o matches EvalOutcome::Unresolved(x) && final(needed).map() == old(needed).map().insert(x, ())
                    && (!old(needed).map().contains_key(x) ==> final(needed).keys() == old(needed).keys().push(x)),
                Err(f) => faulted(f, o),
            }
        }),
{
    let reads = reads_from(service, partial_values);
    match e.partial_eval_checked(expr, service, &reads) {
        None => Err(ClientFault::Stuck),
        Some(Ok(())) => Ok(true),
        Some(Err(PartialEvalError::UnresolvedVariable(x))) => {
            let _ = needed.insert(ReactiveName(x), ());
            Ok(false)
        },
        Some(Err(PartialEvalError::UnknownVariable(x))) => Err(ClientFault::Evaluation(EvalError::UnknownVariable(x))),
        Some(Err(PartialEvalError::Other(x))) => Err(ClientFault::Evaluation(EvalError::Other(x))),
    }
}

/// Whether `m` asks `service` for the value of `reactive` in `txid`, no
/// older than `basis`.
pub open spec fn is_read_request(m: Envelope, service: u64, txid: TxId, reactive: Seq<char>, basis: Map<crate::new_runtime::message::RefKey, u64>) -> bool {
    &&& m.to == Recipient::Service(service)
    &&& m.msg matches Msg::ReadValue { txid: t, reactive: n, basis: b } && t@ == txid@ && n@ == reactive && b@ == basis
}

/// Asks `service`, for `txid`, for the value of each reactive in `needed`,
/// no older than `basis`.
fn request_vars(service: u64, txid: &TxId, basis: &BasisStamp, needed: &Table<ReactiveName, ()>) -> (r: Vec<Envelope>)
    ensures
        r@.len() == needed.keys().len(),
        forall|j: int| 0 <= j < r@.len() ==> #[trigger] is_read_request(r@[j], service, *txid, needed.keys()[j], basis@),
{
    proof {
        needed.lemma_len();
    }
    let n = needed.len();
    let mut r: Vec<Envelope> = Vec::new();
    let mut i: usize = 0;
    while i < n
        invariant
            i <= n,
            n == needed.keys().len(),
            n == needed.size(),
            r@.len() == i,
            forall|j: int| 0 <= j < i ==> #[trigger] is_read_request(r@[j], service, *txid, needed.keys()[j], basis@),
        decreases n - i,
    {
        r.push(Envelope {
            to: Recipient::Service(service),
            msg: Msg::ReadValue { txid: txid.copy(), reactive: needed.key_at(i).copy(), basis: basis.copy() },
        });
        i = i + 1;
    }
    r
}

/// The identity of a new transaction of `manager`, started when the clock
/// reads `now_micros`: high priority, stamped by a fresh timestamp
/// generator.
fn new_txid(manager: String, now_micros: u64) -> (r: TxId)
    ensures
        r.priority == crate::new_runtime::message::TxPriority::High,
        r.timestamp.epoch_micros == (if now_micros > 0 { now_micros } else { 1 }),
        r.manager@ == manager@,
{
    let mut generator = crate::new_runtime::message::MonotonicTimestampGenerator::new();
    let timestamp = generator.generate_timestamp(now_micros);
    TxId { priority: crate::new_runtime::message::TxPriority::High, timestamp, manager }
}

/// Whether `m` asks `service` for an exclusive lock for `txid`.
pub open spec fn is_lock_request(m: Envelope, service: u64, txid: TxId) -> bool {
    &&& m.to == Recipient::Service(service)
    &&& m.msg matches Msg::Lock { txid: t, kind } && t@ == txid@ && kind == LockKind::Exclusive
}

/// Whether `m` writes `value` to `reactive` of `service` in `txid`.
pub open spec fn is_write(m: Envelope, service: u64, txid: TxId, reactive: Seq<char>, value: ExprV) -> bool {
    &&& m.to == Recipient::Service(service)
    &&& m.msg matches Msg::Write { txid: t, reactive: n, value: v } && t@ == txid@ && n@ == reactive && v@ == value
}

/// Whether `m` asks `service` to prepare the commit of `txid`.
pub open spec fn is_prepare_request(m: Envelope, service: u64, txid: TxId) -> bool {
    &&& m.to == Recipient::Service(service)
    &&& m.msg matches Msg::PrepareCommit { txid: t } && t@ == txid@
}

/// Whether `m` commits `txid` at `service` with `basis`.
pub open spec fn is_commit(m: Envelope, service: u64, txid: TxId, basis: Map<crate::new_runtime::message::RefKey, u64>) -> bool {
    &&& m.to == Recipient::Service(service)
    &&& m.msg matches Msg::Commit { txid: t, basis: b } && t@ == txid@ && b@ == basis
}

/// Partial evaluation of the right-hand sides of `assns`, in order, until
/// one of them is not a value: the assignments it leaves, and how the last
/// evaluation made ended (`Done` when all are values).
pub open spec fn eval_assns(assns: Seq<AssnV>, service: u64, reads: ReadsV) -> (Seq<AssnV>, EvalOutcome)
    decreases assns.len(),
{
    if assns.len() == 0 {
        (assns, EvalOutcome::Done)
    } else {
        let (v, o) = eval(Seq::empty(), assns[0].src, service, reads, EVAL_FUEL as nat, true);
        let first = AssnV { dest: assns[0].dest, src: v };
        if o is Done {
            let rest = eval_assns(assns.drop_first(), service, reads);
            (seq![first] + rest.0, rest.1)
        } else {
            (seq![first] + assns.drop_first(), o)
        }
    }
}

/// Whether `out` writes each assignment of `assns` in order and then asks
/// for the commit to be prepared.
pub open spec fn writes_then_prepare(out: Seq<Envelope>, service: u64, txid: TxId, assns: Seq<AssnV>) -> bool {
    &&& out.len() == assns.len() + 1
    &&& forall|j: int| 0 <= j < assns.len() ==> #[trigger] is_write(out[j], service, txid, assns[j].dest, assns[j].src)
    &&& is_prepare_request(out.last(), service, txid)
}

/// A client doing an action in one transaction: it locks the service,
/// evaluates the expression to an action, reading what it needs, writes
/// the action's assignments, and commits.
#[derive(Debug)]
pub enum Doer {
    LockRequested { service: u64, txid: TxId, expr: Expr, basis: BasisStamp },
    AwaitingValues {
        service: u64,
        txid: TxId,
        expr: Expr,
        partial_values: Table<ReactiveName, Expr>,
        needed: Table<ReactiveName, ()>,
        basis: BasisStamp,
    },
    PrepareRequested { service: u64, txid: TxId },
    Done,
}

/// Whether `d` waits, in `txid` at `service`, for the value of `x` alone,
/// with `expr` evaluated so far and the values received giving `reads`.
pub open spec fn doer_awaits(d: Doer, service: u64, txid: TxId, expr: ExprV, reads: ReadsV, x: Seq<char>, basis: Map<crate::new_runtime::message::RefKey, u64>) -> bool {
    d matches Doer::AwaitingValues { service: s, txid: t, expr: e, partial_values: p, needed: n, basis: b }
        && s == service && t@ == txid@ && e@ == expr && received_reads(service, p) == reads
        && n.map() == map![x => ()] && b@ == basis
}

/// What carrying on with `expr` does, given the values received as `reads`:
/// an expression that is not an action is evaluated first; then the
/// right-hand sides of the action's assignments are. A missing value is
/// asked for and waited on; when all are values, the assignments are
/// written and the commit is prepared. A failed evaluation, or a value that
/// is not an action, is a fault.
pub open spec fn executed(
    service: u64,
    txid: TxId,
    expr: ExprV,
    basis: Map<crate::new_runtime::message::RefKey, u64>,
    reads: ReadsV,
    d: Doer,
    r: Result<Vec<Envelope>, ClientFault>,
) -> bool {
    let (e1, o1) = if expr is Action { (expr, EvalOutcome::Done) } else { eval(Seq::empty(), expr, service, reads, EVAL_FUEL as nat, true) };
    match o1 {
        EvalOutcome::Done => match e1 {
            ExprV::Action { assns } => {
                let (a2, o2) = eval_assns(assns, service, reads);
                match o2 {
                    EvalOutcome::Done => r matches Ok(out) && writes_then_prepare(out@, service, txid, a2)
                        && (d matches Doer::PrepareRequested { service: s, txid: t } && s == service && t@ == txid@),
                    EvalOutcome::Unresolved(x) => r matches Ok(out) && out@.len() == 1 && is_read_request(out@[0], service, txid, x, basis)
                        && doer_awaits(d, service, txid, ExprV::Action { assns: a2 }, reads, x, basis),
                    _ => r matches Err(f) && faulted(f, o2),
                }
            },
            _ => r matches Err(ClientFault::NotAction),
        },
        EvalOutcome::Unresolved(x) => r matches Ok(out) && out@.len() == 1 && is_read_request(out@[0], service, txid, x, basis)
            && doer_awaits(d, service, txid, e1, reads, x, basis),
        _ => r matches Err(f) && faulted(f, o1),
    }
}

/// Evaluates the right-hand sides of `assns` in place, in order, until one
/// of them is not a value (see `eval_assns`); the missing reactive goes to
/// `needed`.
fn eval_assns_in_place(
    service: u64,
    assns: Vec<Assn>,
    partial_values: &Table<ReactiveName, Expr>,
    needed: &mut Table<ReactiveName, ()>,
    e: &mut Evaluator,
) -> (r: (Vec<Assn>, Result<bool, ClientFault>))
    requires
        old(e)@ == Seq::<crate::new_runtime::evaluator::FrameV>::empty(),
    ensures
        final(e)@ == old(e)@,
        ({
            let (a2, o) = eval_assns(crate::ast::assns_view(assns@), service, received_reads(service, *partial_values));
            match r.1 {
                Ok(true) => o is Done && crate::ast::assns_view(r.0@) == a2 && *final(needed) == *old(needed),
                Ok(false) => (o matches EvalOutcome::Unresolved(x) && crate::ast::assns_view(r.0@) == a2
                    && final(needed).map() == old(needed).map().insert(x, ())
                    && (!old(needed).map().contains_key(x) ==> final(needed).keys() == old(needed).keys().push(x))),
                Err(f) => faulted(f, o),
            }
        }),
{
    let ghost all = crate::ast::assns_view(assns@);
    let ghost reads = received_reads(service, *partial_values);
    let ghost n0 = needed.map();
    let n = assns.len();
    let mut done = true;
    let mut result: Vec<Assn> = Vec::new();
    let mut rest = assns;
    let ghost mut stop = EvalOutcome::Done;
    proof {
        assert(crate::ast::assns_view(rest@).subrange(0, 0) =~= Seq::<AssnV>::empty());
    }
    let mut i: usize = 0;
    while i < n
        invariant
            i <= n,
            n == all.len(),
            all == crate::ast::assns_view(assns@),
            n0 == old(needed).map(),
            e@ == Seq::<crate::new_runtime::evaluator::FrameV>::empty(),
            e@ == old(e)@,
            reads == received_reads(service, *partial_values),
            rest@.len() == n - i,
            crate::ast::assns_view(rest@) == all.subrange(i as int, n as int),
            done ==> eval_assns(all, service, reads) == (crate::ast::assns_view(result@) + eval_assns(
                crate::ast::assns_view(rest@), service, reads).0, eval_assns(crate::ast::assns_view(rest@), service, reads).1),
            done ==> *needed == *old(needed),
            !done ==> eval_assns(all, service, reads) == (crate::ast::assns_view(result@) + crate::ast::assns_view(rest@), stop),
            !done ==> (stop matches EvalOutcome::Unresolved(x) && needed.map() == n0.insert(x, ())
                && (!n0.contains_key(x) ==> needed.keys() == old(needed).keys().push(x))),
        decreases n - i,
    {
        let ghost rest0 = rest@;
        let mut a = rest.remove(0);
        let ghost av = AssnV { dest: a.dest@, src: a.src@ };
        let ghost rv = crate::ast::assns_view(rest@);
        let ghost rs = seq![av] + rv;
        let ghost bv = crate::ast::assns_view(result@);
        let ghost was_done = done;
        proof {
            assert(crate::ast::assns_view(rest0) =~= rs) by {
                assert(rest@ =~= rest0.drop_first());
            }
            assert(rs.drop_first() =~= rv);
            assert(rs[0] == av);
        }
        if done {
            let ghost src0 = a.src@;
            match do_partial_eval(service, &mut a.src, partial_values, needed, e) {
                Ok(true) => {},
                Ok(false) => {
                    done = false;
                    proof {
                        stop = eval(Seq::empty(), src0, service, reads, EVAL_FUEL as nat, true).1;
                    }
                },
                Err(f) => {
                    proof {
                        assert(eval_assns(rs, service, reads).1 == eval(Seq::empty(), av.src, service, reads, EVAL_FUEL as nat, true).1);
                        assert(eval_assns(all, service, reads).1 == eval_assns(rs, service, reads).1);
                        assert(faulted(f, eval_assns(all, service, reads).1));
                    }
                    return (result, Err(f));
                },
            }
        }
        let ghost first = AssnV { dest: a.dest@, src: a.src@ };
        result.push(a);
        proof {
            let nr = crate::ast::assns_view(result@);
            assert(nr =~= bv.push(first));
            if was_done {
                if done {
                    let tail = eval_assns(rv, service, reads);
                    assert(bv + (seq![first] + tail.0) =~= nr + tail.0);
                } else {
                    assert(bv + (seq![first] + rv) =~= nr + rv);
                }
            } else {
                assert(first == av);
                assert(bv + rs =~= nr + rv);
            }
        }
        i = i + 1;
    }
    (result, Ok(done))
}

/// The assignments of `assns` as writes to `service` in `txid`, followed
/// by the request to prepare the commit.
fn writes_and_prepare(service: u64, txid: &TxId, assns: &Vec<Assn>) -> (r: Vec<Envelope>)
    ensures
        writes_then_prepare(r@, service, *txid, crate::ast::assns_view(assns@)),
{
    let mut out: Vec<Envelope> = Vec::new();
    let mut i: usize = 0;
    while i < assns.len()
        invariant
            i <= assns@.len(),
            out@.len() == i,
            forall|j: int| 0 <= j < i ==> #[trigger] is_write(out@[j], service, *txid, assns@[j].dest@, assns@[j].src@),
        decreases assns@.len() - i,
    {
        out.push(Envelope {
            to: Recipient::Service(service),
            msg: Msg::Write { txid: txid.copy(), reactive: ReactiveName(assns[i].dest.clone()), value: assns[i].src.copy() },
        });
        i = i + 1;
    }
    out.push(Envelope { to: Recipient::Service(service), msg: Msg::PrepareCommit { txid: txid.copy() } });
    out
}

impl Doer {
    /// A client that will do `expr` at `service`, its reads no older than
    /// `basis`, in a transaction of `manager` started when the clock reads
    /// `now_micros`; with the request for an exclusive lock it sends first.
    pub fn start(service: u64, expr: Expr, basis: BasisStamp, manager: String, now_micros: u64) -> (r: (Doer, Envelope))
        ensures
            r.0 matches Doer::LockRequested { service: s, txid, expr: e, basis: b } && s == service && e@ == expr@
                && b@ == basis@ && txid.manager@ == manager@ && txid.priority == crate::new_runtime::message::TxPriority::High
                && txid.timestamp.epoch_micros == (if now_micros > 0 { now_micros } else { 1 })
                && is_lock_request(r.1, service, txid),
    {
        let txid = new_txid(manager, now_micros);
        let lock = Envelope { to: Recipient::Service(service), msg: Msg::Lock { txid: txid.copy(), kind: LockKind::Exclusive } };
        (Doer::LockRequested { service, txid, expr, basis }, lock)
    }

    /// Carries on with `expr` given the values received (see `executed`).
    fn execute_expr(
        &mut self,
        service: u64,
        txid: TxId,
        expr: Expr,
        basis: BasisStamp,
        partial_values: Table<ReactiveName, Expr>,
    ) -> (r: Result<Vec<Envelope>, ClientFault>)
        ensures
            executed(service, txid, expr@, basis@, received_reads(service, partial_values), *final(self), r),
    {
        let ghost reads = received_reads(service, partial_values);
        let mut expr = expr;
        let mut needed: Table<ReactiveName, ()> = Table::new();
        let mut e = Evaluator::new();
        let is_done = match &expr {
            Expr::Action { .. } => true,
            _ => match do_partial_eval(service, &mut expr, &partial_values, &mut needed, &mut e) {
                Ok(b) => b,
                Err(f) => {
                    return Err(f);
                },
            },
        };
        if !is_done {
            let out = request_vars(service, &txid, &basis, &needed);
            proof {
                assert(needed.map() =~= map![needed.keys()[0] => ()]);
            }
            *self = Doer::AwaitingValues { service, txid, expr, partial_values, needed, basis };
            return Ok(out);
        }
        match expr {
            Expr::Action { assns } => {
                proof {
                    crate::ast::lemma_action_view(assns);
                }
                let (assns, res) = eval_assns_in_place(service, assns, &partial_values, &mut needed, &mut e);
                proof {
                    crate::ast::lemma_action_view(assns);
                }
                match res {
                    Err(f) => Err(f),
                    Ok(false) => {
                        let out = request_vars(service, &txid, &basis, &needed);
                        proof {
                            assert(needed.map() =~= map![needed.keys()[0] => ()]);
                        }
                        *self = Doer::AwaitingValues {
                            service,
                            txid,
                            expr: Expr::Action { assns },
                            partial_values,
                            needed,
                            basis,
                        };
                        Ok(out)
                    },
                    Ok(true) => {
                        let out = writes_and_prepare(service, &txid, &assns);
                        *self = Doer::PrepareRequested { service, txid };
                        Ok(out)
                    },
                }
            },
            _ => Err(ClientFault::NotAction),
        }
    }
}

/// The messages of a step, without what it finished with.
pub open spec fn sent<T>(r: Result<(Vec<Envelope>, T), ClientFault>) -> Result<Vec<Envelope>, ClientFault> {
    match r {
        Ok((out, _)) => Ok(out),
        Err(f) => Err(f),
    }
}

/// The reads `reads` with the value `value` of `reactive` of `service`
/// added.
pub open spec fn reads_with(reads: ReadsV, service: u64, reactive: Seq<char>, value: ExprV) -> ReadsV {
    (reads.0.push(((service, reactive), Some(value))), reads.1)
}

/// Whether running `expr` with the reads `reads` ends without a fault: it
/// comes to an action whose assignments are evaluated, or waits for a
/// reactive value (see `executed`).
pub open spec fn runs_cleanly(service: u64, expr: ExprV, reads: ReadsV) -> bool {
    let (e1, o1) = if expr is Action { (expr, EvalOutcome::Done) } else { eval(Seq::empty(), expr, service, reads, EVAL_FUEL as nat, true) };
    match o1 {
        EvalOutcome::Done => match e1 {
            ExprV::Action { assns } => {
                let o2 = eval_assns(assns, service, reads).1;
                o2 is Done || o2 is Unresolved
            },
            _ => false,
        },
        EvalOutcome::Unresolved(_) => true,
        _ => false,
    }
}

/// A copy of the received values, in the same order.
fn copy_values(vals: &Table<ReactiveName, Expr>) -> (r: Table<ReactiveName, Expr>)
    ensures
        r.keys() == vals.keys(),
        r.values().len() == vals.values().len(),
        forall|j: int| 0 <= j < vals.values().len() ==> (#[trigger] r.values()[j])@ == vals.values()[j]@,
{
    proof {
        vals.lemma_len();
    }
    let n = vals.len();
    let mut r: Table<ReactiveName, Expr> = Table::new();
    proof {
        r.lemma_len();
        assert(vals.keys().subrange(0, 0) =~= Seq::<Seq<char>>::empty());
    }
    let mut i: usize = 0;
    while i < n
        invariant
            i <= n,
            n == vals.keys().len(),
            n == vals.values().len(),
            n == vals.size(),
            vals.keys().no_duplicates(),
            r.keys() == vals.keys().subrange(0, i as int),
            r.values().len() == i,
            forall|j: int| 0 <= j < i ==> (#[trigger] r.values()[j])@ == vals.values()[j]@,
        decreases n - i,
    {
        proof {
            r.lemma_len();
        }
        let k = vals.key_at(i).copy();
        let v = vals.value_at(i).copy();
        proof {
            if r.map().contains_key(k@) {
                let j = choose|j: int| 0 <= j < i && r.keys()[j] == k@;
                assert(vals.keys()[j] == vals.keys()[i as int]);
            }
        }
        let ghost r0 = r;
        let _ = r.insert(k, v);
        proof {
            r.lemma_len();
            r0.lemma_len();
            assert(r.keys() =~= vals.keys().subrange(0, i + 1));
            assert(r.map() == r0.map().insert(vals.keys()[i as int], v));
            assert forall|j: int| 0 <= j < i + 1 implies (#[trigger] r.values()[j])@ == vals.values()[j]@ by {
                r.lemma_entry(j);
                if j < i {
                    r0.lemma_entry(j);
                    assert(r.keys()[j] != vals.keys()[i as int]);
                } else {
                    vals.lemma_entry(j);
                }
            }
        }
        i = i + 1;
    }
    proof {
        assert(vals.keys().subrange(0, n as int) =~= vals.keys());
    }
    r
}

/// One step of a `Doer` in state `d` on message `msg`, to state `d2`, with
/// result `r`: the messages it sends, and the basis of the commit once the
/// transaction is done. A granted lock starts the evaluation (see
/// `executed`); a value asked for is recorded, and the evaluation carries on
/// once no value is missing; a prepared commit is committed. A reply for
/// another transaction or from another service, a value not asked for, or
/// a message the state does not take, is a fault.
pub open spec fn doer_step(d: Doer, msg: Msg, d2: Doer, r: Result<(Vec<Envelope>, Option<BasisStamp>), ClientFault>) -> bool {
    match d {
        Doer::LockRequested { service, txid, expr, basis } => match msg {
            Msg::LockGranted { txid: t, service: s, .. } => if t@ == txid@ && s == service {
                &&& executed(service, txid, expr@, basis@, (Seq::empty(), false), d2, sent(r))
                &&& r is Ok ==> r->Ok_0.1 is None
            } else {
                r matches Err(ClientFault::Mismatch)
            },
            _ => r matches Err(ClientFault::Unexpected),
        },
        Doer::AwaitingValues { service, txid, expr, partial_values, needed, basis } => match msg {
            Msg::ReturnedValue { txid: t, service: s, reactive, value } => if t@ != txid@ || s != service {
                r matches Err(ClientFault::Mismatch)
            } else if partial_values.map().contains_key(reactive@) || !needed.map().contains_key(reactive@) {
                r matches Err(ClientFault::Unrequested)
            } else {
                let reads = reads_with(received_reads(service, partial_values), service, reactive@, value@);
                if needed.map().remove(reactive@).len() == 0 {
                    &&& executed(service, txid, expr@, basis@, reads, d2, sent(r))
                    &&& r is Ok ==> r->Ok_0.1 is None
                } else {
                    &&& r matches Ok((out, None)) && out@.len() == 0
                    &&& d2 matches Doer::AwaitingValues { service: s2, txid: t2, expr: e2, partial_values: p2, needed: n2, basis: b2 }
                        && s2 == service && t2@ == txid@ && e2@ == expr@ && received_reads(service, p2) == reads
                        && n2.map() == needed.map().remove(reactive@) && b2@ == basis@
                }
            },
            _ => r matches Err(ClientFault::Unexpected),
        },
        Doer::PrepareRequested { service, txid } => match msg {
            Msg::CommitPrepared { service: s, txid: t, basis } => if s == service && t@ == txid@ {
                &&& r matches Ok((out, Some(b))) && out@.len() == 1 && is_commit(out@[0], service, txid, basis@) && b@ == basis@
                &&& d2 is Done
            } else {
                r matches Err(ClientFault::Mismatch)
            },
            _ => r matches Err(ClientFault::Unexpected),
        },
        Doer::Done => r matches Err(ClientFault::Unexpected),
    }
}

impl Doer {
    /// Whether the protocol lets the client take `msg` in its current state:
    /// the grant of its own lock, a value of one of its own reads that it
    /// asked for and has not had yet, or its own commit being prepared, each
    /// from its service; and where the message lets the action run on, it
    /// runs without a fault (see `runs_cleanly`). It is never to be given
    /// any other message.
    pub open spec fn admits(self, msg: Msg) -> bool {
        match self {
            Doer::LockRequested { service, txid, expr, .. } => msg matches Msg::LockGranted { txid: t, service: s, .. }
                && t@ == txid@ && s == service && runs_cleanly(service, expr@, (Seq::empty(), false)),
            Doer::AwaitingValues { service, txid, expr, partial_values, needed, .. } => msg matches Msg::ReturnedValue {
                txid: t,
                service: s,
                reactive,
                value,
            } && t@ == txid@ && s == service && !partial_values.map().contains_key(reactive@)
                && needed.map().contains_key(reactive@) && (needed.map().remove(reactive@).len() == 0 ==> runs_cleanly(
                service, expr@, reads_with(received_reads(service, partial_values), service, reactive@, value@))),
            Doer::PrepareRequested { service, txid } => msg matches Msg::CommitPrepared { service: s, txid: t, .. }
                && t@ == txid@ && s == service,
            Doer::Done => false,
        }
    }

    /// Whether the protocol lets the client take `msg` now (see `admits`).
    pub fn accepts(&self, msg: &Msg) -> (r: bool)
        ensures
            r == self.admits(*msg),
    {
        match self {
            Doer::LockRequested { service, txid, expr, basis } => match msg {
                Msg::LockGranted { txid: t, service: s, .. } => {
                    if !(t.same(txid) && *s == *service) {
                        return false;
                    }
                    let pv: Table<ReactiveName, Expr> = Table::new();
                    proof {
                        assert(received_reads(*service, pv).0 =~= Seq::<((u64, Seq<char>), Option<ExprV>)>::empty());
                    }
                    let mut scratch = Doer::Done;
                    scratch.execute_expr(*service, txid.copy(), expr.copy(), basis.copy(), pv).is_ok()
                },
                _ => false,
            },
            Doer::AwaitingValues { service, txid, expr, partial_values, needed, basis } => match msg {
                Msg::ReturnedValue { txid: t, service: s, reactive, value } => {
                    if !(t.same(txid) && *s == *service && !partial_values.contains_key(reactive) && needed.contains_key(reactive)) {
                        return false;
                    }
                    proof {
                        needed.lemma_dom_finite();
                    }
                    if needed.len() != 1 {
                        return true;
                    }
                    let mut pv = copy_values(partial_values);
                    let ghost pv0 = pv;
                    let _ = pv.insert(reactive.copy(), value.copy());
                    proof {
                        pv.lemma_len();
                        pv0.lemma_len();
                        assert(received_reads(*service, pv).0 =~= received_reads(*service, pv0).0.push(((*service, reactive@), Some(value@))));
                        assert(received_reads(*service, pv) == reads_with(received_reads(*service, *partial_values), *service,
                            reactive@, value@));
                    }
                    let mut scratch = Doer::Done;
                    scratch.execute_expr(*service, txid.copy(), expr.copy(), basis.copy(), pv).is_ok()
                },
                _ => false,
            },
            Doer::PrepareRequested { service, txid } => match msg {
                Msg::CommitPrepared { service: s, txid: t, .. } => t.same(txid) && *s == *service,
                _ => false,
            },
            Doer::Done => false,
        }
    }

    /// Takes one message (see `doer_step`).
    pub fn handle(&mut self, msg: Msg) -> (r: Result<(Vec<Envelope>, Option<BasisStamp>), ClientFault>)
        requires
            old(self).admits(msg),
        ensures
            doer_step(*old(self), msg, *final(self), r),
            r is Ok,
    {
        let mut state = Doer::Done;
        std::mem::swap(&mut state, self);
        match state {
            Doer::LockRequested { service, txid, expr, basis } => match msg {
                Msg::LockGranted { txid: t, service: s, .. } => {
                    if !t.same(&txid) || s != service {
                        return Err(ClientFault::Mismatch);
                    }
                    let pv: Table<ReactiveName, Expr> = Table::new();
                    proof {
                        assert(received_reads(service, pv).0 =~= Seq::<((u64, Seq<char>), Option<ExprV>)>::empty());
                    }
                    match self.execute_expr(service, txid, expr, basis, pv) {
                        Ok(out) => Ok((out, None)),
                        Err(f) => Err(f),
                    }
                },
                _ => Err(ClientFault::Unexpected),
            },
            Doer::AwaitingValues { service, txid, expr, mut partial_values, mut needed, basis } => match msg {
                Msg::ReturnedValue { txid: t, service: s, reactive, value } => {
                    if !t.same(&txid) || s != service {
                        return Err(ClientFault::Mismatch);
                    }
                    if partial_values.contains_key(&reactive) {
                        return Err(ClientFault::Unrequested);
                    }
                    if needed.remove(&reactive).is_none() {
                        return Err(ClientFault::Unrequested);
                    }
                    let ghost pv0 = partial_values;
                    let ghost v = value@;
                    let ghost k = reactive@;
                    let _ = partial_values.insert(reactive, value);
                    proof {
                        partial_values.lemma_len();
                        pv0.lemma_len();
                        assert(received_reads(service, partial_values).0 =~= received_reads(service, pv0).0.push(((service, k), Some(v))));
                    }
                    if needed.len() == 0 {
                        match self.execute_expr(service, txid, expr, basis, partial_values) {
                            Ok(out) => Ok((out, None)),
                            Err(f) => Err(f),
                        }
                    } else {
                        *self = Doer::AwaitingValues { service, txid, expr, partial_values, needed, basis };
                        Ok((Vec::new(), None))
                    }
                },
                _ => Err(ClientFault::Unexpected),
            },
            Doer::PrepareRequested { service, txid } => match msg {
                Msg::CommitPrepared { service: s, txid: t, basis } => {
                    if s != service || !t.same(&txid) {
                        return Err(ClientFault::Mismatch);
                    }
                    let mut out: Vec<Envelope> = Vec::new();
                    out.push(Envelope { to: Recipient::Service(service), msg: Msg::Commit { txid: txid.copy(), basis: basis.copy() } });
                    Ok((out, Some(basis)))
                },
                _ => Err(ClientFault::Unexpected),
            },
            Doer::Done => Err(ClientFault::Unexpected),
        }
    }
}

/// The names of the reactives among `reads`.
pub open spec fn name_set(reads: Seq<(u64, Seq<char>)>) -> Set<Seq<char>> {
    reads.map_values(|r: (u64, Seq<char>)| r.1).to_set()
}

/// Adds the name of each reactive of `refs` to `needed`.
fn add_reads(needed: &mut Table<ReactiveName, ()>, refs: &Vec<ReactiveRef>)
    ensures
        final(needed).map().dom() == old(needed).map().dom() + name_set(crate::new_runtime::evaluator::refs_view(refs@)),
{
    let ghost all = crate::new_runtime::evaluator::refs_view(refs@);
    let mut i: usize = 0;
    while i < refs.len()
        invariant
            i <= refs@.len(),
            all == crate::new_runtime::evaluator::refs_view(refs@),
            needed.map().dom() == old(needed).map().dom() + name_set(all.subrange(0, i as int)),
        decreases refs@.len() - i,
    {
        let ghost before = needed.map().dom();
        let _ = needed.insert(refs[i].name.copy(), ());
        proof {
            let a = all.subrange(0, i as int).map_values(|r: (u64, Seq<char>)| r.1);
            let b = all.subrange(0, i + 1).map_values(|r: (u64, Seq<char>)| r.1);
            assert(b =~= a.push(refs@[i as int].name@));
            assert(b.to_set() =~= a.to_set().insert(refs@[i as int].name@)) by {
                a.lemma_push_to_set_commute(refs@[i as int].name@);
            }
            assert(needed.map().dom() =~= old(needed).map().dom() + name_set(all.subrange(0, i + 1)));
        }
        i = i + 1;
    }
    proof {
        assert(all.subrange(0, refs@.len() as int) =~= all);
    }
}

/// The names of the reactives that `expr` reads.
pub open spec fn read_names(expr: ExprV, service: u64) -> Set<Seq<char>> {
    name_set(crate::new_runtime::evaluator::reads_of(Seq::empty(), expr, service))
}

/// The line reporting that the assertion of `expr` held.
pub open spec fn success_line(expr: ExprV) -> Seq<char> {
    "assertion "@ + crate::ast::display::expr_text(expr) + " succeeded"@
}

/// A client checking an assertion in one transaction: it locks the
/// service, reads every reactive the expression reads, evaluates it, and
/// commits when it is `true`.
#[derive(Debug)]
pub enum Asserter {
    LockRequested { service: u64, txid: TxId, expr: Expr, basis: BasisStamp },
    AwaitingValues {
        service: u64,
        txid: TxId,
        expr: Expr,
        partial_values: Table<ReactiveName, Expr>,
        needed: Table<ReactiveName, ()>,
    },
    PrepareRequested { service: u64, txid: TxId },
    Done,
}

/// One step of an `Asserter` in state `d` on message `msg`, to state `d2`,
/// with result `r`: the messages it sends, and the line to report when the
/// assertion held. A granted lock makes it ask for every reactive the
/// expression reads; once all values are there the expression is evaluated,
/// and the commit is prepared when it is `true`; a prepared commit is
/// committed. An evaluation that fails or does not give `true`, a reply for
/// another transaction or from another service, a value not asked for, or
/// a message the state does not take, is a fault.
pub open spec fn asserter_step(d: Asserter, msg: Msg, d2: Asserter, r: Result<(Vec<Envelope>, Option<String>), ClientFault>) -> bool {
    match d {
        Asserter::LockRequested { service, txid, expr, basis } => match msg {
            Msg::LockGranted { txid: t, service: s, .. } => if t@ == txid@ && s == service {
                &&& r matches Ok((out, None))
                &&& d2 matches Asserter::AwaitingValues { service: s2, txid: t2, expr: e2, partial_values: p2, needed: n2 }
                    && s2 == service && t2@ == txid@ && e2@ == expr@ && p2.keys().len() == 0
                    && n2.map().dom() == read_names(expr@, service)
                    && out@.len() == n2.keys().len()
                    && forall|j: int| 0 <= j < out@.len() ==> #[trigger] is_read_request(out@[j], service, txid, n2.keys()[j], basis@)
            } else {
                r matches Err(ClientFault::Mismatch)
            },
            _ => r matches Err(ClientFault::Unexpected),
        },
        Asserter::AwaitingValues { service, txid, expr, partial_values, needed } => match msg {
            Msg::ReturnedValue { txid: t, service: s, reactive, value } => if t@ != txid@ || s != service {
                r matches Err(ClientFault::Mismatch)
            } else if partial_values.map().contains_key(reactive@) || !needed.map().contains_key(reactive@) {
                r matches Err(ClientFault::Unrequested)
            } else {
                let reads = reads_with(received_reads(service, partial_values), service, reactive@, value@);
                if needed.map().remove(reactive@).len() == 0 {
                    let (v, o) = eval(Seq::empty(), expr@, service, reads, EVAL_FUEL as nat, false);
                    if !(o is Done) {
                        r matches Err(f) && faulted(f, o)
                    } else if v != (ExprV::Bool { val: true }) {
                        r matches Err(ClientFault::AssertionFailed)
                    } else {
                        &&& r matches Ok((out, Some(line))) && out@.len() == 1 && is_prepare_request(out@[0], service, txid)
                            && line@ == success_line(expr@)
                        &&& d2 matches Asserter::PrepareRequested { service: s2, txid: t2 } && s2 == service && t2@ == txid@
                    }
                } else {
                    &&& r matches Ok((out, None)) && out@.len() == 0
                    &&& d2 matches Asserter::AwaitingValues { service: s2, txid: t2, expr: e2, partial_values: p2, needed: n2 }
                        && s2 == service && t2@ == txid@ && e2@ == expr@ && received_reads(service, p2) == reads
                        && n2.map() == needed.map().remove(reactive@)
                }
            },
            _ => r matches Err(ClientFault::Unexpected),
        },
        Asserter::PrepareRequested { service, txid } => match msg {
            Msg::CommitPrepared { service: s, txid: t, basis } => if s == service && t@ == txid@ {
                &&& r matches Ok((out, None)) && out@.len() == 1 && is_commit(out@[0], service, txid, basis@)
                &&& d2 is Done
            } else {
                r matches Err(ClientFault::Mismatch)
            },
            _ => r matches Err(ClientFault::Unexpected),
        },
        Asserter::Done => r matches Err(ClientFault::Unexpected),
    }
}

impl Asserter {
    /// A client that will check `expr` at `service`, its reads no older
    /// than `basis`, in a transaction of `manager` started when the clock
    /// reads `now_micros`; with the request for an exclusive lock it sends
    /// first.
    pub fn start(service: u64, expr: Expr, basis: BasisStamp, manager: String, now_micros: u64) -> (r: (Asserter, Envelope))
        ensures
            r.0 matches Asserter::LockRequested { service: s, txid, expr: e, basis: b } && s == service && e@ == expr@
                && b@ == basis@ && txid.manager@ == manager@ && txid.priority == crate::new_runtime::message::TxPriority::High
                && txid.timestamp.epoch_micros == (if now_micros > 0 { now_micros } else { 1 })
                && is_lock_request(r.1, service, txid),
    {
        let txid = new_txid(manager, now_micros);
        let lock = Envelope { to: Recipient::Service(service), msg: Msg::Lock { txid: txid.copy(), kind: LockKind::Exclusive } };
        (Asserter::LockRequested { service, txid, expr, basis }, lock)
    }

    /// Whether the protocol lets the client take `msg` in its current state:
    /// the grant of its own lock, a value of one of its own reads that it
    /// asked for and has not had yet, or its own commit being prepared, each
    /// from its service; and the last value it waits for makes the assertion
    /// evaluate to `true`. It is never to be given any other message.
    pub open spec fn admits(self, msg: Msg) -> bool {
        match self {
            Asserter::LockRequested { service, txid, .. } => msg matches Msg::LockGranted { txid: t, service: s, .. }
                && t@ == txid@ && s == service,
            Asserter::AwaitingValues { service, txid, expr, partial_values, needed } => msg matches Msg::ReturnedValue {
                txid: t,
                service: s,
                reactive,
                value,
            } && t@ == txid@ && s == service && !partial_values.map().contains_key(reactive@)
                && needed.map().contains_key(reactive@) && (needed.map().remove(reactive@).len() == 0 ==> eval(Seq::empty(),
                expr@, service, reads_with(received_reads(service, partial_values), service, reactive@, value@),
                EVAL_FUEL as nat, false) == (ExprV::Bool { val: true }, EvalOutcome::Done)),
            Asserter::PrepareRequested { service, txid } => msg matches Msg::CommitPrepared { service: s, txid: t, .. }
                && t@ == txid@ && s == service,
            Asserter::Done => false,
        }
    }

    /// Whether the protocol lets the client take `msg` now (see `admits`).
    pub fn accepts(&self, msg: &Msg) -> (r: bool)
        ensures
            r == self.admits(*msg),
    {
        match self {
            Asserter::LockRequested { service, txid, .. } => match msg {
                Msg::LockGranted { txid: t, service: s, .. } => t.same(txid) && *s == *service,
                _ => false,
            },
            Asserter::AwaitingValues { service, txid, expr, partial_values, needed } => match msg {
                Msg::ReturnedValue { txid: t, service: s, reactive, value } => {
                    if !(t.same(txid) && *s == *service && !partial_values.contains_key(reactive) && needed.contains_key(reactive)) {
                        return false;
                    }
                    proof {
                        needed.lemma_dom_finite();
                    }
                    if needed.len() != 1 {
                        return true;
                    }
                    let mut reads = reads_from(*service, partial_values);
                    reads.entries.push(ReadEntry { reactive: ReactiveRef { service: *service, name: reactive.copy() }, value: Some(value.copy()) });
                    proof {
                        assert(reads@ =~= reads_with(received_reads(*service, *partial_values), *service, reactive@, value@));
                    }
                    let mut e = Evaluator::new();
                    let mut x = expr.copy();
                    match e.eval_expr_checked(&mut x, *service, &reads) {
                        Some(Ok(())) => {},
                        _ => {
                            return false;
                        },
                    }
                    match x {
                        Expr::Bool { val } => val,
                        _ => false,
                    }
                },
                _ => false,
            },
            Asserter::PrepareRequested { service, txid } => match msg {
                Msg::CommitPrepared { service: s, txid: t, .. } => t.same(txid) && *s == *service,
                _ => false,
            },
            Asserter::Done => false,
        }
    }

    /// Takes one message (see `asserter_step`).
    pub fn handle(&mut self, msg: Msg) -> (r: Result<(Vec<Envelope>, Option<String>), ClientFault>)
        requires
            old(self).admits(msg),
        ensures
            asserter_step(*old(self), msg, *final(self), r),
            r is Ok,
    {
        let mut state = Asserter::Done;
        std::mem::swap(&mut state, self);
        match state {
            Asserter::LockRequested { service, txid, expr, basis } => match msg {
                Msg::LockGranted { txid: t, service: s, .. } => {
                    if !t.same(&txid) || s != service {
                        return Err(ClientFault::Mismatch);
                    }
                    let mut e = Evaluator::new();
                    let mut refs: Vec<ReactiveRef> = Vec::new();
                    e.visit_reads(&expr, service, &mut refs);
                    proof {
                        assert(crate::new_runtime::evaluator::refs_view(refs@) =~= crate::new_runtime::evaluator::reads_of(
                            Seq::empty(), expr@, service));
                    }
                    let mut needed: Table<ReactiveName, ()> = Table::new();
                    add_reads(&mut needed, &refs);
                    proof {
                        assert(needed.map().dom() =~= read_names(expr@, service));
                    }
                    let out = request_vars(service, &txid, &basis, &needed);
                    let partial_values: Table<ReactiveName, Expr> = Table::new();
                    *self = Asserter::AwaitingValues { service, txid, expr, partial_values, needed };
                    Ok((out, None))
                },
                _ => Err(ClientFault::Unexpected),
            },
            Asserter::AwaitingValues { service, txid, mut expr, mut partial_values, mut needed } => match msg {
                Msg::ReturnedValue { txid: t, service: s, reactive, value } => {
                    if !t.same(&txid) || s != service {
                        return Err(ClientFault::Mismatch);
                    }
                    if partial_values.contains_key(&reactive) {
                        return Err(ClientFault::Unrequested);
                    }
                    if needed.remove(&reactive).is_none() {
                        return Err(ClientFault::Unrequested);
                    }
                    let ghost pv0 = partial_values;
                    let ghost v = value@;
                    let ghost k = reactive@;
                    let _ = partial_values.insert(reactive, value);
                    proof {
                        partial_values.lemma_len();
                        pv0.lemma_len();
                        assert(received_reads(service, partial_values).0 =~= received_reads(service, pv0).0.push(((service, k), Some(v))));
                    }
                    if needed.len() == 0 {
                        let text = expr.text();
                        let reads = reads_from(service, &partial_values);
                        let mut e = Evaluator::new();
                        match e.eval_expr_checked(&mut expr, service, &reads) {
                            None => {
                                return Err(ClientFault::Stuck);
                            },
                            Some(Err(f)) => {
                                return Err(ClientFault::Evaluation(f));
                            },
                            Some(Ok(())) => {},
                        }
                        let holds = match &expr {
                            Expr::Bool { val } => *val,
                            _ => false,
                        };
                        if !holds {
                            return Err(ClientFault::AssertionFailed);
                        }
                        let mut line = String::from_str("assertion ");
                        crate::util::push_str(&mut line, text.as_str());
                        crate::util::push_str(&mut line, " succeeded");
                        proof {
                            reveal_strlit("assertion ");
                            reveal_strlit(" succeeded");
                        }
                        let mut out: Vec<Envelope> = Vec::new();
                        out.push(Envelope { to: Recipient::Service(service), msg: Msg::PrepareCommit { txid: txid.copy() } });
                        *self = Asserter::PrepareRequested { service, txid };
                        Ok((out, Some(line)))
                    } else {
                        *self = Asserter::AwaitingValues { service, txid, expr, partial_values, needed };
                        Ok((Vec::new(), None))
                    }
                },
                _ => Err(ClientFault::Unexpected),
            },
            Asserter::PrepareRequested { service, txid } => match msg {
                Msg::CommitPrepared { service: s, txid: t, basis } => {
                    if s != service || !t.same(&txid) {
                        return Err(ClientFault::Mismatch);
                    }
                    let mut out: Vec<Envelope> = Vec::new();
                    out.push(Envelope { to: Recipient::Service(service), msg: Msg::Commit { txid: txid.copy(), basis } });
                    Ok((out, None))
                },
                _ => Err(ClientFault::Unexpected),
            },
            Asserter::Done => Err(ClientFault::Unexpected),
        }
    }
}

/// The names of the reactives that the values of the variables among
/// `cs` read.
pub open spec fn config_reads(cs: Seq<(ReactiveName, Option<ReactiveConfiguration>)>, service: u64) -> Set<Seq<char>>
    decreases cs.len(),
{
    if cs.len() == 0 {
        Set::empty()
    } else {
        config_reads(cs.drop_last(), service) + match cs.last().1 {
            Some(ReactiveConfiguration::Variable { value }) => read_names(value@, service),
            _ => Set::empty(),
        }
    }
}

/// Whether configuration `c1` is `c0` with the value of a variable
/// evaluated under `reads`, the evaluation ending with a value.
pub open spec fn value_evaluated(c0: Option<ReactiveConfiguration>, c1: Option<ReactiveConfiguration>, service: u64, reads: ReadsV) -> bool {
    match c0 {
        Some(ReactiveConfiguration::Variable { value }) => {
            let (v, o) = eval(Seq::empty(), value@, service, reads, EVAL_FUEL as nat, false);
            o is Done && (c1 matches Some(ReactiveConfiguration::Variable { value: v1 }) && v1@ == v)
        },
        _ => c1 == c0,
    }
}

/// How evaluating the value of configuration `c` under `reads` ends: that
/// of a variable's value, `Done` for anything else.
pub open spec fn value_outcome(c: Option<ReactiveConfiguration>, service: u64, reads: ReadsV) -> EvalOutcome {
    match c {
        Some(ReactiveConfiguration::Variable { value }) => eval(Seq::empty(), value@, service, reads, EVAL_FUEL as nat, false).1,
        _ => EvalOutcome::Done,
    }
}

/// Whether `m` configures `service` in `txid` with the reactives `cs` and
/// no imports or exports.
pub open spec fn is_configure(m: Envelope, service: u64, txid: TxId, cs: Seq<(ReactiveName, Option<ReactiveConfiguration>)>) -> bool {
    &&& m.to == Recipient::Service(service)
    &&& m.msg matches Msg::Configure { txid: t, imports, reactives, exports } && t@ == txid@ && imports@.len() == 0
        && exports@.len() == 0 && reactives@ == cs
}

/// Evaluates the value of each variable among `cs` under `reads`, in order;
/// the first evaluation that fails is a fault.
fn eval_configs(
    service: u64,
    cs: Vec<(ReactiveName, Option<ReactiveConfiguration>)>,
    reads: &Reads,
) -> (r: Result<Vec<(ReactiveName, Option<ReactiveConfiguration>)>, ClientFault>)
    ensures
        match r {
            Ok(v) => v@.len() == cs@.len() && forall|j: int| 0 <= j < cs@.len() ==> (#[trigger] v@[j]).0 == cs@[j].0
                && value_evaluated(cs@[j].1, v@[j].1, service, reads@),
            Err(f) => exists|j: int| 0 <= j < cs@.len() && faulted(f, #[trigger] value_outcome(cs@[j].1, service, reads@))
                && forall|k: int| 0 <= k < j ==> value_outcome(#[trigger] cs@[k].1, service, reads@) is Done,
        },
{
    let ghost all = cs@;
    let n = cs.len();
    let mut rest = cs;
    let mut result: Vec<(ReactiveName, Option<ReactiveConfiguration>)> = Vec::new();
    let mut e = Evaluator::new();
    let mut i: usize = 0;
    while i < n
        invariant
            i <= n,
            n == all.len(),
            all == cs@,
            e@ == Seq::<crate::new_runtime::evaluator::FrameV>::empty(),
            rest@ == all.subrange(i as int, n as int),
            result@.len() == i,
            forall|j: int| 0 <= j < i ==> (#[trigger] result@[j]).0 == all[j].0
                && value_evaluated(all[j].1, result@[j].1, service, reads@),
            forall|k: int| 0 <= k < i ==> value_outcome(#[trigger] all[k].1, service, reads@) is Done,
        decreases n - i,
    {
        let ghost rest0 = rest@;
        let (name, config) = rest.remove(0);
        proof {
            assert(rest0[0] == all[i as int]);
            assert(rest@ =~= all.subrange(i + 1, n as int));
        }
        match config {
            Some(ReactiveConfiguration::Variable { mut value }) => {
                match e.eval_expr_checked(&mut value, service, reads) {
                    None => {
                        proof {
                            assert(faulted(ClientFault::Stuck, value_outcome(all[i as int].1, service, reads@)));
                        }
                        return Err(ClientFault::Stuck);
                    },
                    Some(Err(f)) => {
                        proof {
                            assert(faulted(ClientFault::Evaluation(f), value_outcome(all[i as int].1, service, reads@)));
                        }
                        return Err(ClientFault::Evaluation(f));
                    },
                    Some(Ok(())) => {},
                }
                result.push((name, Some(ReactiveConfiguration::Variable { value })));
            },
            other => {
                result.push((name, other));
            },
        }
        i = i + 1;
    }
    Ok(result)
}

/// A client configuring the reactives of a service in one transaction: it
/// locks the service, evaluates the initial values of the variables, sends
/// the configuration, and commits.
#[derive(Debug)]
pub enum Configurator {
    LockRequested { service: u64, reactives: Vec<(ReactiveName, Option<ReactiveConfiguration>)>, txid: TxId },
    AwaitingValues {
        service: u64,
        reactives: Vec<(ReactiveName, Option<ReactiveConfiguration>)>,
        txid: TxId,
        partial_values: Table<ReactiveName, Expr>,
        needed: Table<ReactiveName, ()>,
    },
    PrepareRequested { service: u64, txid: TxId },
    Fail,
}

/// One step of a `Configurator` in state `d` on message `msg`, to state
/// `d2`, with result `r`, the messages it sends. A granted lock sends the
/// configuration and asks for the commit to be prepared when no variable's
/// value reads a reactive, and otherwise waits for the values of those
/// reactives (without asking for them); once all are there, the values are
/// evaluated and the configuration is sent; a prepared commit is committed.
/// A failed evaluation, a reply for another transaction or from another
/// service, a value not awaited, or a message the state does not take, is a
/// fault.
pub open spec fn configurator_step(d: Configurator, msg: Msg, d2: Configurator, r: Result<Vec<Envelope>, ClientFault>) -> bool {
    match d {
        Configurator::LockRequested { service, reactives, txid } => match msg {
            Msg::LockGranted { txid: t, service: s, .. } => if t@ == txid@ && s == service {
                if config_reads(reactives@, service).len() == 0 {
                    &&& r matches Ok(out) && out@.len() == 2 && is_configure(out@[0], service, txid, reactives@)
                        && is_prepare_request(out@[1], service, txid)
                    &&& d2 matches Configurator::PrepareRequested { service: s2, txid: t2 } && s2 == service && t2@ == txid@
                } else {
                    &&& r matches Ok(out) && out@.len() == 0
                    &&& d2 matches Configurator::AwaitingValues { service: s2, reactives: rs, txid: t2, partial_values: p2, needed: n2 }
                        && s2 == service && t2@ == txid@ && rs == reactives && p2.keys().len() == 0
                        && n2.map().dom() == config_reads(reactives@, service)
                }
            } else {
                r matches Err(ClientFault::Mismatch)
            },
            _ => r matches Err(ClientFault::Unexpected),
        },
        Configurator::AwaitingValues { service, reactives, txid, partial_values, needed } => match msg {
            Msg::ReturnedValue { txid: t, service: s, reactive, value } => if t@ != txid@ || s != service {
                r matches Err(ClientFault::Mismatch)
            } else if partial_values.map().contains_key(reactive@) || !needed.map().contains_key(reactive@) {
                r matches Err(ClientFault::Unrequested)
            } else {
                let reads = reads_with(received_reads(service, partial_values), service, reactive@, value@);
                if needed.map().remove(reactive@).len() == 0 {
                    match r {
                        Ok(out) => out@.len() == 2 && is_prepare_request(out@[1], service, txid)
                            && (out@[0].msg matches Msg::Configure { reactives: rs, .. } && rs@.len() == reactives@.len()
                                && is_configure(out@[0], service, txid, rs@)
                                && forall|j: int| 0 <= j < reactives@.len() ==> (#[trigger] rs@[j]).0 == reactives@[j].0
                                    && value_evaluated(reactives@[j].1, rs@[j].1, service, reads))
                            && (d2 matches Configurator::PrepareRequested { service: s2, txid: t2 } && s2 == service && t2@ == txid@),
                        Err(f) => exists|j: int| 0 <= j < reactives@.len()
                            && faulted(f, #[trigger] value_outcome(reactives@[j].1, service, reads))
                            && forall|k: int| 0 <= k < j ==> value_outcome(#[trigger] reactives@[k].1, service, reads) is Done,
                    }
                } else {
                    &&& r matches Ok(out) && out@.len() == 0
                    &&& d2 matches Configurator::AwaitingValues { service: s2, reactives: rs, txid: t2, partial_values: p2, needed: n2 }
                        && s2 == service && rs == reactives && t2@ == txid@ && received_reads(service, p2) == reads
                        && n2.map() == needed.map().remove(reactive@)
                }
            },
            _ => r matches Err(ClientFault::Unexpected),
        },
        Configurator::PrepareRequested { service, txid } => match msg {
            Msg::CommitPrepared { service: s, txid: t, basis } => if s == service && t@ == txid@ {
                &&& r matches Ok(out) && out@.len() == 1 && is_commit(out@[0], service, txid, basis@)
                &&& d2 is Fail
            } else {
                r matches Err(ClientFault::Mismatch)
            },
            _ => r matches Err(ClientFault::Unexpected),
        },
        Configurator::Fail => r matches Err(ClientFault::Unexpected),
    }
}

/// The configuration `reactives` sent to `service` in `txid`, followed by
/// the request to prepare the commit.
fn configure_and_prepare(service: u64, txid: &TxId, reactives: Vec<(ReactiveName, Option<ReactiveConfiguration>)>) -> (r: Vec<Envelope>)
    ensures
        r@.len() == 2,
        is_configure(r@[0], service, *txid, reactives@),
        is_prepare_request(r@[1], service, *txid),
{
    let mut out: Vec<Envelope> = Vec::new();
    out.push(Envelope {
        to: Recipient::Service(service),
        msg: Msg::Configure { txid: txid.copy(), imports: Vec::new(), reactives, exports: Vec::new() },
    });
    out.push(Envelope { to: Recipient::Service(service), msg: Msg::PrepareCommit { txid: txid.copy() } });
    out
}

impl Configurator {
    /// A client that will configure `reactives` at `service` in a
    /// transaction of `manager` started when the clock reads `now_micros`;
    /// with the request for an exclusive lock it sends first.
    pub fn start(
        service: u64,
        reactives: Vec<(ReactiveName, Option<ReactiveConfiguration>)>,
        manager: String,
        now_micros: u64,
    ) -> (r: (Configurator, Envelope))
        ensures
            r.0 matches Configurator::LockRequested { service: s, reactives: rs, txid } && s == service && rs == reactives
                && txid.manager@ == manager@ && txid.priority == crate::new_runtime::message::TxPriority::High
                && txid.timestamp.epoch_micros == (if now_micros > 0 { now_micros } else { 1 })
                && is_lock_request(r.1, service, txid),
    {
        let txid = new_txid(manager, now_micros);
        let lock = Envelope { to: Recipient::Service(service), msg: Msg::Lock { txid: txid.copy(), kind: LockKind::Exclusive } };
        (Configurator::LockRequested { service, reactives, txid }, lock)
    }

    /// Whether the protocol lets the client take `msg` in its current state:
    /// the grant of its own lock, a value of one of its own reads that it
    /// asked for and has not had yet, or its own commit being prepared, each
    /// from its service; and the last value it waits for lets the value of
    /// each variable it configures be evaluated. It is never to be given any
    /// other message.
    pub open spec fn admits(self, msg: Msg) -> bool {
        match self {
            Configurator::LockRequested { service, txid, .. } => msg matches Msg::LockGranted { txid: t, service: s, .. }
                && t@ == txid@ && s == service,
            Configurator::AwaitingValues { service, reactives, txid, partial_values, needed } => msg matches Msg::ReturnedValue {
                txid: t,
                service: s,
                reactive,
                value,
            } && t@ == txid@ && s == service && !partial_values.map().contains_key(reactive@)
                && needed.map().contains_key(reactive@) && (needed.map().remove(reactive@).len() == 0 ==> forall|j: int|
                0 <= j < reactives@.len() ==> value_outcome(#[trigger] reactives@[j].1, service, reads_with(received_reads(
                service, partial_values), service, reactive@, value@)) is Done),
            Configurator::PrepareRequested { service, txid } => msg matches Msg::CommitPrepared { service: s, txid: t, .. }
                && t@ == txid@ && s == service,
            Configurator::Fail => false,
        }
    }

    /// Whether the protocol lets the client take `msg` now (see `admits`).
    pub fn accepts(&self, msg: &Msg) -> (r: bool)
        ensures
            r == self.admits(*msg),
    {
        match self {
            Configurator::LockRequested { service, txid, .. } => match msg {
                Msg::LockGranted { txid: t, service: s, .. } => t.same(txid) && *s == *service,
                _ => false,
            },
            Configurator::AwaitingValues { service, reactives, txid, partial_values, needed } => match msg {
                Msg::ReturnedValue { txid: t, service: s, reactive, value } => {
                    if !(t.same(txid) && *s == *service && !partial_values.contains_key(reactive) && needed.contains_key(reactive)) {
                        return false;
                    }
                    proof {
                        needed.lemma_dom_finite();
                    }
                    if needed.len() != 1 {
                        return true;
                    }
                    let mut reads = reads_from(*service, partial_values);
                    reads.entries.push(ReadEntry { reactive: ReactiveRef { service: *service, name: reactive.copy() }, value: Some(value.copy()) });
                    let ghost rv = reads_with(received_reads(*service, *partial_values), *service, reactive@, value@);
                    proof {
                        assert(reads@ =~= rv);
                        assert(needed.map().remove(reactive@).len() == 0);
                        assert(self.admits(*msg) <==> (forall|j: int| 0 <= j < reactives@.len()
                            ==> value_outcome(#[trigger] reactives@[j].1, *service, rv) is Done));
                    }
                    let mut k: usize = 0;
                    while k < reactives.len()
                        invariant
                            k <= reactives@.len(),
                            self.admits(*msg) <==> (forall|j: int| 0 <= j < reactives@.len()
                                ==> value_outcome(#[trigger] reactives@[j].1, *service, rv) is Done),
                            reads@ == rv,
                            forall|j: int| 0 <= j < k ==> value_outcome(#[trigger] reactives@[j].1, *service, rv) is Done,
                        decreases reactives@.len() - k,
                    {
                        match &reactives[k].1 {
                            Some(ReactiveConfiguration::Variable { value: v }) => {
                                let mut e = Evaluator::new();
                                let mut x = v.copy();
                                match e.eval_expr_checked(&mut x, *service, &reads) {
                                    Some(Ok(())) => {},
                                    _ => {
                                        return false;
                                    },
                                }
                            },
                            _ => {},
                        }
                        k = k + 1;
                    }
                    true
                },
                _ => false,
            },
            Configurator::PrepareRequested { service, txid } => match msg {
                Msg::CommitPrepared { service: s, txid: t, .. } => t.same(txid) && *s == *service,
                _ => false,
            },
            Configurator::Fail => false,
        }
    }

    /// Takes one message (see `configurator_step`).
    pub fn handle(&mut self, msg: Msg) -> (r: Result<Vec<Envelope>, ClientFault>)
        requires
            old(self).admits(msg),
        ensures
            configurator_step(*old(self), msg, *final(self), r),
            r is Ok,
    {
        let mut state = Configurator::Fail;
        std::mem::swap(&mut state, self);
        match state {
            Configurator::LockRequested { service, reactives, txid } => match msg {
                Msg::LockGranted { txid: t, service: s, .. } => {
                    if !t.same(&txid) || s != service {
                        return Err(ClientFault::Mismatch);
                    }
                    let mut needed: Table<ReactiveName, ()> = Table::new();
                    let mut e = Evaluator::new();
                    let mut i: usize = 0;
                    proof {
                        assert(reactives@.subrange(0, 0) =~= Seq::<(ReactiveName, Option<ReactiveConfiguration>)>::empty());
                        assert(needed.map().dom() =~= Set::<Seq<char>>::empty());
                    }
                    while i < reactives.len()
                        invariant
                            i <= reactives@.len(),
                            e@ == Seq::<crate::new_runtime::evaluator::FrameV>::empty(),
                            needed.map().dom() == config_reads(reactives@.subrange(0, i as int), service),
                        decreases reactives@.len() - i,
                    {
                        proof {
                            assert(reactives@.subrange(0, i + 1).drop_last() =~= reactives@.subrange(0, i as int));
                        }
                        match &reactives[i].1 {
                            Some(ReactiveConfiguration::Variable { value }) => {
                                let mut refs: Vec<ReactiveRef> = Vec::new();
                                e.visit_reads(value, service, &mut refs);
                                proof {
                                    assert(crate::new_runtime::evaluator::refs_view(refs@) =~= crate::new_runtime::evaluator::reads_of(
                                        Seq::empty(), value@, service));
                                }
                                add_reads(&mut needed, &refs);
                            },
                            _ => {
                                proof {
                                    assert(config_reads(reactives@.subrange(0, i + 1), service) =~= config_reads(
                                        reactives@.subrange(0, i as int), service));
                                }
                            },
                        }
                        i = i + 1;
                    }
                    proof {
                        assert(reactives@.subrange(0, reactives@.len() as int) =~= reactives@);
                        needed.lemma_dom_finite();
                    }
                    if needed.len() == 0 {
                        let out = configure_and_prepare(service, &txid, reactives);
                        *self = Configurator::PrepareRequested { service, txid };
                        Ok(out)
                    } else {
                        let partial_values: Table<ReactiveName, Expr> = Table::new();
                        *self = Configurator::AwaitingValues { service, reactives, txid, partial_values, needed };
                        Ok(Vec::new())
                    }
                },
                _ => Err(ClientFault::Unexpected),
            },
            Configurator::AwaitingValues { service, reactives, txid, mut partial_values, mut needed } => match msg {
                Msg::ReturnedValue { txid: t, service: s, reactive, value } => {
                    if !t.same(&txid) || s != service {
                        return Err(ClientFault::Mismatch);
                    }
                    if partial_values.contains_key(&reactive) {
                        return Err(ClientFault::Unrequested);
                    }
                    if needed.remove(&reactive).is_none() {
                        return Err(ClientFault::Unrequested);
                    }
                    let ghost pv0 = partial_values;
                    let ghost v = value@;
                    let ghost k = reactive@;
                    let _ = partial_values.insert(reactive, value);
                    proof {
                        partial_values.lemma_len();
                        pv0.lemma_len();
                        assert(received_reads(service, partial_values).0 =~= received_reads(service, pv0).0.push(((service, k), Some(v))));
                    }
                    if needed.len() == 0 {
                        let reads = reads_from(service, &partial_values);
                        let evaluated = match eval_configs(service, reactives, &reads) {
                            Ok(v) => v,
                            Err(f) => {
                                return Err(f);
                            },
                        };
                        let out = configure_and_prepare(service, &txid, evaluated);
                        *self = Configurator::PrepareRequested { service, txid };
                        Ok(out)
                    } else {
                        *self = Configurator::AwaitingValues { service, reactives, txid, partial_values, needed };
                        Ok(Vec::new())
                    }
                },
                _ => Err(ClientFault::Unexpected),
            },
            Configurator::PrepareRequested { service, txid } => match msg {
                Msg::CommitPrepared { service: s, txid: t, basis } => {
                    if s != service || !t.same(&txid) {
                        return Err(ClientFault::Mismatch);
                    }
                    let mut out: Vec<Envelope> = Vec::new();
                    out.push(Envelope { to: Recipient::Service(service), msg: Msg::Commit { txid: txid.copy(), basis } });
                    Ok(out)
                },
                _ => Err(ClientFault::Unexpected),
            },
            Configurator::Fail => Err(ClientFault::Unexpected),
        }
    }
}

/// A configuration as plain values: whether it is a variable, and its
/// expression; `None` removes a reactive.
pub open spec fn config_view(c: Option<ReactiveConfiguration>) -> Option<(bool, ExprV)> {
    match c {
        Some(ReactiveConfiguration::Variable { value }) => Some((true, value@)),
        Some(ReactiveConfiguration::Definition { expr }) => Some((false, expr@)),
        None => None,
    }
}

/// The reactives that declarations `ds` declare, a later declaration of a
/// name replacing an earlier one: a variable with its initial value, or a
/// definition with its expression.
pub open spec fn declared(ds: Seq<crate::ast::Decl>) -> Map<Seq<char>, Option<(bool, ExprV)>>
    decreases ds.len(),
{
    if ds.len() == 0 {
        Map::empty()
    } else {
        match ds.last() {
            crate::ast::Decl::VarDecl { name, val } => declared(ds.drop_last()).insert(name@, Some((true, val@))),
            crate::ast::Decl::DefDecl { name, val, .. } => declared(ds.drop_last()).insert(name@, Some((false, val@))),
            _ => declared(ds.drop_last()),
        }
    }
}

/// Whether every declaration of `ds` declares a variable or a definition.
pub open spec fn only_reactives(ds: Seq<crate::ast::Decl>) -> bool {
    forall|j: int| 0 <= j < ds.len() ==> (#[trigger] ds[j] is VarDecl || ds[j] is DefDecl)
}

/// The reactives that the declarations of a service declare, one entry per
/// name (see `declared`); `None` when a declaration is an import or a
/// table, which services do not take yet.
pub fn service_reactives(service: &crate::ast::Service) -> (r: Option<Vec<(ReactiveName, Option<ReactiveConfiguration>)>>)
    ensures
        r is Some <==> only_reactives(service.decls@),
        r matches Some(v) ==> ({
            let names = v@.map_values(|e: (ReactiveName, Option<ReactiveConfiguration>)| e.0@);
            &&& names.no_duplicates()
            &&& forall|k: Seq<char>| #[trigger] declared(service.decls@).contains_key(k) <==> names.contains(k)
            &&& forall|j: int| 0 <= j < v@.len() ==> declared(service.decls@)[(#[trigger] v@[j]).0@] == config_view(v@[j].1)
        }),
{
    let ds = &service.decls;
    let mut t: Table<ReactiveName, Option<ReactiveConfiguration>> = Table::new();
    let mut i: usize = 0;
    proof {
        assert(t.map() =~= Map::<Seq<char>, Option<ReactiveConfiguration>>::empty());
    }
    while i < ds.len()
        invariant
            i <= ds@.len(),
            ds@ == service.decls@,
            only_reactives(ds@.subrange(0, i as int)),
            t.map().dom() == declared(ds@.subrange(0, i as int)).dom(),
            forall|k: Seq<char>| #[trigger] t.map().contains_key(k) ==> declared(ds@.subrange(0, i as int))[k] == config_view(t.map()[k]),
        decreases ds@.len() - i,
    {
        proof {
            assert(ds@.subrange(0, i + 1).drop_last() =~= ds@.subrange(0, i as int));
            assert(ds@.subrange(0, i + 1).last() == ds@[i as int]);
        }
        match &ds[i] {
            crate::ast::Decl::VarDecl { name, val } => {
                let _ = t.insert(ReactiveName(name.clone()), Some(ReactiveConfiguration::Variable { value: val.copy() }));
            },
            crate::ast::Decl::DefDecl { name, val, .. } => {
                let _ = t.insert(ReactiveName(name.clone()), Some(ReactiveConfiguration::Definition { expr: val.copy() }));
            },
            _ => {
                proof {
                    assert(!only_reactives(ds@)) by {
                        assert(!(ds@[i as int] is VarDecl || ds@[i as int] is DefDecl));
                    }
                }
                return None;
            },
        }
        proof {
            let p = ds@.subrange(0, i + 1);
            assert(t.map().dom() =~= declared(p).dom());
            assert(only_reactives(p)) by {
                assert forall|j: int| 0 <= j < p.len() implies (#[trigger] p[j] is VarDecl || p[j] is DefDecl) by {
                    if j < i {
                        assert(p[j] == ds@.subrange(0, i as int)[j]);
                    }
                }
            }
        }
        i = i + 1;
    }
    proof {
        assert(ds@.subrange(0, ds@.len() as int) =~= ds@);
    }
    let v = t.into_entries();
    proof {
        let names = v@.map_values(|e: (ReactiveName, Option<ReactiveConfiguration>)| e.0@);
        assert forall|j: int| 0 <= j < v@.len() implies declared(service.decls@)[(#[trigger] v@[j]).0@] == config_view(v@[j].1) by {
            assert(t.keys().contains(v@[j].0@)) by {
                assert(t.keys()[j] == v@[j].0@);
            }
            assert(t.map().contains_key(v@[j].0@));
            assert(t.map()[v@[j].0@] == v@[j].1);
        }
    }
    Some(v)
}

} // verus!

verus! {

/// An asserter reports that its assertion held only on the last value it
/// waited for, and only when its expression, evaluated with the values
/// received, is `true`; the line it reports is `assertion <expr> succeeded`.
/// Where that evaluation gives `false` instead, the step is the fault
/// `AssertionFailed`.
pub proof fn law_assertion_reported_only_when_true(d: Asserter, msg: Msg, d2: Asserter,
    r: Result<(Vec<Envelope>, Option<String>), ClientFault>)
    requires
        asserter_step(d, msg, d2, r),
    ensures
        r matches Ok((_, Some(line))) ==> (match (d, msg) {
            (Asserter::AwaitingValues { service, expr, partial_values, .. }, Msg::ReturnedValue { reactive, value, .. }) =>
                eval(Seq::empty(), expr@, service, reads_with(received_reads(service, partial_values), service, reactive@, value@),
                EVAL_FUEL as nat, false) == (ExprV::Bool { val: true }, EvalOutcome::Done)
                && line@ == "assertion "@ + crate::ast::display::expr_text(expr@) + " succeeded"@,
            _ => false,
        }),
        (match (d, msg) {
            (Asserter::AwaitingValues { service, expr, partial_values, needed, txid }, Msg::ReturnedValue { reactive, value,
                txid: t, service: s }) => t@ == txid@ && s == service && !partial_values.map().contains_key(reactive@)
                && needed.map().contains_key(reactive@) && needed.map().remove(reactive@).len() == 0 && eval(Seq::empty(),
                expr@, service, reads_with(received_reads(service, partial_values), service, reactive@, value@), EVAL_FUEL as nat,
                false) == (ExprV::Bool { val: false }, EvalOutcome::Done),
            _ => false,
        }) ==> r matches Err(ClientFault::AssertionFailed),
{
}

} // verus!
