//! Batches: which queued updates of a definition's inputs may be applied
//! together, so that the new value is computed from a consistent view.
//!
//! Each input `i` has a queue of updates. A batch takes a prefix of each
//! queue, `c[i]` updates long. The stamp of the batch is the least upper
//! bound of the bases of all updates it takes. An input is settled when, on
//! each root it depends on, the batch stamp is not ahead of the input's basis
//! after the batch (its last taken update, or its current value when it
//! takes none). A batch seeded by input `s` takes at least one update of `s`
//! and settles every input.
use vstd::prelude::*;

use crate::new_runtime::evaluator::refs_view;
use crate::new_runtime::message::{latest_of, stamp_join, stamp_prec_eq, BasisStamp, RefKey, StampedValue};
use crate::new_runtime::service::reactive::Input;
use crate::new_runtime::service::ReactiveRef;
use crate::table::Table;

verus! {

/// The basis of update `j` of input `a`.
pub open spec fn upd_basis(ins: Seq<Input>, a: int, j: int) -> Map<RefKey, u64> {
    ins[a].updates@[j].basis@
}

/// The basis of an input's current value, empty when it has none.
pub open spec fn start_basis(inp: Input) -> Map<RefKey, u64> {
    match inp.value {
        Some(v) => v.basis@,
        None => Map::empty(),
    }
}

/// The basis of input `i` once it has taken `c` updates.
pub open spec fn cur_basis(ins: Seq<Input>, i: int, c: int) -> Map<RefKey, u64> {
    if c > 0 {
        upd_basis(ins, i, c - 1)
    } else {
        start_basis(ins[i])
    }
}

/// Whether the batch `c` takes update `j` of input `a`.
pub open spec fn taken(ins: Seq<Input>, c: Seq<int>, a: int, j: int) -> bool {
    0 <= a < ins.len() && 0 <= j < c[a]
}

/// Whether input `i` is settled under batch `c`: no taken update is ahead
/// of the input's basis after the batch on a root of the input.
pub open spec fn settled(ins: Seq<Input>, rts: Seq<Set<RefKey>>, c: Seq<int>, i: int) -> bool {
    forall|r: RefKey, a: int, j: int|
        rts[i].contains(r) && taken(ins, c, a, j) ==> #[trigger] latest_of(upd_basis(ins, a, j), r)
            <= latest_of(cur_basis(ins, i, c[i]), r)
}

/// Whether every count lies between zero and its limit.
pub open spec fn within(c: Seq<int>, lim: Seq<int>) -> bool {
    &&& c.len() == lim.len()
    &&& forall|i: int| 0 <= i < c.len() ==> 0 <= #[trigger] c[i] <= lim[i]
}

/// Whether `c` is a batch seeded by input `s` within the limits `lim`.
pub open spec fn is_batch(ins: Seq<Input>, rts: Seq<Set<RefKey>>, lim: Seq<int>, s: int, c: Seq<int>) -> bool {
    &&& c.len() == ins.len()
    &&& within(c, lim)
    &&& c[s] >= 1
    &&& forall|i: int| 0 <= i < c.len() ==> #[trigger] settled(ins, rts, c, i)
}

/// Pointwise order on counts.
pub open spec fn below(c: Seq<int>, d: Seq<int>) -> bool {
    forall|i: int| 0 <= i < c.len() ==> #[trigger] c[i] <= d[i]
}

/// Whether `c` is the least batch seeded by `s`: a batch below every other.
pub open spec fn least_batch(ins: Seq<Input>, rts: Seq<Set<RefKey>>, lim: Seq<int>, s: int, c: Seq<int>) -> bool {
    &&& is_batch(ins, rts, lim, s, c)
    &&& forall|d: Seq<int>| #[trigger] is_batch(ins, rts, lim, s, d) ==> below(c, d)
}

/// The limits of a search: no update of an input already explored as a seed
/// without success, all updates of the others.
pub open spec fn limits(ins: Seq<Input>, explored: Set<int>) -> Seq<int> {
    Seq::new(ins.len(), |i: int| if explored.contains(i) { 0 } else { ins[i].updates@.len() as int })
}

/// The search over the seeds from `s` on: each seed with a least batch
/// replaces what was found; each seed without one is explored, and no later
/// seed takes updates from it.
pub open spec fn search(
    ins: Seq<Input>,
    rts: Seq<Set<RefKey>>,
    s: int,
    explored: Set<int>,
    found: Option<Seq<int>>,
) -> Option<Seq<int>>
    decreases ins.len() - s,
{
    if s < 0 || s >= ins.len() {
        found
    } else {
        let lim = limits(ins, explored);
        if exists|c: Seq<int>| least_batch(ins, rts, lim, s, c) {
            search(ins, rts, s + 1, explored, Some(choose|c: Seq<int>| least_batch(ins, rts, lim, s, c)))
        } else {
            search(ins, rts, s + 1, explored.insert(s), found)
        }
    }
}

/// The batch that a search over all seeds, in input order, settles on.
pub open spec fn chosen_batch(ins: Seq<Input>, rts: Seq<Set<RefKey>>) -> Option<Seq<int>> {
    search(ins, rts, 0, Set::empty(), None)
}

/// What a search over the seeds from `s` settles on leaves every input
/// settled, where what it was given to start from does.
proof fn lemma_search_settled(ins: Seq<Input>, rts: Seq<Set<RefKey>>, s: int, explored: Set<int>, found: Option<Seq<int>>)
    requires
        found matches Some(c) ==> c.len() == ins.len() && forall|i: int| 0 <= i < c.len() ==> #[trigger] settled(ins, rts, c, i),
    ensures
        search(ins, rts, s, explored, found) matches Some(c) ==> c.len() == ins.len() && forall|i: int| 0 <= i < c.len()
            ==> #[trigger] settled(ins, rts, c, i),
    decreases ins.len() - s,
{
    if !(s < 0 || s >= ins.len()) {
        let lim = limits(ins, explored);
        if exists|c: Seq<int>| least_batch(ins, rts, lim, s, c) {
            let c = choose|c: Seq<int>| least_batch(ins, rts, lim, s, c);
            lemma_search_settled(ins, rts, s + 1, explored, Some(c));
        } else {
            lemma_search_settled(ins, rts, s + 1, explored.insert(s), found);
        }
    }
}

/// Glitch freedom: the batch of queued updates that a definition applies
/// leaves each of its inputs settled. On every root of an input, no update
/// that the batch takes, from any input, is ahead of that input's value
/// after the batch; so the definition never combines values that reflect
/// different states of a common root.
pub proof fn law_chosen_batch_settled(ins: Seq<Input>, rts: Seq<Set<RefKey>>)
    ensures
        chosen_batch(ins, rts) matches Some(c) ==> c.len() == ins.len() && forall|i: int| 0 <= i < c.len()
            ==> #[trigger] settled(ins, rts, c, i),
{
    lemma_search_settled(ins, rts, 0, Set::empty(), None);
}

/// Whether `b` is the least upper bound of the stamps in `s`.
pub open spec fn is_lub(b: Map<RefKey, u64>, s: Set<Map<RefKey, u64>>) -> bool {
    &&& forall|m: Map<RefKey, u64>, k: RefKey| s.contains(m) ==> #[trigger] latest_of(m, k) <= latest_of(b, k)
    &&& forall|m: Map<RefKey, u64>, k: RefKey| s.contains(m) && #[trigger] m.contains_key(k) ==> b.contains_key(k)
    &&& forall|k: RefKey| #[trigger] b.contains_key(k) ==> exists|m: Map<RefKey, u64>|
        s.contains(m) && m.contains_key(k) && m[k] == b[k]
}

/// The bases of the updates that batch `c` takes.
pub open spec fn taken_stamps(ins: Seq<Input>, c: Seq<int>) -> Set<Map<RefKey, u64>> {
    Set::new(|m: Map<RefKey, u64>| exists|a: int, j: int| taken(ins, c, a, j) && m == upd_basis(ins, a, j))
}

/// The stamps whose least upper bound is the basis of the value computed
/// after batch `c`: the taken updates' bases, and the bases of the values of
/// the inputs that take no update, among the first `upto` inputs.
pub open spec fn batch_stamps_upto(ins: Seq<Input>, c: Seq<int>, upto: int) -> Set<Map<RefKey, u64>> {
    taken_stamps(ins, c) + Set::new(|m: Map<RefKey, u64>| exists|a: int|
        0 <= a < upto && a < ins.len() && c[a] == 0 && ins[a].value is Some && m == start_basis(ins[a]))
}

pub open spec fn batch_stamps(ins: Seq<Input>, c: Seq<int>) -> Set<Map<RefKey, u64>> {
    batch_stamps_upto(ins, c, ins.len() as int)
}

/// The value of an input after it takes `c` updates.
pub open spec fn applied_value(inp: Input, c: int) -> Option<StampedValue> {
    if c > 0 {
        Some(inp.updates@[c - 1])
    } else {
        inp.value
    }
}

/// Whether every input has a value after batch `c`.
pub open spec fn applied_valued(ins: Seq<Input>, c: Seq<int>) -> bool {
    forall|i: int| 0 <= i < ins.len() ==> (#[trigger] applied_value(ins[i], c[i])) is Some
}

/// The reads that the inputs' values allow after batch `c`.
pub open spec fn applied_entries(keys: Seq<RefKey>, ins: Seq<Input>, c: Seq<int>) -> Seq<(RefKey, Option<crate::ast::ExprV>)> {
    Seq::new(keys.len(), |i: int| (keys[i], match applied_value(ins[i], c[i]) {
        Some(v) => Some(v.value@),
        None => None,
    }))
}

/// The counts as integers.
pub open spec fn counts_view(c: Seq<usize>) -> Seq<int> {
    c.map_values(|x: usize| x as int)
}

/// The inputs marked explored.
pub open spec fn explored_set(e: Seq<bool>) -> Set<int> {
    Set::new(|i: int| 0 <= i < e.len() && e[i])
}

/// The roots of each input, as sets.
pub open spec fn root_sets(rts: Seq<Vec<ReactiveRef>>) -> Seq<Set<RefKey>> {
    Seq::new(rts.len(), |i: int| refs_view(rts[i]@).to_set())
}

/// What remains to be taken under the limits.
pub open spec fn remaining(lim: Seq<usize>, p: Seq<usize>) -> int
    decreases p.len(),
{
    if p.len() == 0 || lim.len() == 0 {
        0
    } else {
        remaining(lim.drop_last(), p.drop_last()) + (lim.last() - p.last())
    }
}

proof fn lemma_remaining_step(lim: Seq<usize>, p: Seq<usize>, i: int)
    requires
        lim.len() == p.len(),
        0 <= i < p.len(),
        p[i] < lim[i],
    ensures
        remaining(lim, p.update(i, (p[i] + 1) as usize)) == remaining(lim, p) - 1,
    decreases p.len(),
{
    let q = p.update(i, (p[i] + 1) as usize);
    if i == p.len() - 1 {
        assert(q.drop_last() =~= p.drop_last());
    } else {
        assert(q.drop_last() =~= p.drop_last().update(i, (p[i] + 1) as usize));
        lemma_remaining_step(lim.drop_last(), p.drop_last(), i);
    }
}

proof fn lemma_remaining_nonneg(lim: Seq<usize>, p: Seq<usize>)
    requires
        lim.len() == p.len(),
        forall|i: int| 0 <= i < p.len() ==> p[i] <= lim[i],
    ensures
        remaining(lim, p) >= 0,
    decreases p.len(),
{
    if p.len() > 0 {
        lemma_remaining_nonneg(lim.drop_last(), p.drop_last());
    }
}

/// Joining a stamp into a least upper bound gives that of the enlarged set.
pub proof fn lemma_lub_insert(b: Map<RefKey, u64>, s: Set<Map<RefKey, u64>>, m: Map<RefKey, u64>)
    requires
        is_lub(b, s),
    ensures
        is_lub(stamp_join(b, m), s.insert(m)),
{
    let j = stamp_join(b, m);
    let t = s.insert(m);
    assert forall|k: RefKey| #[trigger] j.contains_key(k) implies exists|x: Map<RefKey, u64>|
        t.contains(x) && x.contains_key(k) && x[k] == j[k] by {
        if latest_of(b, k) >= latest_of(m, k) && b.contains_key(k) {
            let x = choose|x: Map<RefKey, u64>| s.contains(x) && x.contains_key(k) && x[k] == b[k];
            assert(t.contains(x));
        } else {
            assert(m.contains_key(k));
            assert(t.contains(m));
        }
    }
}

/// A single stamp is the least upper bound of itself.
pub proof fn lemma_lub_single(m: Map<RefKey, u64>)
    ensures
        is_lub(m, Set::empty().insert(m)),
{
    let t = Set::<Map<RefKey, u64>>::empty().insert(m);
    assert forall|k: RefKey| #[trigger] m.contains_key(k) implies exists|x: Map<RefKey, u64>|
        t.contains(x) && x.contains_key(k) && x[k] == m[k] by {
        assert(t.contains(m));
    }
}

/// Under the least upper bound of the taken stamps, comparing a stamp
/// against an input's basis tells whether the input is settled.
proof fn lemma_prec_settled(ins: Seq<Input>, rts: Seq<Set<RefKey>>, c: Seq<int>, i: int, b: Map<RefKey, u64>)
    requires
        is_lub(b, taken_stamps(ins, c)),
    ensures
        stamp_prec_eq(b, cur_basis(ins, i, c[i]), rts[i]) <==> settled(ins, rts, c, i),
{
    let cb = cur_basis(ins, i, c[i]);
    if stamp_prec_eq(b, cb, rts[i]) {
        assert forall|r: RefKey, a: int, j: int| rts[i].contains(r) && taken(ins, c, a, j) implies
            #[trigger] latest_of(upd_basis(ins, a, j), r) <= latest_of(cb, r) by {
            assert(taken_stamps(ins, c).contains(upd_basis(ins, a, j)));
            assert(latest_of(upd_basis(ins, a, j), r) <= latest_of(b, r));
        }
    }
    if settled(ins, rts, c, i) {
        assert forall|r: RefKey| rts[i].contains(r) implies latest_of(b, r) <= latest_of(cb, r) by {
            if b.contains_key(r) {
                let m = choose|m: Map<RefKey, u64>| taken_stamps(ins, c).contains(m) && m.contains_key(r) && m[r] == b[r];
                let (a, j) = choose|a: int, j: int| taken(ins, c, a, j) && m == upd_basis(ins, a, j);
                assert(latest_of(upd_basis(ins, a, j), r) <= latest_of(cb, r));
            }
        }
    }
}

/// An input that is not settled must take more updates in every batch above
/// the current counts.
proof fn lemma_forced(
    ins: Seq<Input>,
    rts: Seq<Set<RefKey>>,
    lim: Seq<int>,
    s: int,
    c: Seq<int>,
    d: Seq<int>,
    i: int,
    b: Map<RefKey, u64>,
)
    requires
        is_lub(b, taken_stamps(ins, c)),
        !stamp_prec_eq(b, cur_basis(ins, i, c[i]), rts[i]),
        is_batch(ins, rts, lim, s, d),
        c.len() == d.len(),
        below(c, d),
        0 <= i < c.len(),
    ensures
        c[i] < d[i],
{
    if c[i] == d[i] {
        assert(settled(ins, rts, d, i));
        let cb = cur_basis(ins, i, c[i]);
        let r = choose|r: RefKey| rts[i].contains(r) && !(latest_of(b, r) <= latest_of(cb, r));
        assert(b.contains_key(r));
        let m = choose|m: Map<RefKey, u64>| taken_stamps(ins, c).contains(m) && m.contains_key(r) && m[r] == b[r];
        let (a, j) = choose|a: int, j: int| taken(ins, c, a, j) && m == upd_basis(ins, a, j);
        assert(c[a] <= d[a]);
        assert(taken(ins, d, a, j));
        assert(latest_of(upd_basis(ins, a, j), r) <= latest_of(cur_basis(ins, i, d[i]), r));
        assert(false);
    }
}

/// There is at most one least batch.
proof fn lemma_least_unique(ins: Seq<Input>, rts: Seq<Set<RefKey>>, lim: Seq<int>, s: int, c: Seq<int>, d: Seq<int>)
    requires
        least_batch(ins, rts, lim, s, c),
        least_batch(ins, rts, lim, s, d),
    ensures
        c == d,
{
    assert(below(c, d));
    assert(below(d, c));
    assert(c =~= d);
}

/// Taking one more update of input `i` adds its basis to the taken stamps.
proof fn lemma_taken_step(ins: Seq<Input>, c: Seq<int>, i: int)
    requires
        0 <= i < c.len(),
        c.len() == ins.len(),
        c[i] >= 0,
    ensures
        taken_stamps(ins, c.update(i, c[i] + 1)) == taken_stamps(ins, c).insert(upd_basis(ins, i, c[i])),
{
    let c2 = c.update(i, c[i] + 1);
    assert forall|m: Map<RefKey, u64>| #[trigger] taken_stamps(ins, c2).contains(m) <==> taken_stamps(ins, c).insert(
        upd_basis(ins, i, c[i]),
    ).contains(m) by {
        if taken_stamps(ins, c2).contains(m) {
            let (a, j) = choose|a: int, j: int| taken(ins, c2, a, j) && m == upd_basis(ins, a, j);
            if !(a == i && j == c[i]) {
                assert(taken(ins, c, a, j));
            }
        }
        if taken_stamps(ins, c).contains(m) {
            let (a, j) = choose|a: int, j: int| taken(ins, c, a, j) && m == upd_basis(ins, a, j);
            assert(taken(ins, c2, a, j));
        }
        if m == upd_basis(ins, i, c[i]) {
            assert(taken(ins, c2, i, c[i]));
        }
    }
    assert(taken_stamps(ins, c2) =~= taken_stamps(ins, c).insert(upd_basis(ins, i, c[i])));
}

/// The first batch step of seed `s`: one update of `s`.
proof fn lemma_taken_seed(ins: Seq<Input>, n: int, s: int)
    requires
        n == ins.len(),
        0 <= s < n,
    ensures
        taken_stamps(ins, Seq::new(n as nat, |i: int| 0int).update(s, 1)) == Set::empty().insert(upd_basis(ins, s, 0)),
{
    let z = Seq::new(n as nat, |i: int| 0int);
    assert(taken_stamps(ins, z) =~= Set::empty()) by {
        assert forall|m: Map<RefKey, u64>| !taken_stamps(ins, z).contains(m) by {}
    }
    lemma_taken_step(ins, z, s);
}

/// Tries seed `s`: the least batch it seeds within the limits, with the
/// least upper bound of the bases it takes, or `None` when it seeds none.
pub fn try_seed(inputs: &Table<ReactiveRef, Input>, rts: &Vec<Vec<ReactiveRef>>, explored: &Vec<bool>, s: usize) -> (r:
    Option<(Vec<usize>, BasisStamp)>)
    requires
        s < inputs.size(),
        rts@.len() == inputs.size(),
        explored@.len() == inputs.size(),
    ensures
        match r {
            Some((c, b)) => least_batch(
                inputs.values(),
                root_sets(rts@),
                limits(inputs.values(), explored_set(explored@)),
                s as int,
                counts_view(c@),
            ) && is_lub(b@, taken_stamps(inputs.values(), counts_view(c@))),
            None => forall|d: Seq<int>| !is_batch(
                inputs.values(),
                root_sets(rts@),
                limits(inputs.values(), explored_set(explored@)),
                s as int,
                d,
            ),
        },
{
    let ghost ins = inputs.values();
    let ghost rs = root_sets(rts@);
    let ghost lim = limits(ins, explored_set(explored@));
    let n = inputs.len();
    proof {
        inputs.lemma_len();
    }
    let lim_s: usize = if explored[s] { 0 } else { inputs.value_at(s).updates.len() };
    if lim_s == 0 {
        proof {
            assert(lim[s as int] == 0);
        }
        return None;
    }
    let mut pos: Vec<usize> = Vec::new();
    let mut cur: Vec<BasisStamp> = Vec::new();
    let mut lims: Vec<usize> = Vec::new();
    let mut i: usize = 0;
    while i < n
        invariant
            i <= n,
            n == ins.len(),
            n == inputs.size(),
            ins == inputs.values(),
            lim == limits(ins, explored_set(explored@)),
            explored@.len() == n,
            pos@.len() == i,
            cur@.len() == i,
            lims@.len() == i,
            forall|a: int| 0 <= a < i ==> pos@[a] == 0,
            forall|a: int| 0 <= a < i ==> (#[trigger] cur@[a])@ == start_basis(ins[a]),
            forall|a: int| 0 <= a < i ==> (#[trigger] lims@[a]) as int == lim[a],
        decreases n - i,
    {
        let inp = inputs.value_at(i);
        let st = match &inp.value {
            Some(v) => v.basis.copy(),
            None => BasisStamp::empty(),
        };
        pos.push(0);
        cur.push(st);
        lims.push(if explored[i] { 0 } else { inp.updates.len() });
        i = i + 1;
    }
    let first = inputs.value_at(s).updates[0].basis.copy();
    let ghost zero = counts_view(pos@);
    proof {
        assert(zero =~= Seq::new(n as nat, |a: int| 0int));
        lemma_taken_seed(ins, n as int, s as int);
    }
    pos.set(s, 1);
    cur.set(s, first.copy());
    let mut b = first;
    proof {
        assert(counts_view(pos@) =~= zero.update(s as int, 1));
        lemma_lub_single(b@);
        assert forall|d: Seq<int>| #[trigger] is_batch(ins, rs, lim, s as int, d) implies below(counts_view(pos@), d) by {
            assert forall|a: int| 0 <= a < n implies #[trigger] counts_view(pos@)[a] <= d[a] by {
                assert(0 <= d[a]);
            }
        }
    }
    let ghost mut rem: int = remaining(lims@, pos@);
    proof {
        lemma_remaining_nonneg(lims@, pos@);
    }
    loop
        invariant
            n == ins.len(),
            n == inputs.size(),
            ins == inputs.values(),
            rs == root_sets(rts@),
            rts@.len() == n,
            lim == limits(ins, explored_set(explored@)),
            s < n,
            pos@.len() == n,
            cur@.len() == n,
            lims@.len() == n,
            forall|a: int| 0 <= a < n ==> (#[trigger] lims@[a]) as int == lim[a],
            forall|a: int| 0 <= a < n ==> #[trigger] pos@[a] <= lims@[a],
            pos@[s as int] >= 1,
            forall|a: int| 0 <= a < n ==> (#[trigger] cur@[a])@ == cur_basis(ins, a, pos@[a] as int),
            is_lub(b@, taken_stamps(ins, counts_view(pos@))),
            forall|d: Seq<int>| #[trigger] is_batch(ins, rs, lim, s as int, d) ==> below(counts_view(pos@), d),
            rem == remaining(lims@, pos@),
            rem >= 0,
        ensures
            is_batch(ins, rs, lim, s as int, counts_view(pos@)),
        decreases rem,
    {
        let mut changed = false;
        let ghost rem0 = rem;
        let mut i: usize = 0;
        while i < n
            invariant
                n == ins.len(),
                n == inputs.size(),
                ins == inputs.values(),
                rs == root_sets(rts@),
                rts@.len() == n,
                lim == limits(ins, explored_set(explored@)),
                s < n,
                i <= n,
                pos@.len() == n,
                cur@.len() == n,
                lims@.len() == n,
                forall|a: int| 0 <= a < n ==> (#[trigger] lims@[a]) as int == lim[a],
                forall|a: int| 0 <= a < n ==> #[trigger] pos@[a] <= lims@[a],
                pos@[s as int] >= 1,
                forall|a: int| 0 <= a < n ==> (#[trigger] cur@[a])@ == cur_basis(ins, a, pos@[a] as int),
                is_lub(b@, taken_stamps(ins, counts_view(pos@))),
                forall|d: Seq<int>| #[trigger] is_batch(ins, rs, lim, s as int, d) ==> below(counts_view(pos@), d),
                rem == remaining(lims@, pos@),
                rem >= 0,
                changed ==> rem < rem0,
                !changed ==> rem == rem0,
                !changed ==> forall|a: int| 0 <= a < i ==> #[trigger] stamp_prec_eq(b@, cur@[a]@, rs[a]),
            decreases n - i,
        {
            let ghost b0 = b@;
            let ghost cur0 = cur@;
            while !b.prec_eq_wrt_roots(&cur[i], &rts[i])
                invariant
                    n == ins.len(),
                    n == inputs.size(),
                    ins == inputs.values(),
                    rs == root_sets(rts@),
                    rts@.len() == n,
                    lim == limits(ins, explored_set(explored@)),
                    s < n,
                    i < n,
                    pos@.len() == n,
                    cur@.len() == n,
                    lims@.len() == n,
                    forall|a: int| 0 <= a < n ==> (#[trigger] lims@[a]) as int == lim[a],
                    forall|a: int| 0 <= a < n ==> #[trigger] pos@[a] <= lims@[a],
                    pos@[s as int] >= 1,
                    forall|a: int| 0 <= a < n ==> (#[trigger] cur@[a])@ == cur_basis(ins, a, pos@[a] as int),
                    is_lub(b@, taken_stamps(ins, counts_view(pos@))),
                    forall|d: Seq<int>| #[trigger] is_batch(ins, rs, lim, s as int, d) ==> below(counts_view(pos@), d),
                    rem == remaining(lims@, pos@),
                    rem >= 0,
                    changed ==> rem < rem0,
                    !changed ==> rem == rem0,
                    !changed ==> b@ == b0 && cur@ == cur0,
                    !changed ==> forall|a: int| 0 <= a < i ==> #[trigger] stamp_prec_eq(b@, cur@[a]@, rs[a]),
                decreases lims@[i as int] - pos@[i as int],
            {
                proof {
                    assert(rs[i as int] == refs_view(rts@[i as int]@).to_set());
                }
                if pos[i] == lims[i] {
                    proof {
                        assert forall|d: Seq<int>| !is_batch(ins, rs, lim, s as int, d) by {
                            if is_batch(ins, rs, lim, s as int, d) {
                                lemma_forced(ins, rs, lim, s as int, counts_view(pos@), d, i as int, b@);
                                assert(d[i as int] <= lim[i as int]);
                            }
                        }
                    }
                    return None;
                }
                let p = pos[i];
                let ghost c0 = counts_view(pos@);
                let nb = inputs.value_at(i).updates[p].basis.copy();
                proof {
                    assert forall|d: Seq<int>| #[trigger] is_batch(ins, rs, lim, s as int, d) implies c0[i as int] < d[i as int] by {
                        lemma_forced(ins, rs, lim, s as int, c0, d, i as int, b@);
                    }
                    lemma_taken_step(ins, c0, i as int);
                    lemma_lub_insert(b@, taken_stamps(ins, c0), nb@);
                    lemma_remaining_step(lims@, pos@, i as int);
                }
                b.merge_from(&nb);
                cur.set(i, nb);
                pos.set(i, p + 1);
                proof {
                    assert(counts_view(pos@) =~= c0.update(i as int, c0[i as int] + 1));
                    rem = rem - 1;
                    lemma_remaining_nonneg(lims@, pos@);
                    assert forall|d: Seq<int>| #[trigger] is_batch(ins, rs, lim, s as int, d) implies below(counts_view(pos@), d) by {
                        assert(below(c0, d));
                        assert(c0[i as int] < d[i as int]);
                    }
                }
                changed = true;
            }
            proof {
                assert(rs[i as int] == refs_view(rts@[i as int]@).to_set());
            }
            i = i + 1;
        }
        if !changed {
            proof {
                let c = counts_view(pos@);
                assert forall|a: int| 0 <= a < c.len() implies #[trigger] settled(ins, rs, c, a) by {
                    assert(stamp_prec_eq(b@, cur@[a]@, rs[a]));
                    lemma_prec_settled(ins, rs, c, a, b@);
                }
                assert(within(c, lim));
                assert(is_batch(ins, rs, lim, s as int, c));
            }
            break;
        }
    }
    Some((pos, b))
}

/// Searches the seeds in input order and gives the batch the last
/// successful seed found, with the least upper bound of the bases it takes.
pub fn find_batch(inputs: &Table<ReactiveRef, Input>, rts: &Vec<Vec<ReactiveRef>>) -> (r: Option<(Vec<usize>, BasisStamp)>)
    requires
        rts@.len() == inputs.size(),
    ensures
        match (r, chosen_batch(inputs.values(), root_sets(rts@))) {
            (Some((c, b)), Some(cs)) => counts_view(c@) == cs && is_lub(b@, taken_stamps(inputs.values(), cs)),
            (None, None) => true,
            _ => false,
        },
{
    let ghost ins = inputs.values();
    let ghost rs = root_sets(rts@);
    let n = inputs.len();
    proof {
        inputs.lemma_len();
    }
    let mut explored: Vec<bool> = Vec::new();
    let mut k: usize = 0;
    while k < n
        invariant
            k <= n,
            explored@.len() == k,
            forall|a: int| 0 <= a < k ==> !explored@[a],
        decreases n - k,
    {
        explored.push(false);
        k = k + 1;
    }
    proof {
        assert(explored_set(explored@) =~= Set::<int>::empty());
    }
    let mut found: Option<(Vec<usize>, BasisStamp)> = None;
    let ghost mut gfound: Option<Seq<int>> = None;
    let mut s: usize = 0;
    while s < n
        invariant
            s <= n,
            n == ins.len(),
            n == inputs.size(),
            ins == inputs.values(),
            rs == root_sets(rts@),
            rts@.len() == n,
            explored@.len() == n,
            chosen_batch(ins, rs) == search(ins, rs, s as int, explored_set(explored@), gfound),
            match (found, gfound) {
                (Some((c, b)), Some(cs)) => counts_view(c@) == cs && is_lub(b@, taken_stamps(ins, cs)),
                (None, None) => true,
                _ => false,
            },
        decreases n - s,
    {
        let ghost e = explored_set(explored@);
        let ghost lim = limits(ins, e);
        let res = try_seed(inputs, rts, &explored, s);
        match res {
            Some((c, b)) => {
                proof {
                    let cs = counts_view(c@);
                    assert(least_batch(ins, rs, lim, s as int, cs));
                    let ch = choose|x: Seq<int>| least_batch(ins, rs, lim, s as int, x);
                    lemma_least_unique(ins, rs, lim, s as int, ch, cs);
                    gfound = Some(cs);
                }
                found = Some((c, b));
            },
            None => {
                proof {
                    assert(!exists|x: Seq<int>| least_batch(ins, rs, lim, s as int, x));
                }
                explored.set(s, true);
                proof {
                    assert(explored_set(explored@) =~= e.insert(s as int));
                }
            },
        }
        s = s + 1;
    }
    found
}

} // verus!

verus! {

/// Counts that fit the update queues.
pub open spec fn fits_queues(ins: Seq<Input>, c: Seq<int>) -> bool {
    &&& c.len() == ins.len()
    &&& forall|a: int| 0 <= a < c.len() ==> 0 <= #[trigger] c[a] <= ins[a].updates@.len()
}

/// Whatever a search settles on fits the update queues.
pub proof fn lemma_search_fits(ins: Seq<Input>, rts: Seq<Set<RefKey>>, s: int, e: Set<int>, f: Option<Seq<int>>)
    requires
        f matches Some(c) ==> fits_queues(ins, c),
    ensures
        search(ins, rts, s, e, f) matches Some(c) ==> fits_queues(ins, c),
    decreases ins.len() - s,
{
    if s < 0 || s >= ins.len() {
    } else {
        let lim = limits(ins, e);
        if exists|c: Seq<int>| least_batch(ins, rts, lim, s, c) {
            let c = choose|c: Seq<int>| least_batch(ins, rts, lim, s, c);
            assert forall|a: int| 0 <= a < c.len() implies 0 <= #[trigger] c[a] <= ins[a].updates@.len() by {
                assert(c[a] <= lim[a]);
            }
            lemma_search_fits(ins, rts, s + 1, e, Some(c));
        } else {
            lemma_search_fits(ins, rts, s + 1, e.insert(s), f);
        }
    }
}

/// The roots of each input, taken from `roots`.
pub open spec fn input_roots(keys: Seq<RefKey>, roots: Map<RefKey, Vec<ReactiveRef>>) -> Seq<Set<RefKey>> {
    Seq::new(keys.len(), |i: int| refs_view(roots[keys[i]]@).to_set())
}

/// A copy of a list of references.
pub fn copy_refs(v: &Vec<ReactiveRef>) -> (r: Vec<ReactiveRef>)
    ensures
        refs_view(r@) == refs_view(v@),
{
    let mut r: Vec<ReactiveRef> = Vec::new();
    let mut i: usize = 0;
    while i < v.len()
        invariant
            i <= v.len(),
            r@.len() == i,
            refs_view(r@) == refs_view(v@).subrange(0, i as int),
        decreases v.len() - i,
    {
        let ghost before = r@;
        r.push(v[i].copy());
        proof {
            assert(r@.drop_last() =~= before);
            assert(refs_view(r@)[i as int] == refs_view(v@)[i as int]);
            assert(refs_view(r@) =~= refs_view(v@).subrange(0, i + 1));
        }
        i = i + 1;
    }
    proof {
        assert(refs_view(v@).subrange(0, v@.len() as int) =~= refs_view(v@));
    }
    r
}

/// The roots of each input, in input order.
pub fn gather_roots(inputs: &Table<ReactiveRef, Input>, roots: &Table<ReactiveRef, Vec<ReactiveRef>>) -> (r: Vec<Vec<ReactiveRef>>)
    requires
        forall|k: RefKey| #[trigger] inputs.map().contains_key(k) ==> roots.map().contains_key(k),
    ensures
        r@.len() == inputs.size(),
        root_sets(r@) == input_roots(inputs.keys(), roots.map()),
{
    let n = inputs.len();
    proof {
        inputs.lemma_len();
    }
    let mut r: Vec<Vec<ReactiveRef>> = Vec::new();
    let mut i: usize = 0;
    while i < n
        invariant
            i <= n,
            n == inputs.size(),
            n == inputs.keys().len(),
            r@.len() == i,
            forall|k: RefKey| #[trigger] inputs.map().contains_key(k) ==> roots.map().contains_key(k),
            forall|a: int| 0 <= a < i ==> refs_view((#[trigger] r@[a])@) == refs_view(roots.map()[inputs.keys()[a]]@),
        decreases n - i,
    {
        let k = inputs.key_at(i);
        match roots.get(k) {
            Some(v) => r.push(copy_refs(v)),
            None => {
                proof {
                    assert(false);
                }
                r.push(Vec::new());
            },
        }
        i = i + 1;
    }
    proof {
        assert(root_sets(r@) =~= input_roots(inputs.keys(), roots.map()));
    }
    r
}

} // verus!

verus! {

/// Whether the counts take at least one update.
pub open spec fn takes_some(c: Seq<int>) -> bool {
    exists|a: int| 0 <= a < c.len() && c[a] >= 1
}

/// Whatever a search settles on takes at least one update.
pub proof fn lemma_search_positive(ins: Seq<Input>, rts: Seq<Set<RefKey>>, s: int, e: Set<int>, f: Option<Seq<int>>)
    requires
        f matches Some(c) ==> takes_some(c),
    ensures
        search(ins, rts, s, e, f) matches Some(c) ==> takes_some(c),
    decreases ins.len() - s,
{
    if s < 0 || s >= ins.len() {
    } else {
        let lim = limits(ins, e);
        if exists|c: Seq<int>| least_batch(ins, rts, lim, s, c) {
            let c = choose|c: Seq<int>| least_batch(ins, rts, lim, s, c);
            assert(c.len() == ins.len());
            assert(0 <= s < c.len() && c[s] >= 1);
            assert(takes_some(c));
            lemma_search_positive(ins, rts, s + 1, e, Some(c));
        } else {
            lemma_search_positive(ins, rts, s + 1, e.insert(s), f);
        }
    }
}

/// The number of updates queued at the inputs.
pub open spec fn total_updates(ins: Seq<Input>) -> int
    decreases ins.len(),
{
    if ins.len() == 0 {
        0
    } else {
        total_updates(ins.drop_last()) + ins.last().updates@.len()
    }
}

/// The sum of the counts.
pub open spec fn count_sum(c: Seq<int>) -> int
    decreases c.len(),
{
    if c.len() == 0 {
        0
    } else {
        count_sum(c.drop_last()) + c.last()
    }
}

/// Counts that are not negative sum to at least each of them.
pub proof fn lemma_count_sum_bound(c: Seq<int>, a: int)
    requires
        0 <= a < c.len(),
        forall|i: int| 0 <= i < c.len() ==> c[i] >= 0,
    ensures
        count_sum(c) >= c[a],
    decreases c.len(),
{
    if a < c.len() - 1 {
        lemma_count_sum_bound(c.drop_last(), a);
        assert(c.drop_last()[a] == c[a]);
    }
    lemma_count_sum_nonneg(c.drop_last());
}

pub proof fn lemma_count_sum_nonneg(c: Seq<int>)
    requires
        forall|i: int| 0 <= i < c.len() ==> c[i] >= 0,
    ensures
        count_sum(c) >= 0,
    decreases c.len(),
{
    if c.len() > 0 {
        lemma_count_sum_nonneg(c.drop_last());
    }
}

} // verus!
