//! Messages and the values they carry: versions, iterations, basis stamps
//! and transaction identifiers.
use vstd::prelude::*;

use crate::ast::{Expr, ExprV};
use crate::new_runtime::service::{Export, Import, ReactiveName, ReactiveRef};

verus! {

/// The version of a reactive's configuration.
#[derive(Debug, Clone, Copy, PartialEq, Eq, PartialOrd, Ord, Hash)]
pub struct Version(pub u64);

impl Version {
    /// The first version.
    pub fn zero() -> (r: Version)
        ensures
            r.0 == 0,
    {
        Version(0)
    }

    /// The next version.
    pub fn increment(self) -> (r: Version)
        requires
            self.0 < u64::MAX,
        ensures
            r.0 == self.0 + 1,
    {
        Version(self.0 + 1)
    }
}

/// How many times a root reactive has been written.
#[derive(Debug, Clone, Copy, PartialEq, Eq, PartialOrd, Ord, Hash)]
pub struct Iteration(pub u64);

impl Iteration {
    /// The first iteration.
    pub fn zero() -> (r: Iteration)
        ensures
            r.0 == 0,
    {
        Iteration(0)
    }

    /// The next iteration.
    pub fn increment(self) -> (r: Iteration)
        requires
            self.0 < u64::MAX,
        ensures
            r.0 == self.0 + 1,
    {
        Iteration(self.0 + 1)
    }
}

/// A reactive reference as a mathematical key.
pub type RefKey = (u64, Seq<char>);

/// The iteration that a stamp records for `k`; zero when it records none.
pub open spec fn latest_of(m: Map<RefKey, u64>, k: RefKey) -> u64 {
    if m.contains_key(k) { m[k] } else { 0 }
}

pub open spec fn max_u64(a: u64, b: u64) -> u64 {
    if a >= b { a } else { b }
}

/// The least stamp above both: every root of either, with the larger
/// iteration.
pub open spec fn stamp_join(a: Map<RefKey, u64>, b: Map<RefKey, u64>) -> Map<RefKey, u64> {
    Map::new(
        |k: RefKey| a.contains_key(k) || b.contains_key(k),
        |k: RefKey| max_u64(latest_of(a, k), latest_of(b, k)),
    )
}

/// Whether stamp `a` precedes or equals stamp `b` on each of the roots.
pub open spec fn stamp_prec_eq(a: Map<RefKey, u64>, b: Map<RefKey, u64>, roots: Set<RefKey>) -> bool {
    forall|k: RefKey| roots.contains(k) ==> latest_of(a, k) <= latest_of(b, k)
}

/// The map that a list of (root, iteration) entries denotes.
pub open spec fn entries_map(s: Seq<(RefKey, u64)>) -> Map<RefKey, u64>
    decreases s.len(),
{
    if s.len() == 0 {
        Map::empty()
    } else {
        entries_map(s.drop_last()).insert(s.last().0, s.last().1)
    }
}

/// Whether no root occurs twice.
pub open spec fn unique_keys(s: Seq<(RefKey, u64)>) -> bool {
    forall|i: int, j: int| 0 <= i < s.len() && 0 <= j < s.len() && i != j ==> s[i].0 != s[j].0
}

pub proof fn lemma_entries_map_index(s: Seq<(RefKey, u64)>)
    requires
        unique_keys(s),
    ensures
        forall|k: RefKey| entries_map(s).contains_key(k) <==> exists|i: int| 0 <= i < s.len() && s[i].0 == k,
        forall|i: int| 0 <= i < s.len() ==> entries_map(s).contains_key(#[trigger] s[i].0) && entries_map(s)[s[i].0] == s[i].1,
    decreases s.len(),
{
    if s.len() > 0 {
        let t = s.drop_last();
        assert(unique_keys(t));
        lemma_entries_map_index(t);
        assert forall|k: RefKey| entries_map(s).contains_key(k) implies exists|i: int| 0 <= i < s.len() && s[i].0 == k by {
            if k != s.last().0 {
                assert(entries_map(t).contains_key(k));
                let i = choose|i: int| 0 <= i < t.len() && t[i].0 == k;
                assert(t[i] == s[i]);
                assert(s[i].0 == k);
            } else {
                assert(s[s.len() - 1].0 == k);
            }
        }
        assert forall|i: int| 0 <= i < s.len() implies entries_map(s).contains_key(#[trigger] s[i].0)
            && entries_map(s)[s[i].0] == s[i].1 by {
            if i < s.len() - 1 {
                assert(t[i] == s[i]);
                assert(s[i].0 != s.last().0);
            }
        }
    }
}

pub proof fn lemma_join_insert(m: Map<RefKey, u64>, pre: Map<RefKey, u64>, k: RefKey, v: u64)
    requires
        !pre.contains_key(k),
    ensures
        stamp_join(m, pre).insert(k, max_u64(latest_of(stamp_join(m, pre), k), v)) == stamp_join(m, pre.insert(k, v)),
{
    assert(stamp_join(m, pre).insert(k, max_u64(latest_of(stamp_join(m, pre), k), v)) =~= stamp_join(m, pre.insert(k, v)));
}

/// A stamp of the roots (source reactives) that a value is derived from,
/// each with the iteration of the root it reflects.
#[derive(Debug)]
pub struct BasisStamp {
    roots: Vec<(ReactiveRef, Iteration)>,
}

pub open spec fn stamp_entries(s: Seq<(ReactiveRef, Iteration)>) -> Seq<(RefKey, u64)> {
    s.map_values(|e: (ReactiveRef, Iteration)| (e.0@, e.1.0))
}

impl View for BasisStamp {
    type V = Map<RefKey, u64>;

    closed spec fn view(&self) -> Map<RefKey, u64> {
        entries_map(stamp_entries(self.roots@))
    }
}

impl BasisStamp {
    #[verifier::type_invariant]
    closed spec fn wf(self) -> bool {
        unique_keys(stamp_entries(self.roots@))
    }

    /// The stamp with no roots.
    pub fn empty() -> (r: BasisStamp)
        ensures
            r@ == Map::<RefKey, u64>::empty(),
    {
        let r = BasisStamp { roots: Vec::new() };
        assert(stamp_entries(r.roots@) =~= Seq::empty());
        r
    }

    /// Whether the stamp has no roots.
    pub fn is_empty(&self) -> (r: bool)
        ensures
            r == (self@ == Map::<RefKey, u64>::empty()),
    {
        proof {
            use_type_invariant(self);
            lemma_entries_map_index(stamp_entries(self.roots@));
            if self.roots@.len() > 0 {
                assert(self@.contains_key(stamp_entries(self.roots@)[0].0));
            } else {
                assert(stamp_entries(self.roots@) =~= Seq::empty());
            }
        }
        self.roots.len() == 0
    }

    /// Index of the entry for `address`, if any.
    fn find(&self, address: &ReactiveRef) -> (r: Option<usize>)
        ensures
            match r {
                Some(i) => i < self.roots@.len() && self.roots@[i as int].0@ == address@,
                None => !self@.contains_key(address@),
            },
    {
        proof {
            use_type_invariant(self);
            lemma_entries_map_index(stamp_entries(self.roots@));
        }
        let mut i: usize = 0;
        while i < self.roots.len()
            invariant
                i <= self.roots.len(),
                forall|j: int| 0 <= j < i ==> self.roots@[j].0@ != address@,
            decreases self.roots.len() - i,
        {
            if self.roots[i].0.same(address) {
                return Some(i);
            }
            i = i + 1;
        }
        proof {
            if self@.contains_key(address@) {
                let j = choose|j: int| 0 <= j < stamp_entries(self.roots@).len() && stamp_entries(self.roots@)[j].0 == address@;
                assert(self.roots@[j].0@ == address@);
            }
        }
        None
    }

    /// The iteration the stamp records for `address`, zero when none.
    pub fn latest(&self, address: &ReactiveRef) -> (r: Iteration)
        ensures
            r.0 == latest_of(self@, address@),
    {
        proof {
            use_type_invariant(self);
            lemma_entries_map_index(stamp_entries(self.roots@));
        }
        match self.find(address) {
            Some(i) => {
                proof {
                    assert(stamp_entries(self.roots@)[i as int].0 == address@);
                }
                self.roots[i].1
            },
            None => Iteration(0),
        }
    }

    /// Records `iteration` for `address`, keeping the larger iteration when
    /// the stamp already records one.
    pub fn add(&mut self, address: ReactiveRef, iteration: Iteration)
        ensures
            final(self)@ == old(self)@.insert(address@, max_u64(latest_of(old(self)@, address@), iteration.0)),
    {
        proof {
            use_type_invariant(&*self);
            lemma_entries_map_index(stamp_entries(self.roots@));
        }
        let ghost old_e = stamp_entries(self.roots@);
        match self.find(&address) {
            Some(i) => {
                let cur = self.roots[i].1;
                let m = if cur.0 >= iteration.0 { cur } else { iteration };
                let ghost new_e = old_e.update(i as int, (address@, m.0));
                proof {
                    assert(old_e[i as int].0 == address@);
                    assert(unique_keys(new_e));
                    lemma_entries_map_index(new_e);
                    assert(entries_map(new_e) =~= entries_map(old_e).insert(address@, m.0)) by {
                        assert forall|k: RefKey| entries_map(new_e).contains_key(k)
                            <==> entries_map(old_e).insert(address@, m.0).contains_key(k) by {
                            if entries_map(new_e).contains_key(k) {
                                let j = choose|j: int| 0 <= j < new_e.len() && new_e[j].0 == k;
                                if j != i {
                                    assert(old_e[j].0 == k);
                                }
                            }
                            if entries_map(old_e).contains_key(k) && k != address@ {
                                let j = choose|j: int| 0 <= j < old_e.len() && old_e[j].0 == k;
                                assert(new_e[j].0 == k);
                            }
                            if k == address@ {
                                assert(new_e[i as int].0 == k);
                            }
                        }
                        assert forall|k: RefKey| entries_map(new_e).contains_key(k) implies
                            entries_map(new_e)[k] == entries_map(old_e).insert(address@, m.0)[k] by {
                            let j = choose|j: int| 0 <= j < new_e.len() && new_e[j].0 == k;
                            if j != i {
                                assert(old_e[j] == new_e[j]);
                            }
                        }
                    }
                }
                self.set_entry(i, address, m);
                proof {
                    assert(stamp_entries(self.roots@) =~= new_e);
                }
            },
            None => {
                let mut roots = Vec::new();
                std::mem::swap(&mut roots, &mut self.roots);
                roots.push((address, iteration));
                proof {
                    let ne = stamp_entries(roots@);
                    assert(ne.drop_last() =~= old_e);
                    assert forall|a: int, b: int| 0 <= a < ne.len() && 0 <= b < ne.len() && a != b
                        implies ne[a].0 != ne[b].0 by {
                        if a < old_e.len() && b < old_e.len() {
                            assert(ne[a] == old_e[a]);
                            assert(ne[b] == old_e[b]);
                        } else if a < old_e.len() {
                            assert(ne[a] == old_e[a]);
                            assert(entries_map(old_e).contains_key(old_e[a].0));
                        } else if b < old_e.len() {
                            assert(ne[b] == old_e[b]);
                            assert(entries_map(old_e).contains_key(old_e[b].0));
                        }
                    }
                }
                self.roots = roots;
            },
        }
    }

    /// Records `iteration` for `address`, in place of what the stamp
    /// recorded for it.
    pub fn insert(&mut self, address: ReactiveRef, iteration: Iteration)
        ensures
            final(self)@ == old(self)@.insert(address@, iteration.0),
    {
        proof {
            use_type_invariant(&*self);
            lemma_entries_map_index(stamp_entries(self.roots@));
        }
        let ghost old_e = stamp_entries(self.roots@);
        match self.find(&address) {
            Some(i) => {
                let m = iteration;
                let ghost new_e = old_e.update(i as int, (address@, m.0));
                proof {
                    assert(old_e[i as int].0 == address@);
                    assert(unique_keys(new_e));
                    lemma_entries_map_index(new_e);
                    assert(entries_map(new_e) =~= entries_map(old_e).insert(address@, m.0)) by {
                        assert forall|k: RefKey| entries_map(new_e).contains_key(k)
                            <==> entries_map(old_e).insert(address@, m.0).contains_key(k) by {
                            if entries_map(new_e).contains_key(k) {
                                let j = choose|j: int| 0 <= j < new_e.len() && new_e[j].0 == k;
                                if j != i {
                                    assert(old_e[j].0 == k);
                                }
                            }
                            if entries_map(old_e).contains_key(k) && k != address@ {
                                let j = choose|j: int| 0 <= j < old_e.len() && old_e[j].0 == k;
                                assert(new_e[j].0 == k);
                            }
                            if k == address@ {
                                assert(new_e[i as int].0 == k);
                            }
                        }
                        assert forall|k: RefKey| entries_map(new_e).contains_key(k) implies
                            entries_map(new_e)[k] == entries_map(old_e).insert(address@, m.0)[k] by {
                            let j = choose|j: int| 0 <= j < new_e.len() && new_e[j].0 == k;
                            if j != i {
                                assert(old_e[j] == new_e[j]);
                            }
                        }
                    }
                }
                self.set_entry(i, address, m);
                proof {
                    assert(stamp_entries(self.roots@) =~= new_e);
                }
            },
            None => {
                let mut roots = Vec::new();
                std::mem::swap(&mut roots, &mut self.roots);
                roots.push((address, iteration));
                proof {
                    let ne = stamp_entries(roots@);
                    assert(ne.drop_last() =~= old_e);
                    assert forall|a: int, b: int| 0 <= a < ne.len() && 0 <= b < ne.len() && a != b
                        implies ne[a].0 != ne[b].0 by {
                        if a < old_e.len() && b < old_e.len() {
                            assert(ne[a] == old_e[a]);
                            assert(ne[b] == old_e[b]);
                        } else if a < old_e.len() {
                            assert(ne[a] == old_e[a]);
                            assert(entries_map(old_e).contains_key(old_e[a].0));
                        } else if b < old_e.len() {
                            assert(ne[b] == old_e[b]);
                            assert(entries_map(old_e).contains_key(old_e[b].0));
                        }
                    }
                }
                self.roots = roots;
            },
        }
    }

    fn set_entry(&mut self, i: usize, address: ReactiveRef, m: Iteration)
        requires
            i < old(self).roots@.len(),
            old(self).roots@[i as int].0@ == address@,
        ensures
            stamp_entries(final(self).roots@) == stamp_entries(old(self).roots@).update(i as int, (address@, m.0)),
    {
        proof {
            use_type_invariant(&*self);
        }
        let ghost old_e = stamp_entries(self.roots@);
        let mut roots = Vec::new();
        std::mem::swap(&mut roots, &mut self.roots);
        roots.set(i, (address, m));
        proof {
            assert(stamp_entries(roots@) =~= old_e.update(i as int, (address@, m.0)));
            let ne = stamp_entries(roots@);
            assert(unique_keys(old_e));
            assert forall|a: int, b: int| 0 <= a < ne.len() && 0 <= b < ne.len() && a != b implies ne[a].0 != ne[b].0 by {
                assert(ne[a].0 == old_e[a].0);
                assert(ne[b].0 == old_e[b].0);
            }
        }
        self.roots = roots;
    }

    /// Raises the stamp to cover `other`: every root of either, with the
    /// larger iteration.
    pub fn merge_from(&mut self, other: &BasisStamp)
        ensures
            final(self)@ == stamp_join(old(self)@, other@),
    {
        proof {
            use_type_invariant(other);
            lemma_entries_map_index(stamp_entries(other.roots@));
        }
        let ghost oe = stamp_entries(other.roots@);
        let mut i: usize = 0;
        while i < other.roots.len()
            invariant
                i <= other.roots.len(),
                oe == stamp_entries(other.roots@),
                unique_keys(oe),
                self@ == stamp_join(old(self)@, entries_map(oe.subrange(0, i as int))),
            decreases other.roots.len() - i,
        {
            let (a, it) = (other.roots[i].0.copy(), other.roots[i].1);
            let ghost prev = self@;
            self.add(a, it);
            proof {
                let pre = oe.subrange(0, i as int);
                let post = oe.subrange(0, i + 1);
                assert(post.drop_last() =~= pre);
                assert(post.last() == (a@, it.0));
                assert(entries_map(post) == entries_map(pre).insert(a@, it.0));
                assert(unique_keys(pre));
                lemma_entries_map_index(pre);
                assert(!entries_map(pre).contains_key(a@)) by {
                    if entries_map(pre).contains_key(a@) {
                        let j = choose|j: int| 0 <= j < pre.len() && pre[j].0 == a@;
                        assert(oe[j].0 == oe[i as int].0);
                    }
                }
                lemma_join_insert(old(self)@, entries_map(pre), a@, it.0);
            }
            i = i + 1;
        }
        proof {
            assert(oe.subrange(0, oe.len() as int) =~= oe);
        }
    }

    /// Removes every root.
    pub fn clear(&mut self)
        ensures
            final(self)@ == Map::<RefKey, u64>::empty(),
    {
        self.roots = Vec::new();
        assert(stamp_entries(self.roots@) =~= Seq::empty());
    }

    /// Whether this stamp precedes or equals `other` on each root in `roots`.
    pub fn prec_eq_wrt_roots(&self, other: &BasisStamp, roots: &Vec<ReactiveRef>) -> (r: bool)
        ensures
            r == stamp_prec_eq(self@, other@, crate::new_runtime::evaluator::refs_view(roots@).to_set()),
    {
        let ghost rs = crate::new_runtime::evaluator::refs_view(roots@);
        let mut i: usize = 0;
        while i < roots.len()
            invariant
                i <= roots.len(),
                rs == crate::new_runtime::evaluator::refs_view(roots@),
                forall|j: int| 0 <= j < i ==> latest_of(self@, #[trigger] rs[j]) <= latest_of(other@, rs[j]),
            decreases roots.len() - i,
        {
            if self.latest(&roots[i]).0 > other.latest(&roots[i]).0 {
                proof {
                    assert(rs.to_set().contains(rs[i as int]));
                }
                return false;
            }
            i = i + 1;
        }
        proof {
            assert forall|k: RefKey| rs.to_set().contains(k) implies latest_of(self@, k) <= latest_of(other@, k) by {
                let j = choose|j: int| 0 <= j < rs.len() && rs[j] == k;
            }
        }
        true
    }
    /// The stamp kept to the roots of other services, and to the roots of
    /// service `id` named in `kept`.
    pub fn without_local(&self, id: u64, kept: &Vec<ReactiveName>) -> (r: BasisStamp)
        ensures
            r@ == self@.restrict(Set::new(|k: RefKey| k.0 != id || crate::new_runtime::service::names_of(kept@).contains(k.1))),
    {
        proof {
            use_type_invariant(self);
        }
        let ghost keep = Set::new(|k: RefKey| k.0 != id || crate::new_runtime::service::names_of(kept@).contains(k.1));
        let ghost es = stamp_entries(self.roots@);
        let mut r = BasisStamp::empty();
        proof {
            assert(es.subrange(0, 0) =~= Seq::<(RefKey, u64)>::empty());
            assert(r@ =~= entries_map(es.subrange(0, 0)).restrict(keep));
        }
        let mut i: usize = 0;
        while i < self.roots.len()
            invariant
                i <= self.roots@.len(),
                es == stamp_entries(self.roots@),
                unique_keys(es),
                keep == Set::new(|k: RefKey| k.0 != id || crate::new_runtime::service::names_of(kept@).contains(k.1)),
                r@ == entries_map(es.subrange(0, i as int)).restrict(keep),
            decreases self.roots@.len() - i,
        {
            let ghost sub = es.subrange(0, i as int);
            let ghost e = es[i as int];
            proof {
                assert(es.subrange(0, i + 1).drop_last() =~= sub);
                assert(es.subrange(0, i + 1).last() == e);
                assert(unique_keys(sub));
                lemma_entries_map_index(sub);
                assert(!entries_map(sub).contains_key(e.0)) by {
                    if entries_map(sub).contains_key(e.0) {
                        let j = choose|j: int| 0 <= j < sub.len() && sub[j].0 == e.0;
                        assert(es[j].0 == es[i as int].0);
                    }
                }
            }
            let mut kept_here = self.roots[i].0.service != id;
            if !kept_here {
                let mut k: usize = 0;
                while k < kept.len()
                    invariant
                        k <= kept@.len(),
                        !kept_here ==> forall|m: int| 0 <= m < k ==> kept@[m]@ != self.roots@[i as int].0.name@,
                        kept_here ==> crate::new_runtime::service::names_of(kept@).contains(self.roots@[i as int].0.name@),
                        i < self.roots@.len(),
                    decreases kept@.len() - k,
                {
                    if !kept_here && kept[k].same(&self.roots[i].0.name) {
                        kept_here = true;
                        proof {
                            assert(crate::new_runtime::service::names_of(kept@)[k as int] == kept@[k as int]@);
                        }
                    }
                    k = k + 1;
                }
                proof {
                    if !kept_here {
                        assert(!crate::new_runtime::service::names_of(kept@).contains(self.roots@[i as int].0.name@)) by {
                            if crate::new_runtime::service::names_of(kept@).contains(self.roots@[i as int].0.name@) {
                                let m = choose|m: int| 0 <= m < kept@.len() && crate::new_runtime::service::names_of(kept@)[m] == self.roots@[i as int].0.name@;
                                assert(kept@[m]@ == self.roots@[i as int].0.name@);
                            }
                        }
                    }
                }
            }
            proof {
                assert(e.0 == self.roots@[i as int].0@);
                assert(kept_here == keep.contains(e.0));
            }
            if kept_here {
                let a = self.roots[i].0.copy();
                let it = self.roots[i].1;
                r.add(a, it);
                proof {
                    assert(r@ =~= entries_map(es.subrange(0, i + 1)).restrict(keep));
                }
            } else {
                proof {
                    assert(r@ =~= entries_map(es.subrange(0, i + 1)).restrict(keep));
                }
            }
            i = i + 1;
        }
        proof {
            assert(es.subrange(0, self.roots@.len() as int) =~= es);
        }
        r
    }


    /// A copy of the stamp.
    pub fn copy(&self) -> (r: BasisStamp)
        ensures
            r@ == self@,
    {
        proof {
            use_type_invariant(self);
        }
        let mut roots: Vec<(ReactiveRef, Iteration)> = Vec::new();
        let mut i: usize = 0;
        while i < self.roots.len()
            invariant
                i <= self.roots.len(),
                roots@.len() == i,
                forall|j: int| 0 <= j < i ==> #[trigger] stamp_entries(roots@)[j] == stamp_entries(self.roots@)[j],
            decreases self.roots.len() - i,
        {
            let ghost before = stamp_entries(roots@);
            roots.push((self.roots[i].0.copy(), self.roots[i].1));
            proof {
                assert(stamp_entries(roots@) =~= before.push(stamp_entries(self.roots@)[i as int]));
            }
            i = i + 1;
        }
        proof {
            assert(stamp_entries(roots@) =~= stamp_entries(self.roots@));
        }
        BasisStamp { roots }
    }
}

} // verus!

verus! {

/// Merging stamps does not depend on their order.
pub proof fn law_join_commutative(a: Map<RefKey, u64>, b: Map<RefKey, u64>)
    ensures
        stamp_join(a, b) == stamp_join(b, a),
{
    assert(stamp_join(a, b) =~= stamp_join(b, a));
}

/// Merging stamps does not depend on their grouping.
pub proof fn law_join_associative(a: Map<RefKey, u64>, b: Map<RefKey, u64>, c: Map<RefKey, u64>)
    ensures
        stamp_join(stamp_join(a, b), c) == stamp_join(a, stamp_join(b, c)),
{
    assert(stamp_join(stamp_join(a, b), c) =~= stamp_join(a, stamp_join(b, c)));
}

/// Merging a stamp into itself changes nothing.
pub proof fn law_join_idempotent(a: Map<RefKey, u64>)
    ensures
        stamp_join(a, a) == a,
{
    assert(stamp_join(a, a) =~= a);
}

/// A merged stamp is above both of its parts, on any roots.
pub proof fn law_join_upper_bound(a: Map<RefKey, u64>, b: Map<RefKey, u64>, roots: Set<RefKey>)
    ensures
        stamp_prec_eq(a, stamp_join(a, b), roots),
        stamp_prec_eq(b, stamp_join(a, b), roots),
{
}

/// A merged stamp is below any stamp that is above both of its parts.
pub proof fn law_join_least(a: Map<RefKey, u64>, b: Map<RefKey, u64>, c: Map<RefKey, u64>, roots: Set<RefKey>)
    requires
        stamp_prec_eq(a, c, roots),
        stamp_prec_eq(b, c, roots),
    ensures
        stamp_prec_eq(stamp_join(a, b), c, roots),
{
}

/// Every stamp precedes or equals itself.
pub proof fn law_prec_eq_reflexive(a: Map<RefKey, u64>, roots: Set<RefKey>)
    ensures
        stamp_prec_eq(a, a, roots),
{
}

/// Precedence of stamps is transitive.
pub proof fn law_prec_eq_transitive(a: Map<RefKey, u64>, b: Map<RefKey, u64>, c: Map<RefKey, u64>, roots: Set<RefKey>)
    requires
        stamp_prec_eq(a, b, roots),
        stamp_prec_eq(b, c, roots),
    ensures
        stamp_prec_eq(a, c, roots),
{
}

/// The empty stamp precedes every stamp.
pub proof fn law_empty_prec_eq(a: Map<RefKey, u64>, roots: Set<RefKey>)
    ensures
        stamp_prec_eq(Map::empty(), a, roots),
{
}

} // verus!

verus! {

/// The priority of a transaction; `High` comes first.
#[derive(Debug, Clone, Copy, PartialEq, Eq, Hash)]
pub enum TxPriority {
    High,
    Low,
}

/// A point in time, in microseconds since the Unix epoch.
#[derive(Debug, Clone, Copy, PartialEq, Eq, Hash)]
pub struct Timestamp {
    pub epoch_micros: u64,
}

/// The identity of a transaction: its priority, its start time and the
/// manager (client actor) running it, named by the text of its actor id.
#[derive(Debug)]
pub struct TxId {
    pub priority: TxPriority,
    pub timestamp: Timestamp,
    pub manager: String,
}

/// A transaction identity as a mathematical value.
pub type TxKey = (TxPriority, u64, Seq<char>);

impl View for TxId {
    type V = TxKey;

    open spec fn view(&self) -> TxKey {
        (self.priority, self.timestamp.epoch_micros, self.manager@)
    }
}

pub open spec fn priority_rank(p: TxPriority) -> nat {
    match p {
        TxPriority::High => 0,
        TxPriority::Low => 1,
    }
}

/// Lexicographic order on texts, character by character.
pub open spec fn text_lt(a: Seq<char>, b: Seq<char>) -> bool
    decreases a.len(),
{
    if a.len() == 0 {
        b.len() > 0
    } else if b.len() == 0 {
        false
    } else if a[0] != b[0] {
        (a[0] as int) < (b[0] as int)
    } else {
        text_lt(a.drop_first(), b.drop_first())
    }
}

/// The order of transactions: by priority, then start time, then manager.
/// An older transaction comes first.
pub open spec fn tx_lt(a: TxKey, b: TxKey) -> bool {
    ||| priority_rank(a.0) < priority_rank(b.0)
    ||| (priority_rank(a.0) == priority_rank(b.0) && a.1 < b.1)
    ||| (a.0 == b.0 && a.1 == b.1 && text_lt(a.2, b.2))
}

pub proof fn lemma_text_lt_irreflexive(a: Seq<char>)
    ensures
        !text_lt(a, a),
    decreases a.len(),
{
    if a.len() > 0 {
        lemma_text_lt_irreflexive(a.drop_first());
    }
}

pub proof fn lemma_text_lt_transitive(a: Seq<char>, b: Seq<char>, c: Seq<char>)
    requires
        text_lt(a, b),
        text_lt(b, c),
    ensures
        text_lt(a, c),
    decreases a.len(),
{
    if a.len() > 0 && b.len() > 0 && c.len() > 0 && a[0] == b[0] && b[0] == c[0] {
        lemma_text_lt_transitive(a.drop_first(), b.drop_first(), c.drop_first());
    }
}

pub proof fn lemma_text_lt_total(a: Seq<char>, b: Seq<char>)
    ensures
        a == b || text_lt(a, b) || text_lt(b, a),
    decreases a.len(),
{
    if a.len() > 0 && b.len() > 0 && a[0] == b[0] {
        lemma_text_lt_total(a.drop_first(), b.drop_first());
        if a.drop_first() == b.drop_first() {
            assert(a =~= seq![a[0]] + a.drop_first());
            assert(b =~= seq![b[0]] + b.drop_first());
        }
    } else if a.len() == 0 && b.len() == 0 {
        assert(a =~= b);
    } else if a.len() > 0 && b.len() > 0 {
        assert((a[0] as int) != (b[0] as int));
    }
}

/// No transaction comes before itself.
pub proof fn law_tx_lt_irreflexive(a: TxKey)
    ensures
        !tx_lt(a, a),
{
    lemma_text_lt_irreflexive(a.2);
}

/// The order of transactions is transitive.
pub proof fn law_tx_lt_transitive(a: TxKey, b: TxKey, c: TxKey)
    requires
        tx_lt(a, b),
        tx_lt(b, c),
    ensures
        tx_lt(a, c),
{
    if a.0 == b.0 && a.1 == b.1 && b.0 == c.0 && b.1 == c.1 {
        lemma_text_lt_transitive(a.2, b.2, c.2);
    }
}

/// Any two distinct transactions are ordered one way or the other.
pub proof fn law_tx_lt_total(a: TxKey, b: TxKey)
    ensures
        a == b || tx_lt(a, b) || tx_lt(b, a),
{
    lemma_text_lt_total(a.2, b.2);
    if priority_rank(a.0) == priority_rank(b.0) {
        assert(a.0 == b.0);
    }
}

/// A high-priority transaction comes before a low-priority one; of two
/// transactions of one priority, the one started earlier comes first; of
/// two started at once by managers whose names differ, the one whose name
/// comes first in text order.
pub proof fn law_older_first(a: TxKey, b: TxKey)
    ensures
        a.0 is High && b.0 is Low ==> tx_lt(a, b) && !tx_lt(b, a),
        a.0 == b.0 && a.1 < b.1 ==> tx_lt(a, b) && !tx_lt(b, a),
        a.0 == b.0 && a.1 == b.1 && text_lt(a.2, b.2) ==> tx_lt(a, b),
{
}

/// Text order: a proper prefix comes before the longer text, and otherwise
/// the text with the smaller code point at the first position where the
/// two differ comes first.
pub proof fn law_text_order(p: Seq<char>, a: Seq<char>, b: Seq<char>)
    ensures
        b.len() > 0 ==> text_lt(p, p + b) && !text_lt(p + b, p),
        a.len() > 0 && b.len() > 0 && (a[0] as int) < (b[0] as int) ==> text_lt(p + a, p + b),
    decreases p.len(),
{
    if p.len() > 0 {
        law_text_order(p.drop_first(), a, b);
        assert((p + b).drop_first() =~= p.drop_first() + b);
        assert((p + a).drop_first() =~= p.drop_first() + a);
        assert((p + b)[0] == p[0] && (p + a)[0] == p[0]);
    } else {
        assert(p + b =~= b);
        assert(p + a =~= a);
    }
}

/// Whether text `a` comes before text `b`.
pub fn text_less(a: &String, b: &String) -> (r: bool)
    ensures
        r == text_lt(a@, b@),
{
    let sa = a.as_str();
    let sb = b.as_str();
    let la = sa.unicode_len();
    let lb = sb.unicode_len();
    proof {
        assert(a@.subrange(0, la as int) =~= a@);
        assert(b@.subrange(0, lb as int) =~= b@);
    }
    let mut i: usize = 0;
    while i < la && i < lb
        invariant
            la == a@.len(),
            lb == b@.len(),
            sa@ == a@,
            sb@ == b@,
            i <= la,
            i <= lb,
            text_lt(a@, b@) == text_lt(a@.subrange(i as int, la as int), b@.subrange(i as int, lb as int)),
        decreases la - i,
    {
        let ca = sa.get_char(i);
        let cb = sb.get_char(i);
        proof {
            let x = a@.subrange(i as int, la as int);
            let y = b@.subrange(i as int, lb as int);
            assert(x[0] == ca && y[0] == cb);
            assert(x.drop_first() =~= a@.subrange(i + 1, la as int));
            assert(y.drop_first() =~= b@.subrange(i + 1, lb as int));
        }
        if ca != cb {
            return (ca as u32) < (cb as u32);
        }
        i = i + 1;
    }
    proof {
        assert(a@.subrange(0, la as int) =~= a@);
    }
    i == la && i < lb
}

impl TxId {
    /// Whether this transaction comes before `other`.
    pub fn precedes(&self, other: &TxId) -> (r: bool)
        ensures
            r == tx_lt(self@, other@),
    {
        let ra: u8 = match self.priority {
            TxPriority::High => 0,
            TxPriority::Low => 1,
        };
        let rb: u8 = match other.priority {
            TxPriority::High => 0,
            TxPriority::Low => 1,
        };
        if ra != rb {
            return ra < rb;
        }
        if self.timestamp.epoch_micros != other.timestamp.epoch_micros {
            return self.timestamp.epoch_micros < other.timestamp.epoch_micros;
        }
        text_less(&self.manager, &other.manager)
    }

    /// Whether two identities name the same transaction.
    pub fn same(&self, other: &TxId) -> (r: bool)
        ensures
            r == (self@ == other@),
    {
        let same_priority = match (self.priority, other.priority) {
            (TxPriority::High, TxPriority::High) => true,
            (TxPriority::Low, TxPriority::Low) => true,
            _ => false,
        };
        same_priority && self.timestamp.epoch_micros == other.timestamp.epoch_micros
            && self.manager == other.manager
    }

    /// A copy of the identity.
    pub fn copy(&self) -> (r: TxId)
        ensures
            r@ == self@,
    {
        TxId { priority: self.priority, timestamp: self.timestamp, manager: self.manager.clone() }
    }
}

/// Produces strictly increasing timestamps from a clock that may stand
/// still or go back.
pub struct MonotonicTimestampGenerator {
    latest: Timestamp,
}

impl MonotonicTimestampGenerator {
    /// The latest timestamp given out.
    pub closed spec fn latest_micros(&self) -> u64 {
        self.latest.epoch_micros
    }

    /// A generator that has given out nothing yet.
    pub fn new() -> (r: MonotonicTimestampGenerator)
        ensures
            r.latest_micros() == 0,
    {
        MonotonicTimestampGenerator { latest: Timestamp { epoch_micros: 0 } }
    }

    /// A timestamp for the clock reading `now_micros`: the reading itself when
    /// it is later than the latest timestamp given out, else one microsecond
    /// after that one.
    pub fn generate_timestamp(&mut self, now_micros: u64) -> (r: Timestamp)
        requires
            now_micros > old(self).latest_micros() || old(self).latest_micros() < u64::MAX,
        ensures
            r.epoch_micros == (if now_micros > old(self).latest_micros() { now_micros } else {
                (old(self).latest_micros() + 1) as u64
            }),
            r.epoch_micros > old(self).latest_micros(),
            final(self).latest_micros() == r.epoch_micros,
    {
        if now_micros > self.latest.epoch_micros {
            self.latest = Timestamp { epoch_micros: now_micros };
        } else {
            self.latest.epoch_micros = self.latest.epoch_micros + 1;
        }
        self.latest
    }
}

/// The kind of lock a transaction asks of a service.
#[derive(Debug, Clone, Copy, PartialEq, Eq)]
pub enum LockKind {
    Shared,
    Exclusive,
}

} // verus!

verus! {

/// A value together with the basis stamp of the roots it derives from.
#[derive(Debug)]
pub struct StampedValue {
    pub value: Expr,
    pub basis: BasisStamp,
}

impl View for StampedValue {
    type V = (ExprV, Map<RefKey, u64>);

    open spec fn view(&self) -> (ExprV, Map<RefKey, u64>) {
        (self.value@, self.basis@)
    }
}

impl StampedValue {
    /// A copy of the stamped value.
    pub fn copy(&self) -> (r: StampedValue)
        ensures
            r@ == self@,
    {
        StampedValue { value: self.value.copy(), basis: self.basis.copy() }
    }
}

/// The roots that an imported reactive derives from.
#[derive(Debug)]
pub struct ImportConfiguration {
    pub roots: Vec<ReactiveRef>,
}

/// What a reactive is configured to be: a variable holding a value, or a
/// definition computed from an expression.
#[derive(Debug)]
pub enum ReactiveConfiguration {
    Variable { value: Expr },
    Definition { expr: Expr },
}

} // verus!

verus! {

/// The messages that services and transaction managers exchange.
#[derive(Debug)]
#[allow(inconsistent_fields)]
pub enum Msg {
    /// A new value of an exported reactive, sent to the services importing it.
    Propagate { sender: ReactiveRef, value: StampedValue },
    /// A transaction asks for a lock.
    Lock { txid: TxId, kind: LockKind },
    /// A service grants a lock, with the version of each of its reactives.
    LockGranted { txid: TxId, service: u64, reactives: Vec<(ReactiveName, Version)> },
    /// A transaction asks for the value of a reactive, no older than `basis`.
    ReadValue { txid: TxId, reactive: ReactiveName, basis: BasisStamp },
    /// A service answers a read.
    ReturnedValue { txid: TxId, service: u64, reactive: ReactiveName, value: Expr },
    /// A transaction writes a variable.
    Write { txid: TxId, reactive: ReactiveName, value: Expr },
    /// A transaction asks for a service's configuration.
    ReadConfiguration { txid: TxId },
    /// A service answers with its imports, the inputs of its reactives and
    /// its exports.
    ReturnedConfiguration {
        txid: TxId,
        service: u64,
        imports: Vec<(ReactiveRef, Import)>,
        inputs: Vec<(ReactiveName, Vec<ReactiveRef>)>,
        exports: Vec<(ReactiveName, Export)>,
    },
    /// A transaction changes a service's imports, reactives and exports;
    /// `None` removes.
    Configure {
        txid: TxId,
        imports: Vec<(ReactiveRef, Option<ImportConfiguration>)>,
        reactives: Vec<(ReactiveName, Option<ReactiveConfiguration>)>,
        exports: Vec<(ReactiveName, Vec<u64>)>,
    },
    /// A transaction retires a service.
    Retire { txid: TxId },
    /// A service asks a transaction to give up its lock.
    Preempt { txid: TxId },
    /// A transaction gives up its lock without effect.
    Abort { txid: TxId },
    /// A transaction asks a service to prepare its commit.
    PrepareCommit { txid: TxId },
    /// A service is ready to commit, with the basis of the transaction's effects.
    CommitPrepared { service: u64, txid: TxId, basis: BasisStamp },
    /// A transaction commits with the given basis.
    Commit { txid: TxId, basis: BasisStamp },
}

/// Where a message goes: the manager running a transaction, or a service.
#[derive(Debug)]
pub enum Recipient {
    Manager(String),
    Service(u64),
}

/// A message with its destination.
#[derive(Debug)]
pub struct Envelope {
    pub to: Recipient,
    pub msg: Msg,
}

} // verus!
