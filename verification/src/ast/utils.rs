//! Variables of expressions: the free ones, and renaming them.
use vstd::prelude::*;

use crate::ast::{names_view, Assn, AssnV, Expr, ExprV};
use crate::table::Table;

verus! {

/// The variables of `e` that are not bound: neither in `bound` nor a
/// parameter of an enclosing function. The destinations of an action's
/// assignments are not free.
pub open spec fn free_vars(e: ExprV, bound: Set<Seq<char>>) -> Set<Seq<char>>
    decreases e, 0nat,
{
    match e {
        ExprV::Number { .. } => Set::empty(),
        ExprV::Bool { .. } => Set::empty(),
        ExprV::Variable { ident } => if bound.contains(ident) {
            Set::empty()
        } else {
            Set::empty().insert(ident)
        },
        ExprV::Unop { op, expr } => free_vars(*expr, bound),
        ExprV::Binop { op, expr1, expr2 } => free_vars(*expr1, bound) + free_vars(*expr2, bound),
        ExprV::If { cond, expr1, expr2 } => free_vars(*cond, bound) + free_vars(*expr1, bound) + free_vars(*expr2, bound),
        ExprV::Func { params, body } => free_vars(*body, bound + params.to_set()),
        ExprV::FuncApply { func, args } => free_vars(*func, bound) + args_free_vars(args, bound),
        ExprV::Action { assns } => assns_free_vars(assns, bound),
    }
}

/// The free variables of a list of expressions.
pub open spec fn args_free_vars(args: Seq<ExprV>, bound: Set<Seq<char>>) -> Set<Seq<char>>
    decreases args, 1nat,
{
    if args.len() == 0 {
        Set::empty()
    } else {
        free_vars(args[0], bound) + args_free_vars(args.subrange(1, args.len() as int), bound)
    }
}

/// The free variables of the right-hand sides of assignments.
pub open spec fn assns_free_vars(assns: Seq<AssnV>, bound: Set<Seq<char>>) -> Set<Seq<char>>
    decreases assns, 1nat,
{
    if assns.len() == 0 {
        Set::empty()
    } else {
        free_vars(assns[0].src, bound) + assns_free_vars(assns.subrange(1, assns.len() as int), bound)
    }
}

/// The elements of two sequences one after the other are those of either.
proof fn lemma_concat_to_set(a: Seq<Seq<char>>, b: Seq<Seq<char>>)
    ensures
        (a + b).to_set() == a.to_set() + b.to_set(),
{
    assert forall|x: Seq<char>| (a + b).contains(x) <==> a.contains(x) || b.contains(x) by {
        if (a + b).contains(x) {
            let j = choose|j: int| 0 <= j < (a + b).len() && (a + b)[j] == x;
            if j < a.len() {
                assert(a[j] == x);
            } else {
                assert(b[j - a.len()] == x);
            }
        }
        if a.contains(x) {
            let j = choose|j: int| 0 <= j < a.len() && a[j] == x;
            assert((a + b)[j] == x);
        }
        if b.contains(x) {
            let j = choose|j: int| 0 <= j < b.len() && b[j] == x;
            assert((a + b)[a.len() + j] == x);
        }
    }
    assert((a + b).to_set() =~= a.to_set() + b.to_set());
}

/// The names `bound` followed by `params`.
fn extend_bound(bound: &Vec<String>, params: &Vec<String>) -> (r: Vec<String>)
    ensures
        names_view(r@) == names_view(bound@) + names_view(params@),
{
    let mut inner = crate::ast::clone_names(bound);
    let mut i: usize = 0;
    while i < params.len()
        invariant
            i <= params@.len(),
            names_view(inner@) == names_view(bound@) + names_view(params@).subrange(0, i as int),
        decreases params@.len() - i,
    {
        let ghost before = names_view(inner@);
        let p = params[i].clone();
        proof {
            assert(p@ == params@[i as int]@);
        }
        inner.push(p);
        proof {
            assert(names_view(inner@) =~= before.push(params@[i as int]@));
            assert(names_view(params@).subrange(0, i + 1) =~= names_view(params@).subrange(0, i as int).push(params@[i as int]@));
            assert(names_view(inner@) =~= names_view(bound@) + names_view(params@).subrange(0, i + 1));
        }
        i = i + 1;
    }
    proof {
        assert(names_view(params@).subrange(0, params@.len() as int) =~= names_view(params@));
    }
    inner
}

/// Whether `v` holds `x`.
fn has_name(v: &Vec<String>, x: &String) -> (r: bool)
    ensures
        r == names_view(v@).contains(x@),
{
    let mut i: usize = 0;
    while i < v.len()
        invariant
            i <= v@.len(),
            forall|j: int| 0 <= j < i ==> names_view(v@)[j] != x@,
        decreases v@.len() - i,
    {
        if v[i] == *x {
            proof {
                assert(names_view(v@)[i as int] == x@);
            }
            return true;
        }
        i = i + 1;
    }
    false
}

/// Adds `x` to `out` unless it is there already.
pub(crate) fn add_name(out: &mut Vec<String>, x: &String)
    requires
        names_view(old(out)@).no_duplicates(),
    ensures
        names_view(final(out)@).no_duplicates(),
        names_view(final(out)@).to_set() == names_view(old(out)@).to_set().insert(x@),
{
    if !has_name(out, x) {
        let ghost before = names_view(out@);
        out.push(x.clone());
        proof {
            assert(names_view(out@) =~= before.push(x@));
            before.lemma_push_to_set_commute(x@);
        }
    } else {
        proof {
            assert(names_view(out@).to_set() =~= names_view(out@).to_set().insert(x@));
        }
    }
}

impl Expr {
    /// Adds the free variables of the expression to `out`.
    #[verifier::loop_isolation(false)]
    fn collect_free(&self, bound: &Vec<String>, out: &mut Vec<String>)
        requires
            names_view(old(out)@).no_duplicates(),
        ensures
            names_view(final(out)@).no_duplicates(),
            names_view(final(out)@).to_set() == names_view(old(out)@).to_set() + free_vars(self@, names_view(bound@).to_set()),
        decreases self,
    {
        let ghost b = names_view(bound@).to_set();
        let ghost o0 = names_view(out@).to_set();
        match self {
            Expr::Number { .. } | Expr::Bool { .. } => {
                assert(names_view(out@).to_set() =~= o0 + free_vars(self@, b));
            },
            Expr::Variable { ident } => {
                if !has_name(bound, ident) {
                    add_name(out, ident);
                }
                assert(names_view(out@).to_set() =~= o0 + free_vars(self@, b));
            },
            Expr::Unop { op: _, expr } => {
                expr.collect_free(bound, out);
            },
            Expr::Binop { op: _, expr1, expr2 } => {
                expr1.collect_free(bound, out);
                expr2.collect_free(bound, out);
                assert(names_view(out@).to_set() =~= o0 + free_vars(self@, b));
            },
            Expr::If { cond, expr1, expr2 } => {
                cond.collect_free(bound, out);
                expr1.collect_free(bound, out);
                expr2.collect_free(bound, out);
                assert(names_view(out@).to_set() =~= o0 + free_vars(self@, b));
            },
            Expr::Func { params, body } => {
                let inner = extend_bound(bound, params);
                proof {
                    lemma_concat_to_set(names_view(bound@), names_view(params@));
                }
                body.collect_free(&inner, out);
            },
            Expr::FuncApply { func, args } => {
                proof {
                    crate::ast::lemma_apply_view(*func, *args);
                }
                func.collect_free(bound, out);
                let ghost o1 = names_view(out@).to_set();
                let ghost av = crate::ast::exprs_view(args@);
                let mut i: usize = 0;
                proof {
                    assert(av.subrange(0, av.len() as int) =~= av);
                    assert(o1 + Set::<Seq<char>>::empty() =~= o1);
                }
                while i < args.len()
                    invariant
                        i <= args.len(),
                        av == crate::ast::exprs_view(args@),
                        names_view(out@).no_duplicates(),
                        o1 + args_free_vars(av, b) == names_view(out@).to_set() + args_free_vars(
                            av.subrange(i as int, av.len() as int), b),
                    decreases args.len() - i,
                {
                    proof {
                        assert(decreases_to!(*self => args@[i as int]));
                        let sub = av.subrange(i as int, av.len() as int);
                        assert(sub[0] == args@[i as int]@);
                        assert(sub.subrange(1, sub.len() as int) =~= av.subrange(i + 1, av.len() as int));
                    }
                    let ghost before = names_view(out@).to_set();
                    args[i].collect_free(bound, out);
                    proof {
                        let sub = av.subrange(i as int, av.len() as int);
                        let rest = av.subrange(i + 1, av.len() as int);
                        assert(args_free_vars(sub, b) == free_vars(sub[0], b) + args_free_vars(rest, b));
                        assert(names_view(out@).to_set() + args_free_vars(rest, b) =~= before + (free_vars(sub[0], b)
                            + args_free_vars(rest, b)));
                    }
                    i = i + 1;
                }
                proof {
                    assert(av.subrange(i as int, av.len() as int).len() == 0);
                    assert(names_view(out@).to_set() + Set::<Seq<char>>::empty() =~= names_view(out@).to_set());
                }
                assert(names_view(out@).to_set() =~= o0 + free_vars(self@, b));
            },
            Expr::Action { assns } => {
                proof {
                    crate::ast::lemma_action_view(*assns);
                }
                let ghost av = crate::ast::assns_view(assns@);
                let mut i: usize = 0;
                proof {
                    assert(av.subrange(0, av.len() as int) =~= av);
                    assert(o0 + Set::<Seq<char>>::empty() =~= o0);
                }
                while i < assns.len()
                    invariant
                        i <= assns.len(),
                        av == crate::ast::assns_view(assns@),
                        names_view(out@).no_duplicates(),
                        o0 + assns_free_vars(av, b) == names_view(out@).to_set() + assns_free_vars(
                            av.subrange(i as int, av.len() as int), b),
                    decreases assns.len() - i,
                {
                    proof {
                        assert(decreases_to!(*self => assns@[i as int].src));
                        let sub = av.subrange(i as int, av.len() as int);
                        assert(sub[0].src == assns@[i as int].src@);
                        assert(sub.subrange(1, sub.len() as int) =~= av.subrange(i + 1, av.len() as int));
                    }
                    let ghost before = names_view(out@).to_set();
                    assns[i].src.collect_free(bound, out);
                    proof {
                        let sub = av.subrange(i as int, av.len() as int);
                        let rest = av.subrange(i + 1, av.len() as int);
                        assert(assns_free_vars(sub, b) == free_vars(sub[0].src, b) + assns_free_vars(rest, b));
                        assert(names_view(out@).to_set() + assns_free_vars(rest, b) =~= before + (free_vars(sub[0].src, b)
                            + assns_free_vars(rest, b)));
                    }
                    i = i + 1;
                }
                proof {
                    assert(av.subrange(i as int, av.len() as int).len() == 0);
                    assert(names_view(out@).to_set() + Set::<Seq<char>>::empty() =~= names_view(out@).to_set());
                }
            },
        }
    }

    /// The free variables of the expression, none of them twice, given the
    /// names `var_binded` that are bound around it.
    pub fn free_var(&self, var_binded: &Vec<String>) -> (r: Vec<String>)
        ensures
            names_view(r@).no_duplicates(),
            names_view(r@).to_set() == free_vars(self@, names_view(var_binded@).to_set()),
    {
        let mut out: Vec<String> = Vec::new();
        proof {
            assert(names_view(out@) =~= Seq::<Seq<char>>::empty());
            assert(names_view(out@).to_set() =~= Set::<Seq<char>>::empty());
        }
        self.collect_free(var_binded, &mut out);
        proof {
            assert(names_view(out@).to_set() =~= free_vars(self@, names_view(var_binded@).to_set()));
        }
        out
    }
}

/// The renaming that a table of names gives.
pub open spec fn renames_view(t: Table<String, String>) -> Map<Seq<char>, Seq<char>> {
    t.map().map_values(|s: String| s@)
}

/// `e` with each variable that is free (bound neither in `bound` nor by an
/// enclosing function) and that `renames` renames, renamed. The
/// destinations of an action's assignments are kept.
pub open spec fn renamed(e: ExprV, bound: Set<Seq<char>>, renames: Map<Seq<char>, Seq<char>>) -> ExprV
    decreases e,
{
    match e {
        ExprV::Variable { ident } => if !bound.contains(ident) && renames.contains_key(ident) {
            ExprV::Variable { ident: renames[ident] }
        } else {
            e
        },
        ExprV::Unop { op, expr } => ExprV::Unop { op, expr: Box::new(renamed(*expr, bound, renames)) },
        ExprV::Binop { op, expr1, expr2 } => ExprV::Binop {
            op,
            expr1: Box::new(renamed(*expr1, bound, renames)),
            expr2: Box::new(renamed(*expr2, bound, renames)),
        },
        ExprV::If { cond, expr1, expr2 } => ExprV::If {
            cond: Box::new(renamed(*cond, bound, renames)),
            expr1: Box::new(renamed(*expr1, bound, renames)),
            expr2: Box::new(renamed(*expr2, bound, renames)),
        },
        ExprV::Func { params, body } => ExprV::Func { params, body: Box::new(renamed(*body, bound + params.to_set(), renames)) },
        ExprV::FuncApply { func, args } => ExprV::FuncApply {
            func: Box::new(renamed(*func, bound, renames)),
            args: Seq::new(args.len(), |i: int|
                if 0 <= i < args.len() { renamed(args[i], bound, renames) } else { ExprV::Number { val: 0 } }),
        },
        ExprV::Action { assns } => ExprV::Action {
            assns: Seq::new(assns.len(), |i: int|
                if 0 <= i < assns.len() {
                    AssnV { dest: assns[i].dest, src: renamed(assns[i].src, bound, renames) }
                } else {
                    AssnV { dest: Seq::empty(), src: ExprV::Number { val: 0 } }
                }),
        },
        _ => e,
    }
}

impl Expr {
    /// A copy of the expression with its free variables renamed (see
    /// `renamed`).
    #[verifier::loop_isolation(false)]
    fn renamed_copy(&self, bound: &Vec<String>, renames: &Table<String, String>) -> (r: Expr)
        ensures
            r@ == renamed(self@, names_view(bound@).to_set(), renames_view(*renames)),
        decreases self,
    {
        let ghost b = names_view(bound@).to_set();
        let ghost m = renames_view(*renames);
        match self {
            Expr::Number { val } => Expr::Number { val: *val },
            Expr::Bool { val } => Expr::Bool { val: *val },
            Expr::Variable { ident } => {
                if !has_name(bound, ident) {
                    match renames.get(ident) {
                        Some(to) => {
                            return Expr::Variable { ident: to.clone() };
                        },
                        None => {},
                    }
                }
                Expr::Variable { ident: ident.clone() }
            },
            Expr::Unop { op, expr } => Expr::Unop { op: *op, expr: Box::new(expr.renamed_copy(bound, renames)) },
            Expr::Binop { op, expr1, expr2 } => Expr::Binop {
                op: *op,
                expr1: Box::new(expr1.renamed_copy(bound, renames)),
                expr2: Box::new(expr2.renamed_copy(bound, renames)),
            },
            Expr::If { cond, expr1, expr2 } => Expr::If {
                cond: Box::new(cond.renamed_copy(bound, renames)),
                expr1: Box::new(expr1.renamed_copy(bound, renames)),
                expr2: Box::new(expr2.renamed_copy(bound, renames)),
            },
            Expr::Func { params, body } => {
                let inner = extend_bound(bound, params);
                proof {
                    lemma_concat_to_set(names_view(bound@), names_view(params@));
                }
                let new_body = body.renamed_copy(&inner, renames);
                Expr::Func { params: crate::ast::clone_names(params), body: Box::new(new_body) }
            },
            Expr::FuncApply { func, args } => {
                let new_func = func.renamed_copy(bound, renames);
                let mut new_args: Vec<Expr> = Vec::new();
                let mut i: usize = 0;
                while i < args.len()
                    invariant
                        i <= args@.len(),
                        new_args@.len() == i,
                        forall|j: int| 0 <= j < i ==> (#[trigger] new_args@[j])@ == renamed(args@[j]@, b, m),
                    decreases args@.len() - i,
                {
                    proof {
                        assert(decreases_to!(*self => args@[i as int]));
                    }
                    new_args.push(args[i].renamed_copy(bound, renames));
                    i = i + 1;
                }
                let r = Expr::FuncApply { func: Box::new(new_func), args: new_args };
                proof {
                    crate::ast::lemma_apply_view(*func, *args);
                    assert(r@->FuncApply_args =~= renamed(self@, b, m)->FuncApply_args);
                }
                r
            },
            Expr::Action { assns } => {
                let mut new_assns: Vec<Assn> = Vec::new();
                let mut i: usize = 0;
                while i < assns.len()
                    invariant
                        i <= assns@.len(),
                        new_assns@.len() == i,
                        forall|j: int| 0 <= j < i ==> (#[trigger] new_assns@[j]).dest@ == assns@[j].dest@
                            && new_assns@[j].src@ == renamed(assns@[j].src@, b, m),
                    decreases assns@.len() - i,
                {
                    proof {
                        assert(decreases_to!(*self => assns@[i as int].src));
                    }
                    new_assns.push(Assn { dest: assns[i].dest.clone(), src: assns[i].src.renamed_copy(bound, renames) });
                    i = i + 1;
                }
                let r = Expr::Action { assns: new_assns };
                proof {
                    crate::ast::lemma_action_view(*assns);
                    assert(r@->assns =~= renamed(self@, b, m)->assns);
                }
                r
            },
        }
    }

    /// Renames, in place, each variable that is free (not in `var_binded`
    /// nor bound by an enclosing function) and that `renames` maps to a new
    /// name.
    pub fn alpha_rename(&mut self, var_binded: &Vec<String>, renames: &Table<String, String>)
        ensures
            final(self)@ == renamed(old(self)@, names_view(var_binded@).to_set(), renames_view(*renames)),
    {
        *self = self.renamed_copy(var_binded, renames);
    }
}

/// No free variable of an expression is one of the names bound around it.
pub proof fn law_free_vars_unbound(e: ExprV, bound: Set<Seq<char>>)
    ensures
        forall|x: Seq<char>| #[trigger] free_vars(e, bound).contains(x) ==> !bound.contains(x),
    decreases e, 0nat,
{
    match e {
        ExprV::Unop { op, expr } => {
            law_free_vars_unbound(*expr, bound);
            assert(free_vars(e, bound) == free_vars(*expr, bound));
        },
        ExprV::Binop { op, expr1, expr2 } => {
            law_free_vars_unbound(*expr1, bound);
            law_free_vars_unbound(*expr2, bound);
            assert(free_vars(e, bound) == free_vars(*expr1, bound) + free_vars(*expr2, bound));
        },
        ExprV::If { cond, expr1, expr2 } => {
            law_free_vars_unbound(*cond, bound);
            law_free_vars_unbound(*expr1, bound);
            law_free_vars_unbound(*expr2, bound);
            assert(free_vars(e, bound) == free_vars(*cond, bound) + free_vars(*expr1, bound) + free_vars(*expr2, bound));
        },
        ExprV::Func { params, body } => {
            law_free_vars_unbound(*body, bound + params.to_set());
            assert(free_vars(e, bound) == free_vars(*body, bound + params.to_set()));
        },
        ExprV::FuncApply { func, args } => {
            law_free_vars_unbound(*func, bound);
            law_args_free_vars_unbound(args, bound);
            assert(free_vars(e, bound) == free_vars(*func, bound) + args_free_vars(args, bound));
        },
        ExprV::Action { assns } => {
            law_assns_free_vars_unbound(assns, bound);
            assert(free_vars(e, bound) == assns_free_vars(assns, bound));
        },
        _ => {},
    }
}

/// No free variable of a list of expressions is bound around it.
pub proof fn law_args_free_vars_unbound(args: Seq<ExprV>, bound: Set<Seq<char>>)
    ensures
        forall|x: Seq<char>| #[trigger] args_free_vars(args, bound).contains(x) ==> !bound.contains(x),
    decreases args, 1nat,
{
    if args.len() > 0 {
        law_free_vars_unbound(args[0], bound);
        law_args_free_vars_unbound(args.subrange(1, args.len() as int), bound);
        assert(args_free_vars(args, bound) == free_vars(args[0], bound) + args_free_vars(args.subrange(1, args.len() as int),
            bound));
    }
}

/// No free variable of the right-hand sides of assignments is bound
/// around them.
pub proof fn law_assns_free_vars_unbound(assns: Seq<AssnV>, bound: Set<Seq<char>>)
    ensures
        forall|x: Seq<char>| #[trigger] assns_free_vars(assns, bound).contains(x) ==> !bound.contains(x),
    decreases assns, 1nat,
{
    if assns.len() > 0 {
        law_free_vars_unbound(assns[0].src, bound);
        law_assns_free_vars_unbound(assns.subrange(1, assns.len() as int), bound);
        assert(assns_free_vars(assns, bound) == free_vars(assns[0].src, bound) + assns_free_vars(
            assns.subrange(1, assns.len() as int), bound));
    }
}

/// Whether renaming carries the free variables of `e` through `renames`:
/// a free variable with no new name stays free, and each free variable of
/// the renamed expression is either such a one or the new name of a free
/// variable.
pub open spec fn renaming_carries(e: ExprV, bound: Set<Seq<char>>, renames: Map<Seq<char>, Seq<char>>) -> bool {
    carried(free_vars(e, bound), free_vars(renamed(e, bound, renames), bound), renames)
}

/// Whether the names `after` come from the names `before` through
/// `renames`: each name of `before` with no new name is in `after`, and each
/// name of `after` is either such a one or the new name of one of `before`.
pub open spec fn carried(before: Set<Seq<char>>, after: Set<Seq<char>>, renames: Map<Seq<char>, Seq<char>>) -> bool {
    &&& forall|x: Seq<char>| #[trigger] before.contains(x) && !renames.contains_key(x) ==> after.contains(x)
    &&& forall|y: Seq<char>| #[trigger] after.contains(y) ==> (before.contains(y) && !renames.contains_key(y))
        || exists|x: Seq<char>| #[trigger] before.contains(x) && renames.contains_key(x) && renames[x] == y
}

/// Names carried through renames on each side of a union are carried on
/// the union.
proof fn lemma_carried_union(
    b1: Set<Seq<char>>,
    a1: Set<Seq<char>>,
    b2: Set<Seq<char>>,
    a2: Set<Seq<char>>,
    renames: Map<Seq<char>, Seq<char>>,
)
    requires
        carried(b1, a1, renames),
        carried(b2, a2, renames),
    ensures
        carried(b1 + b2, a1 + a2, renames),
{
    assert forall|y: Seq<char>| #[trigger] (a1 + a2).contains(y) implies ((b1 + b2).contains(y) && !renames.contains_key(y))
        || exists|x: Seq<char>| #[trigger] (b1 + b2).contains(x) && renames.contains_key(x) && renames[x] == y by {
        if a1.contains(y) {
            if !(b1.contains(y) && !renames.contains_key(y)) {
                let x = choose|x: Seq<char>| #[trigger] b1.contains(x) && renames.contains_key(x) && renames[x] == y;
                assert((b1 + b2).contains(x));
            }
        } else {
            if !(b2.contains(y) && !renames.contains_key(y)) {
                let x = choose|x: Seq<char>| #[trigger] b2.contains(x) && renames.contains_key(x) && renames[x] == y;
                assert((b1 + b2).contains(x));
            }
        }
    }
}

/// A variable is free in a list of expressions when it is free in one of
/// them.
proof fn lemma_args_free_vars_at(args: Seq<ExprV>, bound: Set<Seq<char>>)
    ensures
        forall|x: Seq<char>| #[trigger] args_free_vars(args, bound).contains(x) <==> exists|i: int| 0 <= i < args.len()
            && #[trigger] free_vars(args[i], bound).contains(x),
    decreases args.len(),
{
    if args.len() > 0 {
        let rest = args.subrange(1, args.len() as int);
        lemma_args_free_vars_at(rest, bound);
        assert(args_free_vars(args, bound) == free_vars(args[0], bound) + args_free_vars(rest, bound));
        assert forall|x: Seq<char>| #[trigger] args_free_vars(args, bound).contains(x) <==> exists|i: int| 0 <= i < args.len()
            && #[trigger] free_vars(args[i], bound).contains(x) by {
            if exists|i: int| 0 <= i < args.len() && #[trigger] free_vars(args[i], bound).contains(x) {
                let i = choose|i: int| 0 <= i < args.len() && #[trigger] free_vars(args[i], bound).contains(x);
                if i > 0 {
                    assert(rest[i - 1] == args[i]);
                }
            }
            if args_free_vars(rest, bound).contains(x) {
                let i = choose|i: int| 0 <= i < rest.len() && #[trigger] free_vars(rest[i], bound).contains(x);
                assert(args[i + 1] == rest[i]);
            }
        }
    }
}

/// A variable is free in the right-hand sides of assignments when it is
/// free in one of them.
proof fn lemma_assns_free_vars_at(assns: Seq<AssnV>, bound: Set<Seq<char>>)
    ensures
        forall|x: Seq<char>| #[trigger] assns_free_vars(assns, bound).contains(x) <==> exists|i: int| 0 <= i < assns.len()
            && #[trigger] free_vars(assns[i].src, bound).contains(x),
    decreases assns.len(),
{
    if assns.len() > 0 {
        let rest = assns.subrange(1, assns.len() as int);
        lemma_assns_free_vars_at(rest, bound);
        assert(assns_free_vars(assns, bound) == free_vars(assns[0].src, bound) + assns_free_vars(rest, bound));
        assert forall|x: Seq<char>| #[trigger] assns_free_vars(assns, bound).contains(x) <==> exists|i: int| 0 <= i < assns.len()
            && #[trigger] free_vars(assns[i].src, bound).contains(x) by {
            if exists|i: int| 0 <= i < assns.len() && #[trigger] free_vars(assns[i].src, bound).contains(x) {
                let i = choose|i: int| 0 <= i < assns.len() && #[trigger] free_vars(assns[i].src, bound).contains(x);
                if i > 0 {
                    assert(rest[i - 1] == assns[i]);
                }
            }
            if assns_free_vars(rest, bound).contains(x) {
                let i = choose|i: int| 0 <= i < rest.len() && #[trigger] free_vars(rest[i].src, bound).contains(x);
                assert(assns[i + 1] == rest[i]);
            }
        }
    }
}

/// Renaming the free variables of an expression (what `alpha_rename` does)
/// carries its free variables through the renames (see `renaming_carries`).
pub proof fn law_rename_free_vars(e: ExprV, bound: Set<Seq<char>>, renames: Map<Seq<char>, Seq<char>>)
    ensures
        renaming_carries(e, bound, renames),
    decreases e,
{
    let r = renamed(e, bound, renames);
    match e {
        ExprV::Variable { ident } => {
            if !bound.contains(ident) && renames.contains_key(ident) {
                assert(r == ExprV::Variable { ident: renames[ident] });
                assert forall|y: Seq<char>| #[trigger] free_vars(r, bound).contains(y) implies (free_vars(e, bound).contains(y)
                    && !renames.contains_key(y)) || exists|x: Seq<char>| #[trigger] free_vars(e, bound).contains(x)
                    && renames.contains_key(x) && renames[x] == y by {
                    assert(free_vars(e, bound).contains(ident));
                }
            } else {
                assert(r == e);
            }
        },
        ExprV::Unop { op, expr } => {
            law_rename_free_vars(*expr, bound, renames);
            assert(free_vars(e, bound) == free_vars(*expr, bound));
            assert(free_vars(r, bound) == free_vars(renamed(*expr, bound, renames), bound));
        },
        ExprV::Binop { op, expr1, expr2 } => {
            law_rename_free_vars(*expr1, bound, renames);
            law_rename_free_vars(*expr2, bound, renames);
            assert(free_vars(e, bound) == free_vars(*expr1, bound) + free_vars(*expr2, bound));
            assert(free_vars(r, bound) == free_vars(renamed(*expr1, bound, renames), bound) + free_vars(renamed(*expr2, bound,
                renames), bound));
            lemma_carried_union(free_vars(*expr1, bound), free_vars(renamed(*expr1, bound, renames), bound),
                free_vars(*expr2, bound), free_vars(renamed(*expr2, bound, renames), bound), renames);
        },
        ExprV::If { cond, expr1, expr2 } => {
            law_rename_free_vars(*cond, bound, renames);
            law_rename_free_vars(*expr1, bound, renames);
            law_rename_free_vars(*expr2, bound, renames);
            assert(free_vars(e, bound) == free_vars(*cond, bound) + free_vars(*expr1, bound) + free_vars(*expr2, bound));
            assert(free_vars(r, bound) == free_vars(renamed(*cond, bound, renames), bound) + free_vars(renamed(*expr1, bound,
                renames), bound) + free_vars(renamed(*expr2, bound, renames), bound));
            lemma_carried_union(free_vars(*cond, bound), free_vars(renamed(*cond, bound, renames), bound),
                free_vars(*expr1, bound), free_vars(renamed(*expr1, bound, renames), bound), renames);
            lemma_carried_union(free_vars(*cond, bound) + free_vars(*expr1, bound), free_vars(renamed(*cond, bound, renames), bound)
                + free_vars(renamed(*expr1, bound, renames), bound), free_vars(*expr2, bound), free_vars(renamed(*expr2, bound,
                renames), bound), renames);
        },
        ExprV::Func { params, body } => {
            law_rename_free_vars(*body, bound + params.to_set(), renames);
            assert(free_vars(e, bound) == free_vars(*body, bound + params.to_set()));
            assert(free_vars(r, bound) == free_vars(renamed(*body, bound + params.to_set(), renames), bound + params.to_set()));
        },
        ExprV::FuncApply { func, args } => {
            let ra = r->FuncApply_args;
            assert(ra.len() == args.len());
            law_rename_free_vars(*func, bound, renames);
            assert forall|i: int| 0 <= i < args.len() implies renaming_carries(args[i], bound, renames)
                && #[trigger] ra[i] == renamed(args[i], bound, renames) by {
                law_rename_free_vars(args[i], bound, renames);
            }
            lemma_args_free_vars_at(args, bound);
            lemma_args_free_vars_at(ra, bound);
            assert(free_vars(e, bound) == free_vars(*func, bound) + args_free_vars(args, bound));
            assert(r->FuncApply_func == Box::new(renamed(*func, bound, renames)));
            assert(free_vars(r, bound) == free_vars(renamed(*func, bound, renames), bound) + args_free_vars(ra, bound));
            assert forall|x: Seq<char>| #[trigger] free_vars(e, bound).contains(x) && !renames.contains_key(x)
                implies free_vars(r, bound).contains(x) by {
                if args_free_vars(args, bound).contains(x) {
                    let i = choose|i: int| 0 <= i < args.len() && #[trigger] free_vars(args[i], bound).contains(x);
                    assert(free_vars(ra[i], bound).contains(x));
                }
            }
            assert forall|y: Seq<char>| #[trigger] free_vars(r, bound).contains(y) implies (free_vars(e, bound).contains(y)
                && !renames.contains_key(y)) || exists|x: Seq<char>| #[trigger] free_vars(e, bound).contains(x)
                && renames.contains_key(x) && renames[x] == y by {
                if args_free_vars(ra, bound).contains(y) {
                    let i = choose|i: int| 0 <= i < ra.len() && #[trigger] free_vars(ra[i], bound).contains(y);
                    assert(free_vars(renamed(args[i], bound, renames), bound).contains(y));
                    if free_vars(args[i], bound).contains(y) && !renames.contains_key(y) {
                        assert(args_free_vars(args, bound).contains(y));
                    } else {
                        let x = choose|x: Seq<char>| #[trigger] free_vars(args[i], bound).contains(x) && renames.contains_key(x)
                            && renames[x] == y;
                        assert(args_free_vars(args, bound).contains(x));
                        assert(free_vars(e, bound).contains(x));
                    }
                } else {
                    assert(free_vars(renamed(*func, bound, renames), bound).contains(y));
                    if free_vars(*func, bound).contains(y) && !renames.contains_key(y) {
                        assert(free_vars(e, bound).contains(y));
                    } else {
                        let x = choose|x: Seq<char>| #[trigger] free_vars(*func, bound).contains(x) && renames.contains_key(x)
                            && renames[x] == y;
                        assert(free_vars(e, bound).contains(x));
                    }
                }
            }
        },
        ExprV::Action { assns } => {
            let ra = r->Action_assns;
            assert(ra.len() == assns.len());
            assert forall|i: int| 0 <= i < assns.len() implies renaming_carries(assns[i].src, bound, renames)
                && #[trigger] ra[i].src == renamed(assns[i].src, bound, renames) by {
                law_rename_free_vars(assns[i].src, bound, renames);
            }
            lemma_assns_free_vars_at(assns, bound);
            lemma_assns_free_vars_at(ra, bound);
            assert(free_vars(e, bound) == assns_free_vars(assns, bound));
            assert(free_vars(r, bound) == assns_free_vars(ra, bound));
            assert forall|x: Seq<char>| #[trigger] free_vars(e, bound).contains(x) && !renames.contains_key(x)
                implies free_vars(r, bound).contains(x) by {
                let i = choose|i: int| 0 <= i < assns.len() && #[trigger] free_vars(assns[i].src, bound).contains(x);
                assert(free_vars(ra[i].src, bound).contains(x));
            }
            assert forall|y: Seq<char>| #[trigger] free_vars(r, bound).contains(y) implies (free_vars(e, bound).contains(y)
                && !renames.contains_key(y)) || exists|x: Seq<char>| #[trigger] free_vars(e, bound).contains(x)
                && renames.contains_key(x) && renames[x] == y by {
                let i = choose|i: int| 0 <= i < ra.len() && #[trigger] free_vars(ra[i].src, bound).contains(y);
                assert(free_vars(renamed(assns[i].src, bound, renames), bound).contains(y));
                if free_vars(assns[i].src, bound).contains(y) && !renames.contains_key(y) {
                    assert(assns_free_vars(assns, bound).contains(y));
                } else {
                    let x = choose|x: Seq<char>| #[trigger] free_vars(assns[i].src, bound).contains(x) && renames.contains_key(x)
                        && renames[x] == y;
                    assert(assns_free_vars(assns, bound).contains(x));
                }
            }
        },
        _ => {},
    }
}

/// Binding more names around an expression takes exactly those names out of
/// its free variables.
pub proof fn lemma_free_vars_minus(e: ExprV, b: Set<Seq<char>>, c: Set<Seq<char>>)
    ensures
        free_vars(e, b + c) == free_vars(e, c).difference(b),
    decreases e, 0nat,
{
    match e {
        ExprV::Variable { ident } => {
            assert(free_vars(e, b + c) =~= free_vars(e, c).difference(b));
        },
        ExprV::Unop { op, expr } => {
            lemma_free_vars_minus(*expr, b, c);
        },
        ExprV::Binop { op, expr1, expr2 } => {
            lemma_free_vars_minus(*expr1, b, c);
            lemma_free_vars_minus(*expr2, b, c);
            assert(free_vars(e, b + c) =~= free_vars(e, c).difference(b));
        },
        ExprV::If { cond, expr1, expr2 } => {
            lemma_free_vars_minus(*cond, b, c);
            lemma_free_vars_minus(*expr1, b, c);
            lemma_free_vars_minus(*expr2, b, c);
            assert(free_vars(e, b + c) =~= free_vars(e, c).difference(b));
        },
        ExprV::Func { params, body } => {
            assert(b + c + params.to_set() =~= b + (c + params.to_set()));
            lemma_free_vars_minus(*body, b, c + params.to_set());
        },
        ExprV::FuncApply { func, args } => {
            lemma_free_vars_minus(*func, b, c);
            lemma_args_free_vars_minus(args, b, c);
            assert(free_vars(e, b + c) =~= free_vars(e, c).difference(b));
        },
        ExprV::Action { assns } => {
            lemma_assns_free_vars_minus(assns, b, c);
        },
        _ => {
            assert(free_vars(e, b + c) =~= free_vars(e, c).difference(b));
        },
    }
}

/// Binding more names around a list of expressions takes exactly those
/// names out of its free variables.
pub proof fn lemma_args_free_vars_minus(args: Seq<ExprV>, b: Set<Seq<char>>, c: Set<Seq<char>>)
    ensures
        args_free_vars(args, b + c) == args_free_vars(args, c).difference(b),
    decreases args, 1nat,
{
    if args.len() > 0 {
        lemma_free_vars_minus(args[0], b, c);
        lemma_args_free_vars_minus(args.subrange(1, args.len() as int), b, c);
        assert(args_free_vars(args, b + c) =~= args_free_vars(args, c).difference(b));
    } else {
        assert(args_free_vars(args, b + c) =~= args_free_vars(args, c).difference(b));
    }
}

/// Binding more names around assignments takes exactly those names out of
/// the free variables of their right-hand sides.
pub proof fn lemma_assns_free_vars_minus(assns: Seq<AssnV>, b: Set<Seq<char>>, c: Set<Seq<char>>)
    ensures
        assns_free_vars(assns, b + c) == assns_free_vars(assns, c).difference(b),
    decreases assns, 1nat,
{
    if assns.len() > 0 {
        lemma_free_vars_minus(assns[0].src, b, c);
        lemma_assns_free_vars_minus(assns.subrange(1, assns.len() as int), b, c);
        assert(assns_free_vars(assns, b + c) =~= assns_free_vars(assns, c).difference(b));
    } else {
        assert(assns_free_vars(assns, b + c) =~= assns_free_vars(assns, c).difference(b));
    }
}

/// The free variables of an expression with the names `b` bound around it
/// are its free variables with nothing bound, less `b` (what `free_var`
/// gives for `b` and for no name); so binding more names only takes free
/// variables away.
pub proof fn law_free_vars_bound(e: ExprV, b: Set<Seq<char>>, b2: Set<Seq<char>>)
    ensures
        free_vars(e, b) == free_vars(e, Set::empty()).difference(b),
        b.subset_of(b2) ==> free_vars(e, b2).subset_of(free_vars(e, b)),
{
    lemma_free_vars_minus(e, b, Set::empty());
    assert(b + Set::<Seq<char>>::empty() =~= b);
    lemma_free_vars_minus(e, b2, Set::empty());
    assert(b2 + Set::<Seq<char>>::empty() =~= b2);
}

/// The names that functions inside `e` take as parameters.
pub open spec fn params_in(e: ExprV) -> Set<Seq<char>>
    decreases e, 0nat,
{
    match e {
        ExprV::Unop { op, expr } => params_in(*expr),
        ExprV::Binop { op, expr1, expr2 } => params_in(*expr1) + params_in(*expr2),
        ExprV::If { cond, expr1, expr2 } => params_in(*cond) + params_in(*expr1) + params_in(*expr2),
        ExprV::Func { params, body } => params.to_set() + params_in(*body),
        ExprV::FuncApply { func, args } => params_in(*func) + args_params_in(args),
        ExprV::Action { assns } => assns_params_in(assns),
        _ => Set::empty(),
    }
}

/// The names that functions inside a list of expressions take as
/// parameters.
pub open spec fn args_params_in(args: Seq<ExprV>) -> Set<Seq<char>>
    decreases args, 1nat,
{
    if args.len() == 0 {
        Set::empty()
    } else {
        params_in(args[0]) + args_params_in(args.subrange(1, args.len() as int))
    }
}

/// The names that functions inside the right-hand sides of assignments take
/// as parameters.
pub open spec fn assns_params_in(assns: Seq<AssnV>) -> Set<Seq<char>>
    decreases assns, 1nat,
{
    if assns.len() == 0 {
        Set::empty()
    } else {
        params_in(assns[0].src) + assns_params_in(assns.subrange(1, assns.len() as int))
    }
}

/// The parameters inside each expression of a list are among those of the
/// list.
proof fn lemma_args_params_at(args: Seq<ExprV>, i: int)
    requires
        0 <= i < args.len(),
    ensures
        params_in(args[i]).subset_of(args_params_in(args)),
    decreases args.len(),
{
    if i > 0 {
        let rest = args.subrange(1, args.len() as int);
        lemma_args_params_at(rest, i - 1);
        assert(rest[i - 1] == args[i]);
    }
}

/// The parameters inside each right-hand side are among those of the
/// assignments.
proof fn lemma_assns_params_at(assns: Seq<AssnV>, i: int)
    requires
        0 <= i < assns.len(),
    ensures
        params_in(assns[i].src).subset_of(assns_params_in(assns)),
    decreases assns.len(),
{
    if i > 0 {
        let rest = assns.subrange(1, assns.len() as int);
        lemma_assns_params_at(rest, i - 1);
        assert(rest[i - 1] == assns[i]);
    }
}

/// Whether no new name of `renames` is bound around `e` or inside it.
pub open spec fn renames_uncaptured(e: ExprV, bound: Set<Seq<char>>, renames: Map<Seq<char>, Seq<char>>) -> bool {
    forall|x: Seq<char>| #[trigger] renames.contains_key(x) ==> !bound.contains(renames[x]) && !params_in(e).contains(renames[x])
}

/// Where no new name is captured, the new name of each free variable is
/// free in the renamed expression.
proof fn lemma_rename_targets_free(e: ExprV, bound: Set<Seq<char>>, renames: Map<Seq<char>, Seq<char>>)
    requires
        renames_uncaptured(e, bound, renames),
    ensures
        forall|x: Seq<char>| #[trigger] free_vars(e, bound).contains(x) && renames.contains_key(x)
            ==> free_vars(renamed(e, bound, renames), bound).contains(renames[x]),
    decreases e,
{
    let r = renamed(e, bound, renames);
    match e {
        ExprV::Variable { ident } => {
            if !bound.contains(ident) && renames.contains_key(ident) {
                assert(r == ExprV::Variable { ident: renames[ident] });
            }
        },
        ExprV::Unop { op, expr } => {
            lemma_rename_targets_free(*expr, bound, renames);
            assert(free_vars(e, bound) == free_vars(*expr, bound));
            assert(free_vars(r, bound) == free_vars(renamed(*expr, bound, renames), bound));
        },
        ExprV::Binop { op, expr1, expr2 } => {
            lemma_rename_targets_free(*expr1, bound, renames);
            lemma_rename_targets_free(*expr2, bound, renames);
            assert(free_vars(e, bound) == free_vars(*expr1, bound) + free_vars(*expr2, bound));
            assert(free_vars(r, bound) == free_vars(renamed(*expr1, bound, renames), bound) + free_vars(renamed(*expr2, bound,
                renames), bound));
        },
        ExprV::If { cond, expr1, expr2 } => {
            lemma_rename_targets_free(*cond, bound, renames);
            lemma_rename_targets_free(*expr1, bound, renames);
            lemma_rename_targets_free(*expr2, bound, renames);
            assert(free_vars(e, bound) == free_vars(*cond, bound) + free_vars(*expr1, bound) + free_vars(*expr2, bound));
            assert(free_vars(r, bound) == free_vars(renamed(*cond, bound, renames), bound) + free_vars(renamed(*expr1, bound,
                renames), bound) + free_vars(renamed(*expr2, bound, renames), bound));
        },
        ExprV::Func { params, body } => {
            lemma_rename_targets_free(*body, bound + params.to_set(), renames);
            assert(free_vars(e, bound) == free_vars(*body, bound + params.to_set()));
            assert(free_vars(r, bound) == free_vars(renamed(*body, bound + params.to_set(), renames), bound + params.to_set()));
        },
        ExprV::FuncApply { func, args } => {
            let ra = r->FuncApply_args;
            assert(ra.len() == args.len());
            lemma_rename_targets_free(*func, bound, renames);
            assert forall|i: int| 0 <= i < args.len() implies (forall|x: Seq<char>| #[trigger] free_vars(args[i], bound).contains(x)
                && renames.contains_key(x) ==> free_vars(renamed(args[i], bound, renames), bound).contains(renames[x]))
                && #[trigger] ra[i] == renamed(args[i], bound, renames) by {
                lemma_args_params_at(args, i);
                lemma_rename_targets_free(args[i], bound, renames);
            }
            lemma_args_free_vars_at(args, bound);
            lemma_args_free_vars_at(ra, bound);
            assert(free_vars(e, bound) == free_vars(*func, bound) + args_free_vars(args, bound));
            assert(r->FuncApply_func == Box::new(renamed(*func, bound, renames)));
            assert(free_vars(r, bound) == free_vars(renamed(*func, bound, renames), bound) + args_free_vars(ra, bound));
            assert forall|x: Seq<char>| #[trigger] free_vars(e, bound).contains(x) && renames.contains_key(x)
                implies free_vars(r, bound).contains(renames[x]) by {
                if args_free_vars(args, bound).contains(x) {
                    let i = choose|i: int| 0 <= i < args.len() && #[trigger] free_vars(args[i], bound).contains(x);
                    assert(free_vars(ra[i], bound).contains(renames[x]));
                }
            }
        },
        ExprV::Action { assns } => {
            let ra = r->Action_assns;
            assert(ra.len() == assns.len());
            assert forall|i: int| 0 <= i < assns.len() implies (forall|x: Seq<char>| #[trigger] free_vars(assns[i].src, bound).contains(x)
                && renames.contains_key(x) ==> free_vars(renamed(assns[i].src, bound, renames), bound).contains(renames[x]))
                && #[trigger] ra[i].src == renamed(assns[i].src, bound, renames) by {
                lemma_assns_params_at(assns, i);
                lemma_rename_targets_free(assns[i].src, bound, renames);
            }
            lemma_assns_free_vars_at(assns, bound);
            lemma_assns_free_vars_at(ra, bound);
            assert(free_vars(e, bound) == assns_free_vars(assns, bound));
            assert(free_vars(r, bound) == assns_free_vars(ra, bound));
            assert forall|x: Seq<char>| #[trigger] free_vars(e, bound).contains(x) && renames.contains_key(x)
                implies free_vars(r, bound).contains(renames[x]) by {
                let i = choose|i: int| 0 <= i < assns.len() && #[trigger] free_vars(assns[i].src, bound).contains(x);
                assert(free_vars(ra[i].src, bound).contains(renames[x]));
            }
        },
        _ => {},
    }
}

/// Where no new name is captured, renaming (what `alpha_rename` does)
/// gives the free variables exactly as the image of the old ones under
/// the renames, each name without a new one standing for itself.
pub proof fn law_rename_free_vars_exact(e: ExprV, bound: Set<Seq<char>>, renames: Map<Seq<char>, Seq<char>>)
    requires
        renames_uncaptured(e, bound, renames),
    ensures
        free_vars(renamed(e, bound, renames), bound) == free_vars(e, bound).map(|x: Seq<char>|
            if renames.contains_key(x) { renames[x] } else { x }),
{
    law_rename_free_vars(e, bound, renames);
    lemma_rename_targets_free(e, bound, renames);
    let f = |x: Seq<char>| if renames.contains_key(x) { renames[x] } else { x };
    let img = free_vars(e, bound).map(f);
    let fr = free_vars(renamed(e, bound, renames), bound);
    assert forall|y: Seq<char>| fr.contains(y) <==> img.contains(y) by {
        if fr.contains(y) {
            if free_vars(e, bound).contains(y) && !renames.contains_key(y) {
                assert(f(y) == y);
            } else {
                let x = choose|x: Seq<char>| #[trigger] free_vars(e, bound).contains(x) && renames.contains_key(x) && renames[x] == y;
                assert(f(x) == y);
            }
        }
        if img.contains(y) {
            let x = choose|x: Seq<char>| free_vars(e, bound).contains(x) && f(x) == y;
            assert(free_vars(e, bound).contains(x));
        }
    }
    assert(fr =~= img);
}

/// Renaming with no renames leaves an expression as it is.
pub proof fn law_rename_nothing(e: ExprV, bound: Set<Seq<char>>)
    ensures
        renamed(e, bound, Map::empty()) == e,
    decreases e,
{
    match e {
        ExprV::Unop { op, expr } => {
            law_rename_nothing(*expr, bound);
        },
        ExprV::Binop { op, expr1, expr2 } => {
            law_rename_nothing(*expr1, bound);
            law_rename_nothing(*expr2, bound);
        },
        ExprV::If { cond, expr1, expr2 } => {
            law_rename_nothing(*cond, bound);
            law_rename_nothing(*expr1, bound);
            law_rename_nothing(*expr2, bound);
        },
        ExprV::Func { params, body } => {
            law_rename_nothing(*body, bound + params.to_set());
        },
        ExprV::FuncApply { func, args } => {
            law_rename_nothing(*func, bound);
            assert forall|i: int| 0 <= i < args.len() implies renamed(args[i], bound, Map::empty()) == args[i] by {
                law_rename_nothing(args[i], bound);
            }
            assert(renamed(e, bound, Map::empty())->FuncApply_args =~= args);
        },
        ExprV::Action { assns } => {
            assert forall|i: int| 0 <= i < assns.len() implies renamed(assns[i].src, bound, Map::empty()) == assns[i].src by {
                law_rename_nothing(assns[i].src, bound);
            }
            assert(renamed(e, bound, Map::empty())->assns =~= assns);
        },
        _ => {},
    }
}

/// A variable bound around an expression is never free in it.
pub proof fn law_bound_not_free(e: ExprV, bound: Set<Seq<char>>, x: Seq<char>)
    requires
        bound.contains(x),
    ensures
        !free_vars(e, bound).contains(x),
    decreases e, 0nat,
{
    match e {
        ExprV::Unop { op, expr } => {
            law_bound_not_free(*expr, bound, x);
        },
        ExprV::Binop { op, expr1, expr2 } => {
            law_bound_not_free(*expr1, bound, x);
            law_bound_not_free(*expr2, bound, x);
        },
        ExprV::If { cond, expr1, expr2 } => {
            law_bound_not_free(*cond, bound, x);
            law_bound_not_free(*expr1, bound, x);
            law_bound_not_free(*expr2, bound, x);
        },
        ExprV::Func { params, body } => {
            law_bound_not_free(*body, bound + params.to_set(), x);
        },
        ExprV::FuncApply { func, args } => {
            law_bound_not_free(*func, bound, x);
            lemma_args_bound_not_free(args, bound, x);
        },
        ExprV::Action { assns } => {
            lemma_assns_bound_not_free(assns, bound, x);
        },
        _ => {},
    }
}

proof fn lemma_args_bound_not_free(args: Seq<ExprV>, bound: Set<Seq<char>>, x: Seq<char>)
    requires
        bound.contains(x),
    ensures
        !args_free_vars(args, bound).contains(x),
    decreases args, 1nat,
{
    if args.len() > 0 {
        law_bound_not_free(args[0], bound, x);
        lemma_args_bound_not_free(args.subrange(1, args.len() as int), bound, x);
    }
}

proof fn lemma_assns_bound_not_free(assns: Seq<AssnV>, bound: Set<Seq<char>>, x: Seq<char>)
    requires
        bound.contains(x),
    ensures
        !assns_free_vars(assns, bound).contains(x),
    decreases assns, 1nat,
{
    if assns.len() > 0 {
        law_bound_not_free(assns[0].src, bound, x);
        lemma_assns_bound_not_free(assns.subrange(1, assns.len() as int), bound, x);
    }
}

} // verus!
