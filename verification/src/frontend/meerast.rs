//! The abstract syntax of the first Meerkat front end, and the names an
//! expression mentions.
use vstd::prelude::*;

use crate::ast::names_view;
use crate::ast::utils::add_name;

verus! {

/// An input at the prompt.
#[derive(Debug)]
pub enum ReplInput {
    Service(Service),
    Do(Stmt),
    Decl(Vec<Decl>),
    Open(String),
    Close,
    Exit,
}

/// A program: its services.
#[derive(Debug)]
pub enum Program {
    Prog { services: Vec<Service> },
}

/// A service: its name and declarations.
#[derive(Debug)]
pub enum Service {
    Srv { name: String, decls: Vec<Decl> },
}

/// A declaration of a service.
#[derive(Debug)]
pub enum Decl {
    Import { srv_name: String },
    VarDecl { name: String, val: Expr },
    DefDecl { name: String, val: Expr, is_pub: bool },
}

/// A statement: a sequence of simple statements.
#[derive(Debug)]
pub enum Stmt {
    Stmt { sgl_stmts: Vec<SglStmt> },
}

/// A simple statement: doing an action, or an assignment.
#[derive(Debug)]
pub enum SglStmt {
    Do { act: Expr },
    Ass { dst: Expr, src: Expr },
}

/// Expressions.
#[derive(Debug)]
pub enum Expr {
    IdExpr { ident: String },
    IntConst { val: i32 },
    BoolConst { val: bool },
    Action { stmt: Stmt },
    Member { srv_name: String, member: Box<Expr> },
    Apply { fun: Box<Expr>, args: Vec<Expr> },
    BopExpr { opd1: Box<Expr>, opd2: Box<Expr>, bop: Binop },
    UopExpr { opd: Box<Expr>, uop: Uop },
    IfExpr { cond: Box<Expr>, then: Box<Expr>, elze: Box<Expr> },
    Lambda { pars: Vec<Expr>, body: Box<Expr> },
}

/// Unary operators.
#[derive(Debug, Clone, Copy, PartialEq, Eq, Hash)]
pub enum Uop {
    Neg,
    Not,
}

/// Binary operators.
#[derive(Debug, Clone, Copy, PartialEq, Eq, Hash)]
pub enum Binop {
    Add,
    Sub,
    Mul,
    Div,
    Eq,
    Lt,
    Gt,
    And,
    Or,
}

/// Whether the names of an expression can be collected: it refers to no
/// member of another service, and every parameter of a function is a name.
pub open spec fn collectable(e: Expr) -> bool
    decreases e, 0nat,
{
    match e {
        Expr::IdExpr { .. } | Expr::IntConst { .. } | Expr::BoolConst { .. } => true,
        Expr::Action { stmt } => match stmt {
            Stmt::Stmt { sgl_stmts } => sgls_collectable(sgl_stmts@),
        },
        Expr::Member { .. } => false,
        Expr::Apply { fun, args } => collectable(*fun) && args_collectable(args@),
        Expr::BopExpr { opd1, opd2, .. } => collectable(*opd1) && collectable(*opd2),
        Expr::UopExpr { opd, .. } => collectable(*opd),
        Expr::IfExpr { cond, then, elze } => collectable(*cond) && collectable(*then) && collectable(*elze),
        Expr::Lambda { pars, body } => (forall|j: int| 0 <= j < pars@.len() ==> #[trigger] pars@[j] is IdExpr) && collectable(*body),
    }
}

/// Whether the names of each expression of a list can be collected.
pub open spec fn args_collectable(args: Seq<Expr>) -> bool
    decreases args, 1nat,
{
    if args.len() == 0 {
        true
    } else {
        collectable(args[0]) && args_collectable(args.subrange(1, args.len() as int))
    }
}

/// Whether the names of each simple statement of a list can be collected.
pub open spec fn sgls_collectable(sgls: Seq<SglStmt>) -> bool
    decreases sgls, 1nat,
{
    if sgls.len() == 0 {
        true
    } else {
        let first = match sgls[0] {
            SglStmt::Do { act } => collectable(act),
            SglStmt::Ass { src, .. } => collectable(src),
        };
        first && sgls_collectable(sgls.subrange(1, sgls.len() as int))
    }
}

/// The parameter names of a function.
pub open spec fn par_names(pars: Seq<Expr>) -> Set<Seq<char>> {
    Set::new(|x: Seq<char>| exists|j: int| 0 <= j < pars.len() && #[trigger] pars[j] is IdExpr && pars[j]->ident@ == x)
}

/// The names collected so far, `acc`, once those of `e` are collected: the
/// names it mentions, in the order met; after the body of a function, the
/// function's parameters are taken out of everything collected so far.
pub open spec fn names_after(acc: Set<Seq<char>>, e: Expr) -> Set<Seq<char>>
    decreases e, 0nat,
{
    match e {
        Expr::IdExpr { ident } => acc.insert(ident@),
        Expr::IntConst { .. } | Expr::BoolConst { .. } => acc,
        Expr::Action { stmt } => match stmt {
            Stmt::Stmt { sgl_stmts } => sgls_names_after(acc, sgl_stmts@),
        },
        Expr::Member { .. } => acc,
        Expr::Apply { fun, args } => args_names_after(names_after(acc, *fun), args@),
        Expr::BopExpr { opd1, opd2, .. } => names_after(names_after(acc, *opd1), *opd2),
        Expr::UopExpr { opd, .. } => names_after(acc, *opd),
        Expr::IfExpr { cond, then, elze } => names_after(names_after(names_after(acc, *cond), *then), *elze),
        Expr::Lambda { pars, body } => names_after(acc, *body).difference(par_names(pars@)),
    }
}

/// The names collected after those of each expression of a list.
pub open spec fn args_names_after(acc: Set<Seq<char>>, args: Seq<Expr>) -> Set<Seq<char>>
    decreases args, 1nat,
{
    if args.len() == 0 {
        acc
    } else {
        args_names_after(names_after(acc, args[0]), args.subrange(1, args.len() as int))
    }
}

/// The names collected after those of each simple statement of a list: the
/// action done, or the right-hand side of an assignment.
pub open spec fn sgls_names_after(acc: Set<Seq<char>>, sgls: Seq<SglStmt>) -> Set<Seq<char>>
    decreases sgls, 1nat,
{
    if sgls.len() == 0 {
        acc
    } else {
        let next = match sgls[0] {
            SglStmt::Do { act } => names_after(acc, act),
            SglStmt::Ass { src, .. } => names_after(acc, src),
        };
        sgls_names_after(next, sgls.subrange(1, sgls.len() as int))
    }
}

/// Takes the parameter names `pars` out of `names`.
fn remove_pars(names: Vec<String>, pars: &Vec<Expr>) -> (r: Vec<String>)
    requires
        names_view(names@).no_duplicates(),
    ensures
        names_view(r@).no_duplicates(),
        names_view(r@).to_set() == names_view(names@).to_set().difference(par_names(pars@)),
{
    let mut r: Vec<String> = Vec::new();
    let mut i: usize = 0;
    proof {
        assert(names_view(r@) =~= Seq::<Seq<char>>::empty());
    }
    while i < names.len()
        invariant
            i <= names@.len(),
            names_view(names@).no_duplicates(),
            names_view(r@).no_duplicates(),
            names_view(r@).to_set() == names_view(names@).subrange(0, i as int).to_set().difference(par_names(pars@)),
            forall|x: Seq<char>| #[trigger] names_view(r@).contains(x) ==> names_view(names@).subrange(0, i as int).contains(x),
        decreases names@.len() - i,
    {
        let mut is_par = false;
        let mut j: usize = 0;
        while j < pars.len()
            invariant
                j <= pars@.len(),
                i < names@.len(),
                is_par <==> exists|k: int| 0 <= k < j && #[trigger] pars@[k] is IdExpr && pars@[k]->ident@ == names@[i as int]@,
            decreases pars@.len() - j,
        {
            match &pars[j] {
                Expr::IdExpr { ident } => {
                    if *ident == names[i] {
                        is_par = true;
                    }
                },
                _ => {},
            }
            j = j + 1;
        }
        let ghost before = names_view(r@);
        let ghost x = names@[i as int]@;
        let ghost pre = names_view(names@).subrange(0, i as int);
        proof {
            assert(names_view(names@).subrange(0, i + 1) =~= pre.push(x));
            pre.lemma_push_to_set_commute(x);
            assert(!pre.contains(x)) by {
                if pre.contains(x) {
                    let k = choose|k: int| 0 <= k < pre.len() && pre[k] == x;
                    assert(names_view(names@)[k] == names_view(names@)[i as int]);
                }
            }
        }
        if !is_par {
            r.push(names[i].clone());
            proof {
                assert(names_view(r@) =~= before.push(x));
                before.lemma_push_to_set_commute(x);
                assert(!before.contains(x));
                assert(names_view(r@).to_set() =~= pre.push(x).to_set().difference(par_names(pars@)));
            }
        } else {
            proof {
                assert(par_names(pars@).contains(x));
                assert(names_view(r@).to_set() =~= pre.push(x).to_set().difference(par_names(pars@)));
            }
        }
        proof {
            assert forall|y: Seq<char>| #[trigger] names_view(r@).contains(y) implies names_view(names@).subrange(0, i + 1).contains(y) by {
                if before.contains(y) {
                    let k = choose|k: int| 0 <= k < pre.len() && pre[k] == y;
                    assert(names_view(names@).subrange(0, i + 1)[k] == y);
                } else {
                    assert(y == x);
                    assert(names_view(names@).subrange(0, i + 1)[i as int] == y);
                }
            }
        }
        i = i + 1;
    }
    proof {
        assert(names_view(names@).subrange(0, names@.len() as int) =~= names_view(names@));
    }
    r
}

/// Adds to `names` the names of `expr` (see `names_after`).
#[verifier::loop_isolation(false)]
fn compute_names_contained(names: &mut Vec<String>, expr: &Expr)
    requires
        collectable(*expr),
        names_view(old(names)@).no_duplicates(),
    ensures
        names_view(final(names)@).no_duplicates(),
        names_view(final(names)@).to_set() == names_after(names_view(old(names)@).to_set(), *expr),
    decreases expr,
{
    let ghost o0 = names_view(names@).to_set();
    match expr {
        Expr::IdExpr { ident } => {
            add_name(names, ident);
        },
        Expr::IntConst { .. } | Expr::BoolConst { .. } => {},
        Expr::Action { stmt } => {
            let sgls = match stmt {
                Stmt::Stmt { sgl_stmts } => sgl_stmts,
            };
            let ghost sv = sgls@;
            let mut i: usize = 0;
            proof {
                assert(sv.subrange(0, sv.len() as int) =~= sv);
            }
            while i < sgls.len()
                invariant
                    i <= sgls@.len(),
                    sv == sgls@,
                    names_view(names@).no_duplicates(),
                    sgls_names_after(o0, sv) == sgls_names_after(names_view(names@).to_set(), sv.subrange(i as int, sv.len() as int)),
                    sgls_collectable(sv.subrange(i as int, sv.len() as int)),
                decreases sgls@.len() - i,
            {
                let ghost sub = sv.subrange(i as int, sv.len() as int);
                proof {
                    assert(sub[0] == sgls@[i as int]);
                    assert(sub.subrange(1, sub.len() as int) =~= sv.subrange(i + 1, sv.len() as int));
                }
                match &sgls[i] {
                    SglStmt::Do { act } => {
                        proof {
                            assert(decreases_to!(*expr => act));
                        }
                        compute_names_contained(names, act);
                    },
                    SglStmt::Ass { dst: _, src } => {
                        proof {
                            assert(decreases_to!(*expr => src));
                        }
                        compute_names_contained(names, src);
                    },
                }
                i = i + 1;
            }
            proof {
                assert(sv.subrange(i as int, sv.len() as int).len() == 0);
            }
        },
        Expr::Member { .. } => {},
        Expr::Apply { fun, args } => {
            compute_names_contained(names, fun);
            let ghost o1 = names_view(names@).to_set();
            let ghost av = args@;
            let mut i: usize = 0;
            proof {
                assert(av.subrange(0, av.len() as int) =~= av);
            }
            while i < args.len()
                invariant
                    i <= args@.len(),
                    av == args@,
                    names_view(names@).no_duplicates(),
                    args_names_after(o1, av) == args_names_after(names_view(names@).to_set(), av.subrange(i as int, av.len() as int)),
                    args_collectable(av.subrange(i as int, av.len() as int)),
                decreases args@.len() - i,
            {
                let ghost sub = av.subrange(i as int, av.len() as int);
                proof {
                    assert(sub[0] == args@[i as int]);
                    assert(sub.subrange(1, sub.len() as int) =~= av.subrange(i + 1, av.len() as int));
                    assert(decreases_to!(*expr => args@[i as int]));
                }
                compute_names_contained(names, &args[i]);
                i = i + 1;
            }
            proof {
                assert(av.subrange(i as int, av.len() as int).len() == 0);
            }
        },
        Expr::BopExpr { opd1, opd2, bop: _ } => {
            compute_names_contained(names, opd1);
            compute_names_contained(names, opd2);
        },
        Expr::UopExpr { opd, uop: _ } => {
            compute_names_contained(names, opd);
        },
        Expr::IfExpr { cond, then, elze } => {
            compute_names_contained(names, cond);
            compute_names_contained(names, then);
            compute_names_contained(names, elze);
        },
        Expr::Lambda { pars, body } => {
            compute_names_contained(names, body);
            let mut collected: Vec<String> = Vec::new();
            std::mem::swap(&mut collected, names);
            *names = remove_pars(collected, pars);
        },
    }
}

impl Expr {
    /// The names the expression mentions, none of them twice (see
    /// `names_after`).
    pub fn names_contained(&self) -> (r: Vec<String>)
        requires
            collectable(*self),
        ensures
            names_view(r@).no_duplicates(),
            names_view(r@).to_set() == names_after(Set::empty(), *self),
    {
        let mut deps: Vec<String> = Vec::new();
        proof {
            assert(names_view(deps@) =~= Seq::<Seq<char>>::empty());
            assert(names_view(deps@).to_set() =~= Set::<Seq<char>>::empty());
        }
        compute_names_contained(&mut deps, self);
        deps
    }
}

} // verus!

verus! {

/// No parameter of a function is among the names collected once the
/// function is: whatever was collected before, and whatever its body
/// mentions, each parameter name is left out.
pub proof fn law_lambda_excludes_params(acc: Set<Seq<char>>, pars: Vec<Expr>, body: Box<Expr>, j: int)
    requires
        0 <= j < pars@.len(),
        pars@[j] is IdExpr,
    ensures
        !names_after(acc, Expr::Lambda { pars, body }).contains(pars@[j]->ident@),
{
    assert(par_names(pars@).contains(pars@[j]->ident@));
}

/// The names collected once a function is are among those collected once
/// its body is, and every such name that is not a parameter stays.
pub proof fn law_lambda_names_from_body(acc: Set<Seq<char>>, pars: Vec<Expr>, body: Box<Expr>, x: Seq<char>)
    ensures
        names_after(acc, Expr::Lambda { pars, body }).contains(x) ==> names_after(acc, *body).contains(x),
        names_after(acc, *body).contains(x) && (forall|j: int| 0 <= j < pars@.len() && #[trigger] pars@[j] is IdExpr
            ==> pars@[j]->ident@ != x) ==> names_after(acc, Expr::Lambda { pars, body }).contains(x),
{
}

/// A name mentioned on its own is collected, and adds nothing else; a
/// constant adds nothing.
pub proof fn law_name_collected(acc: Set<Seq<char>>, ident: String, x: Seq<char>, val: i32, b: bool)
    ensures
        names_after(acc, Expr::IdExpr { ident }).contains(x) <==> (acc.contains(x) || x == ident@),
        names_after(acc, Expr::IntConst { val }) == acc,
        names_after(acc, Expr::BoolConst { val: b }) == acc,
{
}

} // verus!
