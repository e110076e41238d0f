//! Abstract syntax of Meerkat programs: expressions, declarations,
//! services and tests.
use vstd::prelude::*;

pub mod display;
pub mod utils;

verus! {

/// Unary operators.
#[derive(Debug, Clone, Copy, PartialEq, Eq, Hash)]
pub enum UnOp {
    Neg,
    Not,
}

/// Binary operators.
#[derive(Debug, Clone, Copy, PartialEq, Eq, Hash)]
pub enum BinOp {
    Add,
    Sub,
    Mul,
    Div,
    Eq,
    Lt,
    Gt,
    And,
    Or,
}

/// An assignment `dest = src` inside an action.
#[derive(Debug, PartialEq, Eq, Hash)]
pub struct Assn {
    pub dest: String,
    pub src: Expr,
}

/// Expressions of the reactive lambda calculus.
#[derive(Debug, PartialEq, Eq, Hash)]
#[allow(inconsistent_fields)]
pub enum Expr {
    Number { val: i32 },
    Bool { val: bool },
    Variable { ident: String },
    Unop { op: UnOp, expr: Box<Expr> },
    Binop { op: BinOp, expr1: Box<Expr>, expr2: Box<Expr> },
    If { cond: Box<Expr>, expr1: Box<Expr>, expr2: Box<Expr> },
    Func { params: Vec<String>, body: Box<Expr> },
    FuncApply { func: Box<Expr>, args: Vec<Expr> },
    Action { assns: Vec<Assn> },
}

/// Declarations of a service.
#[derive(Debug, PartialEq, Eq, Hash)]
pub enum Decl {
    Import { srv_name: String },
    VarDecl { name: String, val: Expr },
    DefDecl { name: String, val: Expr, is_pub: bool },
    TableDecl { name: String, records: Vec<Record> },
}

/// A column of a table declaration.
#[derive(Debug, PartialEq, Eq, Hash)]
pub struct Record {
    pub name: String,
    pub type_: Type,
}

/// Column types.
#[derive(Debug, Clone, Copy, PartialEq, Eq, Hash)]
pub enum Type {
    String,
    Number,
    Bool,
}

/// A named service with its declarations.
#[derive(Debug, PartialEq, Eq, Hash)]
pub struct Service {
    pub name: String,
    pub decls: Vec<Decl>,
}

/// A test: a sequence of `do` and `assert` commands run against a service.
#[derive(Debug, PartialEq, Eq, Hash)]
pub struct Test {
    pub name: String,
    pub commands: Vec<ReplCmd>,
}

/// A whole program.
#[derive(Debug, PartialEq, Eq, Hash)]
pub struct Prog {
    pub services: Vec<Service>,
    pub tests: Vec<Test>,
}

/// Commands of a test.
#[derive(Debug, PartialEq, Eq, Hash)]
pub enum ReplCmd {
    Do(Expr),
    Assert(Expr),
}

/// The mathematical value of an expression: strings become character
/// sequences and vectors become sequences.
pub enum ExprV {
    Number { val: i32 },
    Bool { val: bool },
    Variable { ident: Seq<char> },
    Unop { op: UnOp, expr: Box<ExprV> },
    Binop { op: BinOp, expr1: Box<ExprV>, expr2: Box<ExprV> },
    If { cond: Box<ExprV>, expr1: Box<ExprV>, expr2: Box<ExprV> },
    Func { params: Seq<Seq<char>>, body: Box<ExprV> },
    FuncApply { func: Box<ExprV>, args: Seq<ExprV> },
    Action { assns: Seq<AssnV> },
}

/// The mathematical value of an assignment.
pub struct AssnV {
    pub dest: Seq<char>,
    pub src: ExprV,
}

/// The names of a list of strings.
pub open spec fn names_view(v: Seq<String>) -> Seq<Seq<char>> {
    v.map_values(|s: String| s@)
}

impl Expr {
    pub open spec fn view_rec(self) -> ExprV
        decreases self,
    {
        match self {
            Expr::Number { val } => ExprV::Number { val },
            Expr::Bool { val } => ExprV::Bool { val },
            Expr::Variable { ident } => ExprV::Variable { ident: ident@ },
            Expr::Unop { op, expr } => ExprV::Unop { op, expr: Box::new((*expr).view_rec()) },
            Expr::Binop { op, expr1, expr2 } => ExprV::Binop {
                op,
                expr1: Box::new((*expr1).view_rec()),
                expr2: Box::new((*expr2).view_rec()),
            },
            Expr::If { cond, expr1, expr2 } => ExprV::If {
                cond: Box::new((*cond).view_rec()),
                expr1: Box::new((*expr1).view_rec()),
                expr2: Box::new((*expr2).view_rec()),
            },
            Expr::Func { params, body } => ExprV::Func {
                params: names_view(params@),
                body: Box::new((*body).view_rec()),
            },
            Expr::FuncApply { func, args } => ExprV::FuncApply {
                func: Box::new((*func).view_rec()),
                args: Seq::new(args@.len(), |i: int|
                    if 0 <= i < args@.len() { args@[i].view_rec() } else { ExprV::Number { val: 0 } }),
            },
            Expr::Action { assns } => ExprV::Action {
                assns: Seq::new(assns@.len(), |i: int|
                    if 0 <= i < assns@.len() {
                        AssnV { dest: assns@[i].dest@, src: assns@[i].src.view_rec() }
                    } else {
                        AssnV { dest: Seq::empty(), src: ExprV::Number { val: 0 } }
                    }),
            },
        }
    }
}

/// The values of a list of expressions.
pub open spec fn exprs_view(s: Seq<Expr>) -> Seq<ExprV> {
    s.map_values(|x: Expr| x@)
}

/// The values of a list of assignments.
pub open spec fn assns_view(s: Seq<Assn>) -> Seq<AssnV> {
    s.map_values(|a: Assn| AssnV { dest: a.dest@, src: a.src@ })
}

/// The value of an application is made of the values of its parts.
pub proof fn lemma_apply_view(func: Box<Expr>, args: Vec<Expr>)
    ensures
        (Expr::FuncApply { func, args })@ == (ExprV::FuncApply {
            func: Box::new((*func)@),
            args: exprs_view(args@),
        }),
{
    assert((Expr::FuncApply { func, args })@->FuncApply_args =~= exprs_view(args@));
}

/// The value of an action is made of the values of its assignments.
pub proof fn lemma_action_view(assns: Vec<Assn>)
    ensures
        (Expr::Action { assns })@ == (ExprV::Action { assns: assns_view(assns@) }),
{
    assert((Expr::Action { assns })@->assns =~= assns_view(assns@));
}

impl View for Expr {
    type V = ExprV;

    open spec fn view(&self) -> ExprV {
        self.view_rec()
    }
}

/// Copies a list of names.
pub fn clone_names(v: &Vec<String>) -> (r: Vec<String>)
    ensures
        r@ == v@,
{
    let mut r: Vec<String> = Vec::new();
    let mut i: usize = 0;
    while i < v.len()
        invariant
            i <= v.len(),
            r@ == v@.subrange(0, i as int),
        decreases v.len() - i,
    {
        r.push(v[i].clone());
        i = i + 1;
    }
    r
}

impl Expr {
    /// A copy of the expression, equal to it.
    #[verifier::loop_isolation(false)]
    pub fn copy(&self) -> (r: Expr)
        ensures
            r@ == self@,
        decreases self,
    {
        match self {
            Expr::Number { val } => Expr::Number { val: *val },
            Expr::Bool { val } => Expr::Bool { val: *val },
            Expr::Variable { ident } => Expr::Variable { ident: ident.clone() },
            Expr::Unop { op, expr } => Expr::Unop { op: *op, expr: Box::new((**expr).copy()) },
            Expr::Binop { op, expr1, expr2 } => Expr::Binop {
                op: *op,
                expr1: Box::new((**expr1).copy()),
                expr2: Box::new((**expr2).copy()),
            },
            Expr::If { cond, expr1, expr2 } => Expr::If {
                cond: Box::new((**cond).copy()),
                expr1: Box::new((**expr1).copy()),
                expr2: Box::new((**expr2).copy()),
            },
            Expr::Func { params, body } => Expr::Func {
                params: clone_names(params),
                body: Box::new((**body).copy()),
            },
            Expr::FuncApply { func, args } => {
                let f = (**func).copy();
                let mut new_args: Vec<Expr> = Vec::new();
                let mut i: usize = 0;
                while i < args.len()
                    invariant
                        i <= args.len(),
                        forall|j: int| 0 <= j < i ==> new_args@[j]@ == (#[trigger] args@[j])@,
                        new_args@.len() == i,
                    decreases args.len() - i,
                {
                    proof {
                        assert(decreases_to!(*self => args@[i as int]));
                    }
                    new_args.push(args[i].copy());
                    i = i + 1;
                }
                let r = Expr::FuncApply { func: Box::new(f), args: new_args };
                assert(r@->FuncApply_args =~= self@->FuncApply_args);
                r
            },
            Expr::Action { assns } => {
                let mut new_assns: Vec<Assn> = Vec::new();
                let mut i: usize = 0;
                while i < assns.len()
                    invariant
                        i <= assns.len(),
                        forall|j: int| 0 <= j < i ==> new_assns@[j].dest@ == #[trigger] assns@[j].dest@ && new_assns@[j].src@ == assns@[j].src@,
                        new_assns@.len() == i,
                    decreases assns.len() - i,
                {
                    let a = &assns[i];
                    proof {
                        assert(decreases_to!(*self => assns@[i as int].src));
                    }
                    new_assns.push(Assn { dest: a.dest.clone(), src: a.src.copy() });
                    i = i + 1;
                }
                let r = Expr::Action { assns: new_assns };
                assert(r@->assns =~= self@->assns);
                r
            },
        }
    }
}

} // verus!
