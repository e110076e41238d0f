//! Rendering of expressions and declarations as text.
use vstd::prelude::*;
use vstd::string::*;

use crate::ast::{Assn, AssnV, BinOp, Decl, Expr, ExprV, UnOp};
use crate::util::{debug_quoted, debug_string, i32_to_string, int_decimal, push_str};

verus! {

/// The symbol of a unary operator.
pub open spec fn unop_symbol(op: UnOp) -> Seq<char> {
    match op {
        UnOp::Neg => "-"@,
        UnOp::Not => "!"@,
    }
}

/// The symbol of a binary operator.
pub open spec fn binop_symbol(op: BinOp) -> Seq<char> {
    match op {
        BinOp::Add => "+"@,
        BinOp::Sub => "-"@,
        BinOp::Mul => "*"@,
        BinOp::Div => "/"@,
        BinOp::Eq => "=="@,
        BinOp::Lt => "<"@,
        BinOp::Gt => ">"@,
        BinOp::And => "&&"@,
        BinOp::Or => "||"@,
    }
}

/// The name of a unary operator, as its debug form shows it.
pub open spec fn unop_name(op: UnOp) -> Seq<char> {
    match op {
        UnOp::Neg => "Neg"@,
        UnOp::Not => "Not"@,
    }
}

/// The name of a binary operator, as its debug form shows it.
pub open spec fn binop_name(op: BinOp) -> Seq<char> {
    match op {
        BinOp::Add => "Add"@,
        BinOp::Sub => "Sub"@,
        BinOp::Mul => "Mul"@,
        BinOp::Div => "Div"@,
        BinOp::Eq => "Eq"@,
        BinOp::Lt => "Lt"@,
        BinOp::Gt => "Gt"@,
        BinOp::And => "And"@,
        BinOp::Or => "Or"@,
    }
}

/// The names joined by `sep`.
pub open spec fn join_names(names: Seq<Seq<char>>, sep: Seq<char>) -> Seq<char>
    decreases names.len(),
{
    if names.len() == 0 {
        Seq::empty()
    } else if names.len() == 1 {
        names[0]
    } else {
        join_names(names.drop_last(), sep) + sep + names.last()
    }
}

/// The text of an expression.
pub open spec fn expr_text(e: ExprV) -> Seq<char>
    decreases e, 0nat,
{
    match e {
        ExprV::Number { val } => int_decimal(val as int),
        ExprV::Bool { val } => if val { "true"@ } else { "false"@ },
        ExprV::Variable { ident } => ident,
        ExprV::Unop { op, expr } => unop_symbol(op) + expr_text(*expr),
        ExprV::Binop { op, expr1, expr2 } =>
            expr_text(*expr1) + " "@ + binop_symbol(op) + " "@ + expr_text(*expr2),
        ExprV::If { cond, expr1, expr2 } =>
            "if "@ + expr_text(*cond) + " then "@ + expr_text(*expr1) + " else "@ + expr_text(*expr2),
        ExprV::Func { params, body } =>
            "fn("@ + join_names(params, ","@) + ")["@ + expr_text(*body) + "]"@,
        ExprV::FuncApply { func, args } =>
            expr_text(*func) + "("@ + args_text(args, args.len()) + ")"@,
        ExprV::Action { assns } =>
            "Action("@ + debug_quoted(assns_text(assns, assns.len())) + ")"@,
    }
}

/// The texts of the first `n` arguments, joined by `", "`.
pub open spec fn args_text(args: Seq<ExprV>, n: nat) -> Seq<char>
    decreases args, n,
{
    if n == 0 || n > args.len() {
        Seq::empty()
    } else if n == 1 {
        expr_text(args[0])
    } else {
        args_text(args, (n - 1) as nat) + ", "@ + expr_text(args[n - 1])
    }
}

/// The text of an assignment.
pub open spec fn assn_text(a: AssnV) -> Seq<char>
    decreases a, 0nat,
{
    a.dest + " = "@ + expr_text(a.src)
}

/// The texts of the first `n` assignments, joined by `", "`.
pub open spec fn assns_text(assns: Seq<AssnV>, n: nat) -> Seq<char>
    decreases assns, n,
{
    if n == 0 || n > assns.len() {
        Seq::empty()
    } else if n == 1 {
        assn_text(assns[0])
    } else {
        assns_text(assns, (n - 1) as nat) + ", "@ + assn_text(assns[n - 1])
    }
}

} // verus!

verus! {

/// The symbol of a unary operator.
pub fn unop_symbol_str(op: UnOp) -> (r: &'static str)
    ensures
        r@ == unop_symbol(op),
{
    match op {
        UnOp::Neg => "-",
        UnOp::Not => "!",
    }
}

/// The symbol of a binary operator.
pub fn binop_symbol_str(op: BinOp) -> (r: &'static str)
    ensures
        r@ == binop_symbol(op),
{
    match op {
        BinOp::Add => "+",
        BinOp::Sub => "-",
        BinOp::Mul => "*",
        BinOp::Div => "/",
        BinOp::Eq => "==",
        BinOp::Lt => "<",
        BinOp::Gt => ">",
        BinOp::And => "&&",
        BinOp::Or => "||",
    }
}

/// The debug name of a unary operator.
pub fn unop_name_str(op: UnOp) -> (r: &'static str)
    ensures
        r@ == unop_name(op),
{
    match op {
        UnOp::Neg => "Neg",
        UnOp::Not => "Not",
    }
}

/// The debug name of a binary operator.
pub fn binop_name_str(op: BinOp) -> (r: &'static str)
    ensures
        r@ == binop_name(op),
{
    match op {
        BinOp::Add => "Add",
        BinOp::Sub => "Sub",
        BinOp::Mul => "Mul",
        BinOp::Div => "Div",
        BinOp::Eq => "Eq",
        BinOp::Lt => "Lt",
        BinOp::Gt => "Gt",
        BinOp::And => "And",
        BinOp::Or => "Or",
    }
}

/// The names joined by `sep`.
pub fn join_strings(names: &Vec<String>, sep: &str) -> (r: String)
    ensures
        r@ == join_names(crate::ast::names_view(names@), sep@),
{
    let ghost nv = crate::ast::names_view(names@);
    let mut r = String::new();
    let mut i: usize = 0;
    while i < names.len()
        invariant
            i <= names.len(),
            nv == crate::ast::names_view(names@),
            r@ == join_names(nv.subrange(0, i as int), sep@),
        decreases names.len() - i,
    {
        proof {
            assert(nv.subrange(0, i + 1).drop_last() =~= nv.subrange(0, i as int));
        }
        if i > 0 {
            push_str(&mut r, sep);
        }
        push_str(&mut r, names[i].as_str());
        proof {
            if i == 0 {
                assert(r@ == nv.subrange(0, 1)[0]);
            }
        }
        i = i + 1;
    }
    proof {
        assert(nv.subrange(0, names@.len() as int) =~= nv);
    }
    r
}

impl Expr {
    /// The text of the expression, as `Display` renders it.
    #[verifier::loop_isolation(false)]
    pub fn text(&self) -> (r: String)
        ensures
            r@ == expr_text(self@),
        decreases self,
    {
        match self {
            Expr::Number { val } => i32_to_string(*val),
            Expr::Bool { val } => {
                if *val {
                    String::from_str("true")
                } else {
                    String::from_str("false")
                }
            },
            Expr::Variable { ident } => ident.clone(),
            Expr::Unop { op, expr } => {
                let mut r = String::from_str(unop_symbol_str(*op));
                let t = (**expr).text();
                push_str(&mut r, t.as_str());
                r
            },
            Expr::Binop { op, expr1, expr2 } => {
                let mut r = (**expr1).text();
                push_str(&mut r, " ");
                push_str(&mut r, binop_symbol_str(*op));
                push_str(&mut r, " ");
                let t = (**expr2).text();
                push_str(&mut r, t.as_str());
                r
            },
            Expr::If { cond, expr1, expr2 } => {
                let mut r = String::from_str("if ");
                let t = (**cond).text();
                push_str(&mut r, t.as_str());
                push_str(&mut r, " then ");
                let t = (**expr1).text();
                push_str(&mut r, t.as_str());
                push_str(&mut r, " else ");
                let t = (**expr2).text();
                push_str(&mut r, t.as_str());
                r
            },
            Expr::Func { params, body } => {
                let mut r = String::from_str("fn(");
                let t = join_strings(params, ",");
                push_str(&mut r, t.as_str());
                push_str(&mut r, ")[");
                let t = (**body).text();
                push_str(&mut r, t.as_str());
                push_str(&mut r, "]");
                r
            },
            Expr::FuncApply { func, args } => {
                let mut r = (**func).text();
                push_str(&mut r, "(");
                let ghost av = self@->FuncApply_args;
                let mut inner = String::new();
                let mut i: usize = 0;
                while i < args.len()
                    invariant
                        i <= args.len(),
                        av.len() == args@.len(),
                        inner@ == args_text(av, i as nat),
                    decreases args.len() - i,
                {
                    proof {
                        assert(decreases_to!(*self => args@[i as int]));
                        assert(av[i as int] == args@[i as int]@);
                    }
                    if i > 0 {
                        push_str(&mut inner, ", ");
                    }
                    let t = args[i].text();
                    push_str(&mut inner, t.as_str());
                    i = i + 1;
                }
                push_str(&mut r, inner.as_str());
                push_str(&mut r, ")");
                r
            },
            Expr::Action { assns } => {
                let ghost av = self@->assns;
                let mut inner = String::new();
                let mut i: usize = 0;
                while i < assns.len()
                    invariant
                        i <= assns.len(),
                        av.len() == assns@.len(),
                        inner@ == assns_text(av, i as nat),
                    decreases assns.len() - i,
                {
                    proof {
                        assert(decreases_to!(*self => assns@[i as int].src));
                        assert(av[i as int].dest == assns@[i as int].dest@);
                        assert(av[i as int].src == assns@[i as int].src@);
                    }
                    if i > 0 {
                        push_str(&mut inner, ", ");
                    }
                    let t = assns[i].text();
                    push_str(&mut inner, t.as_str());
                    i = i + 1;
                }
                let q = debug_string(inner.as_str());
                let mut r = String::from_str("Action(");
                push_str(&mut r, q.as_str());
                push_str(&mut r, ")");
                r
            },
        }
    }
}

impl Assn {
    /// The text of the assignment, as `Display` renders it.
    pub fn text(&self) -> (r: String)
        ensures
            r@ == assn_text(AssnV { dest: self.dest@, src: self.src@ }),
        decreases self,
    {
        let mut r = self.dest.clone();
        push_str(&mut r, " = ");
        proof {
            assert(decreases_to!(*self => self.src));
        }
        let t = self.src.text();
        push_str(&mut r, t.as_str());
        r
    }
}

/// The text of a declaration other than an import.
pub open spec fn decl_text(d: Decl) -> Seq<char> {
    match d {
        Decl::VarDecl { name, val } => "var "@ + name@ + " = "@ + expr_text(val@),
        Decl::DefDecl { name, val, is_pub } => if is_pub {
            "pub def "@ + name@ + " = "@ + expr_text(val@)
        } else {
            "def "@ + name@ + " = "@ + expr_text(val@)
        },
        Decl::TableDecl { name, .. } => "table "@ + name@ + " created"@,
        Decl::Import { .. } => Seq::empty(),
    }
}

impl Decl {
    /// The text of the declaration, as `Display` renders it; imports have
    /// none.
    pub fn text(&self) -> (r: String)
        requires
            !(self is Import),
        ensures
            r@ == decl_text(*self),
    {
        proof {
            reveal_strlit("var ");
            reveal_strlit(" = ");
            reveal_strlit("pub def ");
            reveal_strlit("def ");
            reveal_strlit("table ");
            reveal_strlit(" created");
        }
        match self {
            Decl::VarDecl { name, val } => {
                let mut r = String::from_str("var ");
                push_str(&mut r, name.as_str());
                push_str(&mut r, " = ");
                let t = val.text();
                push_str(&mut r, t.as_str());
                r
            },
            Decl::DefDecl { name, val, is_pub } => {
                let mut r = if *is_pub {
                    String::from_str("pub def ")
                } else {
                    String::from_str("def ")
                };
                push_str(&mut r, name.as_str());
                push_str(&mut r, " = ");
                let t = val.text();
                push_str(&mut r, t.as_str());
                r
            },
            Decl::TableDecl { name, .. } => {
                let mut r = String::from_str("table ");
                push_str(&mut r, name.as_str());
                push_str(&mut r, " created");
                r
            },
            Decl::Import { .. } => String::new(),
        }
    }
}

} // verus!

verus! {

/// A binary operation is written as its first operand, a space, the
/// operator's usual symbol, a space and its second operand: `a + b`,
/// `a - b`, `a * b`, `a / b`, `a == b`, `a < b`, `a > b`, `a && b`, `a || b`.
pub proof fn law_binop_text(op: BinOp, a: ExprV, b: ExprV)
    ensures
        expr_text(ExprV::Binop { op, expr1: Box::new(a), expr2: Box::new(b) }) == expr_text(a) + (match op {
            BinOp::Add => " + "@,
            BinOp::Sub => " - "@,
            BinOp::Mul => " * "@,
            BinOp::Div => " / "@,
            BinOp::Eq => " == "@,
            BinOp::Lt => " < "@,
            BinOp::Gt => " > "@,
            BinOp::And => " && "@,
            BinOp::Or => " || "@,
        }) + expr_text(b),
{
    reveal_strlit(" ");
    reveal_strlit("+");
    reveal_strlit("-");
    reveal_strlit("*");
    reveal_strlit("/");
    reveal_strlit("==");
    reveal_strlit("<");
    reveal_strlit(">");
    reveal_strlit("&&");
    reveal_strlit("||");
    reveal_strlit(" + ");
    reveal_strlit(" - ");
    reveal_strlit(" * ");
    reveal_strlit(" / ");
    reveal_strlit(" == ");
    reveal_strlit(" < ");
    reveal_strlit(" > ");
    reveal_strlit(" && ");
    reveal_strlit(" || ");
    let ta = expr_text(a);
    let tb = expr_text(b);
    let mid = " "@ + binop_symbol(op) + " "@;
    assert(ta + " "@ + binop_symbol(op) + " "@ + tb =~= ta + mid + tb);
    let lit = match op {
        BinOp::Add => " + "@,
        BinOp::Sub => " - "@,
        BinOp::Mul => " * "@,
        BinOp::Div => " / "@,
        BinOp::Eq => " == "@,
        BinOp::Lt => " < "@,
        BinOp::Gt => " > "@,
        BinOp::And => " && "@,
        BinOp::Or => " || "@,
    };
    assert(mid =~= lit);
}

/// A unary operation is written as the operator's symbol directly before
/// its operand: `-a`, `!a`.
pub proof fn law_unop_text(op: UnOp, a: ExprV)
    ensures
        expr_text(ExprV::Unop { op, expr: Box::new(a) }) == (match op {
            UnOp::Neg => "-"@,
            UnOp::Not => "!"@,
        }) + expr_text(a),
{
}

/// A conditional is written `if c then a else b`, and a boolean constant
/// as `true` or `false`.
pub proof fn law_if_and_bool_text(c: ExprV, a: ExprV, b: ExprV, v: bool)
    ensures
        expr_text(ExprV::If { cond: Box::new(c), expr1: Box::new(a), expr2: Box::new(b) }) == "if "@ + expr_text(c)
            + " then "@ + expr_text(a) + " else "@ + expr_text(b),
        expr_text(ExprV::Bool { val: v }) == (if v { "true"@ } else { "false"@ }),
{
}

/// A call is written as the function, then its arguments separated by
/// `", "` in round brackets; a function as `fn`, its parameters separated
/// by `","` in round brackets, then its body in square brackets.
pub proof fn law_call_and_function_text(f: ExprV, a: ExprV, b: ExprV, x: Seq<char>, y: Seq<char>, body: ExprV)
    ensures
        expr_text(ExprV::FuncApply { func: Box::new(f), args: seq![a, b] }) == expr_text(f) + "("@ + expr_text(a) + ", "@
            + expr_text(b) + ")"@,
        expr_text(ExprV::FuncApply { func: Box::new(f), args: seq![a] }) == expr_text(f) + "("@ + expr_text(a) + ")"@,
        expr_text(ExprV::Func { params: seq![x, y], body: Box::new(body) }) == "fn("@ + x + ","@ + y + ")["@ + expr_text(body)
            + "]"@,
{
    let args = seq![a, b];
    assert(args_text(args, 1) == expr_text(a));
    assert(args_text(args, 2) == args_text(args, 1) + ", "@ + expr_text(b));
    let one = seq![a];
    assert(one.len() == 1 && one[0] == a);
    assert(args_text(one, 1) == expr_text(a));
    let ps = seq![x, y];
    assert(ps.drop_last() =~= seq![x]);
    assert(join_names(ps.drop_last(), ","@) == x);
}

} // verus!
