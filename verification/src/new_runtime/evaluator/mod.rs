//! Evaluation of expressions against local bindings and reactive reads.
//!
//! Expressions are evaluated in place: a successful evaluation leaves the
//! value in the expression, a failed one leaves the expression as far as it
//! was evaluated. Locals (function parameters) live on a stack of frames;
//! any other variable is read from the reactives of the service.
use vstd::prelude::*;
use vstd::string::*;

use crate::ast::display::{binop_name, binop_name_str, expr_text, unop_name, unop_name_str};
use crate::ast::{exprs_view, names_view, Assn, AssnV, BinOp, Expr, ExprV, UnOp};
use crate::new_runtime::service::{ReactiveName, ReactiveRef};
use crate::util::{nat_decimal, push_str, usize_to_string};

verus! {

/// How deeply function applications may nest within one evaluation; an
/// evaluation that goes deeper ends with an error ("evaluation step limit
/// reached"). A recursive evaluator exhausts a thread's stack long before
/// this depth, so the bound only turns what would be a crash or an endless
/// evaluation into an error, and makes evaluation a total function.
pub const EVAL_FUEL: u64 = 100000;

/// Errors of a full evaluation.
#[derive(Debug)]
pub enum EvalError {
    UnknownVariable(String),
    Other(String),
}

/// Errors of a partial evaluation, which may stop at a reactive whose value
/// is not available yet.
#[derive(Debug)]
pub enum PartialEvalError {
    UnknownVariable(String),
    UnresolvedVariable(String),
    Other(String),
}

/// A local variable bound to a value.
#[derive(Debug)]
pub struct Binding {
    pub name: String,
    pub value: Expr,
}

/// A reactive that an evaluation may read, with its value when it has one.
#[derive(Debug)]
pub struct ReadEntry {
    pub reactive: ReactiveRef,
    pub value: Option<Expr>,
}

/// The reactives an evaluation may read. When `exhaustive`, a read of a
/// reactive without an entry has no result at all; otherwise it is a
/// missing value like an entry without one.
#[derive(Debug)]
pub struct Reads {
    pub entries: Vec<ReadEntry>,
    pub exhaustive: bool,
}

/// The evaluator: a stack of frames of local bindings.
pub struct Evaluator {
    context_stack: Vec<Vec<Binding>>,
}

/// A frame of local bindings, as names and values.
pub type FrameV = Seq<(Seq<char>, ExprV)>;

/// Reads available to an evaluation: reactives with their values when they
/// have one, and whether the list is exhaustive.
pub type ReadsV = (Seq<((u64, Seq<char>), Option<ExprV>)>, bool);

pub open spec fn opt_view(o: Option<Expr>) -> Option<ExprV> {
    match o {
        Some(e) => Some(e@),
        None => None,
    }
}

pub open spec fn frame_view(f: Seq<Binding>) -> FrameV {
    f.map_values(|b: Binding| (b.name@, b.value@))
}

pub open spec fn entries_view(r: Seq<ReadEntry>) -> Seq<((u64, Seq<char>), Option<ExprV>)> {
    r.map_values(|e: ReadEntry| (e.reactive@, opt_view(e.value)))
}

impl View for Reads {
    type V = ReadsV;

    open spec fn view(&self) -> ReadsV {
        (entries_view(self.entries@), self.exhaustive)
    }
}

impl View for Evaluator {
    type V = Seq<FrameV>;

    closed spec fn view(&self) -> Seq<FrameV> {
        self.context_stack@.map_values(|f: Vec<Binding>| frame_view(f@))
    }
}

/// The value bound to `x` in a frame; a later binding hides an earlier one.
pub open spec fn frame_lookup(f: FrameV, x: Seq<char>) -> Option<ExprV>
    decreases f.len(),
{
    if f.len() == 0 {
        None
    } else if f.last().0 == x {
        Some(f.last().1)
    } else {
        frame_lookup(f.drop_last(), x)
    }
}

/// The value bound to `x` in the innermost frame that binds it.
pub open spec fn stack_lookup(s: Seq<FrameV>, x: Seq<char>) -> Option<ExprV>
    decreases s.len(),
{
    if s.len() == 0 {
        None
    } else {
        match frame_lookup(s.last(), x) {
            Some(v) => Some(v),
            None => stack_lookup(s.drop_last(), x),
        }
    }
}

/// The first read entry for reactive `key`: its value when it has one.
pub open spec fn read_lookup(reads: Seq<((u64, Seq<char>), Option<ExprV>)>, key: (u64, Seq<char>)) -> Option<Option<ExprV>>
    decreases reads.len(),
{
    if reads.len() == 0 {
        None
    } else if reads[0].0 == key {
        Some(reads[0].1)
    } else {
        read_lookup(reads.drop_first(), key)
    }
}

/// The frame binding each parameter to the value at the same position.
pub open spec fn param_frame(params: Seq<Seq<char>>, vals: Seq<ExprV>) -> FrameV {
    Seq::new(params.len(), |j: int| (params[j], vals[j]))
}

/// How an evaluation ends.
pub enum EvalOutcome {
    /// The expression is now a value.
    Done,
    /// A reactive that the reads do not hold (full evaluation).
    Unknown(Seq<char>),
    /// A reactive that the reads do not hold yet (partial evaluation).
    Unresolved(Seq<char>),
    /// An evaluation error with its message.
    Failed(Seq<char>),
    /// An operation that has no result: arithmetic overflow, division by
    /// zero, or an operator applied to values of the wrong kind.
    Stuck,
}

/// The result of a unary operator on a value; `None` where it has none.
pub open spec fn unop_value(op: UnOp, v: ExprV) -> Option<ExprV> {
    match (op, v) {
        (UnOp::Neg, ExprV::Number { val }) =>
            if val == i32::MIN { None } else { Some(ExprV::Number { val: (-val) as i32 }) },
        (UnOp::Not, ExprV::Bool { val }) => Some(ExprV::Bool { val: !val }),
        _ => None,
    }
}

/// Whether `x` fits in an `i32`.
pub open spec fn fits_i32(x: int) -> bool {
    i32::MIN <= x <= i32::MAX
}

/// Integer division rounding toward zero.
pub open spec fn trunc_div(a: int, b: int) -> int {
    if a >= 0 { a / b } else { -((-a) / b) }
}

/// The result of a binary operator on two values; `None` where it has none.
pub open spec fn binop_value(op: BinOp, a: ExprV, b: ExprV) -> Option<ExprV> {
    match (a, b) {
        (ExprV::Number { val: x }, ExprV::Number { val: y }) => match op {
            BinOp::Add => if fits_i32(x + y) { Some(ExprV::Number { val: (x + y) as i32 }) } else { None },
            BinOp::Sub => if fits_i32(x - y) { Some(ExprV::Number { val: (x - y) as i32 }) } else { None },
            BinOp::Mul => if fits_i32(x * y) { Some(ExprV::Number { val: (x * y) as i32 }) } else { None },
            BinOp::Div => if y == 0 || (x == i32::MIN && y == -1) { None }
                else { Some(ExprV::Number { val: trunc_div(x as int, y as int) as i32 }) },
            BinOp::Eq => Some(ExprV::Bool { val: x == y }),
            BinOp::Lt => Some(ExprV::Bool { val: x < y }),
            BinOp::Gt => Some(ExprV::Bool { val: x > y }),
            _ => None,
        },
        (ExprV::Bool { val: x }, ExprV::Bool { val: y }) => match op {
            BinOp::And => Some(ExprV::Bool { val: x && y }),
            BinOp::Or => Some(ExprV::Bool { val: x || y }),
            _ => None,
        },
        _ => None,
    }
}

/// Whether an expression is a number or a boolean.
pub open spec fn is_scalar(v: ExprV) -> bool {
    v is Number || v is Bool
}

pub open spec fn unop_message(op: UnOp, v: ExprV) -> Seq<char> {
    "unary operator "@ + unop_name(op) + " cannot be applied to "@ + expr_text(v)
}

pub open spec fn binop_message(op: BinOp, a: ExprV, b: ExprV) -> Seq<char> {
    "binary operator "@ + binop_name(op) + " cannot be applied to "@ + expr_text(a) + " and "@
        + expr_text(b)
}

pub open spec fn if_message(c: ExprV) -> Seq<char> {
    "if condition must be a boolean, got "@ + expr_text(c)
}

pub open spec fn arity_message(expected: nat, got: nat) -> Seq<char> {
    "function expects "@ + nat_decimal(expected) + " arguments, got "@ + nat_decimal(got)
}

pub open spec fn non_function_message() -> Seq<char> {
    "cannot apply non-function"@
}

pub open spec fn fuel_message() -> Seq<char> {
    "evaluation step limit reached"@
}

/// The outcome reported when a reactive read finds no value.
pub open spec fn missing_read(partial: bool, x: Seq<char>) -> EvalOutcome {
    if partial { EvalOutcome::Unresolved(x) } else { EvalOutcome::Unknown(x) }
}

/// Evaluation of `e` under the frames `stack`: the expression it leaves and
/// how it ends. `fuel` bounds the number of function applications; `partial`
/// selects how a missing reactive value is reported.
pub open spec fn eval(
    stack: Seq<FrameV>,
    e: ExprV,
    service: u64,
    reads: ReadsV,
    fuel: nat,
    partial: bool,
) -> (ExprV, EvalOutcome)
    decreases fuel, e, 0nat,
{
    match e {
        ExprV::Number { .. } => (e, EvalOutcome::Done),
        ExprV::Bool { .. } => (e, EvalOutcome::Done),
        ExprV::Func { .. } => (e, EvalOutcome::Done),
        ExprV::Action { .. } => (e, EvalOutcome::Done),
        ExprV::Variable { ident } => match stack_lookup(stack, ident) {
            Some(v) => (v, EvalOutcome::Done),
            None => match read_lookup(reads.0, (service, ident)) {
                Some(Some(v)) => (v, EvalOutcome::Done),
                Some(None) => (e, missing_read(partial, ident)),
                None => if reads.1 { (e, EvalOutcome::Stuck) } else { (e, missing_read(partial, ident)) },
            },
        },
        ExprV::Unop { op, expr } => {
            let (v, r) = eval(stack, *expr, service, reads, fuel, partial);
            let partly = ExprV::Unop { op, expr: Box::new(v) };
            if !(r is Done) {
                (partly, r)
            } else if is_scalar(v) {
                match unop_value(op, v) {
                    Some(w) => (w, EvalOutcome::Done),
                    None => (partly, EvalOutcome::Stuck),
                }
            } else {
                (partly, EvalOutcome::Failed(unop_message(op, v)))
            }
        },
        ExprV::Binop { op, expr1, expr2 } => {
            let (v1, r1) = eval(stack, *expr1, service, reads, fuel, partial);
            if !(r1 is Done) {
                (ExprV::Binop { op, expr1: Box::new(v1), expr2 }, r1)
            } else {
                let (v2, r2) = eval(stack, *expr2, service, reads, fuel, partial);
                let partly = ExprV::Binop { op, expr1: Box::new(v1), expr2: Box::new(v2) };
                if !(r2 is Done) {
                    (partly, r2)
                } else if (v1 is Number && v2 is Number) || (v1 is Bool && v2 is Bool) {
                    match binop_value(op, v1, v2) {
                        Some(w) => (w, EvalOutcome::Done),
                        None => (partly, EvalOutcome::Stuck),
                    }
                } else {
                    (partly, EvalOutcome::Failed(binop_message(op, v1, v2)))
                }
            }
        },
        ExprV::If { cond, expr1, expr2 } => {
            let (c, r) = eval(stack, *cond, service, reads, fuel, partial);
            if !(r is Done) {
                (ExprV::If { cond: Box::new(c), expr1, expr2 }, r)
            } else {
                match c {
                    ExprV::Bool { val } => if val {
                        eval(stack, *expr1, service, reads, fuel, partial)
                    } else {
                        eval(stack, *expr2, service, reads, fuel, partial)
                    },
                    _ => (ExprV::If { cond: Box::new(c), expr1, expr2 }, EvalOutcome::Failed(if_message(c))),
                }
            }
        },
        ExprV::FuncApply { func, args } => {
            let (f, r) = eval(stack, *func, service, reads, fuel, partial);
            if !(r is Done) {
                (ExprV::FuncApply { func: Box::new(f), args }, r)
            } else {
                match f {
                    ExprV::Func { params, body } => {
                        if params.len() != args.len() {
                            (ExprV::FuncApply { func: Box::new(f), args },
                                EvalOutcome::Failed(arity_message(params.len(), args.len())))
                        } else {
                            let (vals, ra) = eval_args(stack, args, service, reads, fuel, partial);
                            if !(ra is Done) {
                                (ExprV::FuncApply { func: Box::new(f), args: vals }, ra)
                            } else if fuel == 0 {
                                (ExprV::FuncApply { func: Box::new(f), args: vals },
                                    EvalOutcome::Failed(fuel_message()))
                            } else {
                                eval(stack.push(param_frame(params, vals)), *body, service, reads,
                                    (fuel - 1) as nat, partial)
                            }
                        }
                    },
                    _ => (ExprV::FuncApply { func: Box::new(f), args },
                        EvalOutcome::Failed(non_function_message())),
                }
            }
        },
    }
}

/// Evaluation of a list of arguments from left to right, stopping at the
/// first that does not evaluate to a value; the arguments after it are left
/// as they were.
pub open spec fn eval_args(
    stack: Seq<FrameV>,
    args: Seq<ExprV>,
    service: u64,
    reads: ReadsV,
    fuel: nat,
    partial: bool,
) -> (Seq<ExprV>, EvalOutcome)
    decreases fuel, args, 1nat,
{
    if args.len() == 0 {
        (Seq::empty(), EvalOutcome::Done)
    } else {
        let (v, r) = eval(stack, args[0], service, reads, fuel, partial);
        let rest = args.subrange(1, args.len() as int);
        if !(r is Done) {
            (seq![v] + rest, r)
        } else {
            let (vs, r2) = eval_args(stack, rest, service, reads, fuel, partial);
            (seq![v] + vs, r2)
        }
    }
}

} // verus!

verus! {

/// The quotient of two numbers fits in an `i32` unless the division is
/// by zero or of `i32::MIN` by `-1`.
pub proof fn lemma_trunc_div_fits(x: i32, y: i32)
    requires
        y != 0,
        !(x == i32::MIN && y == -1),
    ensures
        fits_i32(trunc_div(x as int, y as int)),
{
    let a: int = if x >= 0 { x as int } else { -(x as int) };
    let b: int = y as int;
    assert(0 <= a / b <= a || (b < 0 && -a <= a / b <= 0)) by (nonlinear_arith)
        requires
            a >= 0,
            b != 0,
    {
        if b > 0 {
            assert(a / b <= a);
        }
    }
    if x < 0 && (b >= 2 || b <= -2) {
        assert(-(a / 2) <= a / b <= a / 2) by (nonlinear_arith)
            requires
                a >= 0,
                b >= 2 || b <= -2,
        {
        }
    }
}

} // verus!

verus! {

/// The outcome that a result of evaluation reports.
pub open spec fn partial_outcome(r: Result<(), PartialEvalError>) -> EvalOutcome {
    match r {
        Ok(()) => EvalOutcome::Done,
        Err(PartialEvalError::UnknownVariable(s)) => EvalOutcome::Unknown(s@),
        Err(PartialEvalError::UnresolvedVariable(s)) => EvalOutcome::Unresolved(s@),
        Err(PartialEvalError::Other(s)) => EvalOutcome::Failed(s@),
    }
}

/// The outcome that a result of full evaluation reports.
pub open spec fn full_outcome(r: Result<(), EvalError>) -> EvalOutcome {
    match r {
        Ok(()) => EvalOutcome::Done,
        Err(EvalError::UnknownVariable(s)) => EvalOutcome::Unknown(s@),
        Err(EvalError::Other(s)) => EvalOutcome::Failed(s@),
    }
}

/// The first entry of `reads` for reactive `(service, name)`.
pub fn find_read<'a>(reads: &'a Reads, service: u64, name: &String) -> (r: Option<&'a ReadEntry>)
    ensures
        match r {
            Some(e) => read_lookup(reads@.0, (service, name@)) == Some(opt_view(e.value)),
            None => read_lookup(reads@.0, (service, name@)) is None,
        },
{
    let ghost rv = reads@.0;
    proof {
        assert(rv.subrange(0, rv.len() as int) =~= rv);
    }
    let mut i: usize = 0;
    while i < reads.entries.len()
        invariant
            i <= reads.entries.len(),
            rv == reads@.0,
            read_lookup(rv, (service, name@)) == read_lookup(rv.subrange(i as int, rv.len() as int), (service, name@)),
        decreases reads.entries.len() - i,
    {
        let e = &reads.entries[i];
        proof {
            let sub = rv.subrange(i as int, rv.len() as int);
            assert(sub[0] == (e.reactive@, opt_view(e.value)));
            assert(sub.drop_first() =~= rv.subrange(i + 1, rv.len() as int));
        }
        if e.reactive.service == service && e.reactive.name.0 == *name {
            return Some(e);
        }
        i = i + 1;
    }
    proof {
        assert(rv.subrange(i as int, rv.len() as int).len() == 0);
    }
    None
}

/// The value bound to `x` in a frame, searching from its last binding.
fn frame_find<'a>(frame: &'a Vec<Binding>, x: &String) -> (r: Option<&'a Expr>)
    ensures
        match r {
            Some(v) => frame_lookup(frame_view(frame@), x@) == Some(v@),
            None => frame_lookup(frame_view(frame@), x@) is None,
        },
{
    let ghost fv = frame_view(frame@);
    proof {
        assert(fv.subrange(0, fv.len() as int) =~= fv);
    }
    let mut i: usize = frame.len();
    while i > 0
        invariant
            i <= frame.len(),
            fv == frame_view(frame@),
            frame_lookup(fv, x@) == frame_lookup(fv.subrange(0, i as int), x@),
        decreases i,
    {
        let b = &frame[i - 1];
        proof {
            let sub = fv.subrange(0, i as int);
            assert(sub.last() == (b.name@, b.value@));
            assert(sub.drop_last() =~= fv.subrange(0, i - 1));
        }
        if b.name == *x {
            return Some(&b.value);
        }
        i = i - 1;
    }
    proof {
        assert(fv.subrange(0, 0).len() == 0);
    }
    None
}

} // verus!

verus! {

impl Evaluator {
    /// An evaluator with no local bindings.
    pub fn new() -> (r: Evaluator)
        ensures
            r@ == Seq::<FrameV>::empty(),
    {
        let r = Evaluator { context_stack: Vec::new() };
        assert(r@ =~= Seq::<FrameV>::empty());
        r
    }

    fn push_context(&mut self, context: Vec<Binding>)
        ensures
            final(self)@ == old(self)@.push(frame_view(context@)),
    {
        self.context_stack.push(context);
        assert(self@ =~= old(self)@.push(frame_view(context@)));
    }

    fn pop_context(&mut self)
        ensures
            final(self)@ == if old(self)@.len() > 0 { old(self)@.drop_last() } else { old(self)@ },
    {
        let _ = self.context_stack.pop();
        assert(self@ =~= (if old(self)@.len() > 0 { old(self)@.drop_last() } else { old(self)@ }));
    }

    /// The value that the innermost frame binding `ident` gives it.
    fn lookup_local(&self, ident: &String) -> (r: Option<&Expr>)
        ensures
            match r {
                Some(v) => stack_lookup(self@, ident@) == Some(v@),
                None => stack_lookup(self@, ident@) is None,
            },
    {
        let ghost sv = self@;
        proof {
            assert(sv.subrange(0, sv.len() as int) =~= sv);
        }
        let mut i: usize = self.context_stack.len();
        while i > 0
            invariant
                i <= self.context_stack.len(),
                sv == self@,
                stack_lookup(sv, ident@) == stack_lookup(sv.subrange(0, i as int), ident@),
            decreases i,
        {
            let frame = &self.context_stack[i - 1];
            proof {
                let sub = sv.subrange(0, i as int);
                assert(sub.last() == frame_view(frame@));
                assert(sub.drop_last() =~= sv.subrange(0, i - 1));
            }
            if let Some(v) = frame_find(frame, ident) {
                return Some(v);
            }
            i = i - 1;
        }
        None
    }
}

/// The result of a unary operator on a number or boolean: `Ok(None)` where
/// the operator has no result (negating the least number, or an operator
/// of the other kind).
fn calc_unop(op: UnOp, expr: &Expr) -> (r: Result<Option<Expr>, String>)
    ensures
        is_scalar(expr@) ==> (r matches Ok(o) && match o {
            Some(v) => unop_value(op, expr@) == Some(v@),
            None => unop_value(op, expr@) is None,
        }),
        !is_scalar(expr@) ==> (r matches Err(m)
            && m@ == "calculate unop expression cannot be applied to "@ + expr_text(expr@)),
{
    match expr {
        Expr::Number { val } => {
            match op {
                UnOp::Neg => if *val == i32::MIN { Ok(None) } else { Ok(Some(Expr::Number { val: -*val })) },
                UnOp::Not => Ok(None),
            }
        },
        Expr::Bool { val } => {
            match op {
                UnOp::Not => Ok(Some(Expr::Bool { val: !*val })),
                UnOp::Neg => Ok(None),
            }
        },
        _ => {
            let mut m = String::from_str("calculate unop expression cannot be applied to ");
            let t = expr.text();
            crate::util::push_str(&mut m, t.as_str());
            Err(m)
        },
    }
}

/// `x` as an `i32`, when it fits.
fn narrow(x: i64) -> (r: Option<i32>)
    ensures
        match r {
            Some(v) => fits_i32(x as int) && v == x,
            None => !fits_i32(x as int),
        },
{
    if x < -2147483648i64 || x > 2147483647i64 {
        None
    } else {
        Some(x as i32)
    }
}

/// The result of a binary operator on two numbers or two booleans:
/// `Ok(None)` where the operator has no result (overflow, division by zero,
/// or an operator of the other kind).
fn calc_binop(op: BinOp, expr1: &Expr, expr2: &Expr) -> (r: Result<Option<Expr>, String>)
    ensures
        ((expr1@ is Number && expr2@ is Number) || (expr1@ is Bool && expr2@ is Bool))
            ==> (r matches Ok(o) && match o {
            Some(v) => binop_value(op, expr1@, expr2@) == Some(v@),
            None => binop_value(op, expr1@, expr2@) is None,
        }),
        !((expr1@ is Number && expr2@ is Number) || (expr1@ is Bool && expr2@ is Bool))
            ==> (r matches Err(m) && m@ == "calculate binop expression cannot be applied on "@
            + expr_text(expr1@) + " "@ + binop_name(op) + " "@ + expr_text(expr2@)),
{
    match (expr1, expr2) {
        (Expr::Number { val: x }, Expr::Number { val: y }) => {
            let (x, y) = (*x, *y);
            match op {
                BinOp::Add => match narrow(x as i64 + y as i64) {
                    Some(v) => Ok(Some(Expr::Number { val: v })),
                    None => Ok(None),
                },
                BinOp::Sub => match narrow(x as i64 - y as i64) {
                    Some(v) => Ok(Some(Expr::Number { val: v })),
                    None => Ok(None),
                },
                BinOp::Mul => {
                    assert(-4611686018427387904 <= (x as int) * (y as int) <= 4611686018427387904) by (nonlinear_arith)
                        requires
                            -2147483648 <= x <= 2147483647,
                            -2147483648 <= y <= 2147483647,
                    ;
                    match narrow(x as i64 * y as i64) {
                        Some(v) => Ok(Some(Expr::Number { val: v })),
                        None => Ok(None),
                    }
                },
                BinOp::Div => {
                    if y == 0 || (x == i32::MIN && y == -1) {
                        Ok(None)
                    } else {
                        proof {
                            lemma_trunc_div_fits(x, y);
                        }
                        Ok(Some(Expr::Number { val: x / y }))
                    }
                },
                BinOp::Eq => Ok(Some(Expr::Bool { val: x == y })),
                BinOp::Lt => Ok(Some(Expr::Bool { val: x < y })),
                BinOp::Gt => Ok(Some(Expr::Bool { val: x > y })),
                BinOp::And | BinOp::Or => Ok(None),
            }
        },
        (Expr::Bool { val: x }, Expr::Bool { val: y }) => {
            let (x, y) = (*x, *y);
            match op {
                BinOp::And => Ok(Some(Expr::Bool { val: x && y })),
                BinOp::Or => Ok(Some(Expr::Bool { val: x || y })),
                _ => Ok(None),
            }
        },
        _ => {
            let mut m = String::from_str("calculate binop expression cannot be applied on ");
            let t = expr1.text();
            crate::util::push_str(&mut m, t.as_str());
            crate::util::push_str(&mut m, " ");
            crate::util::push_str(&mut m, binop_name_str(op));
            crate::util::push_str(&mut m, " ");
            let t = expr2.text();
            crate::util::push_str(&mut m, t.as_str());
            Err(m)
        },
    }
}

} // verus!

verus! {

/// Whether an expression is a number or a boolean.
fn is_scalar_expr(e: &Expr) -> (r: bool)
    ensures
        r == is_scalar(e@),
{
    match e {
        Expr::Number { .. } | Expr::Bool { .. } => true,
        _ => false,
    }
}

/// The frame binding each parameter to the value at the same position.
fn make_frame(params: &Vec<String>, vals: &Vec<Expr>) -> (r: Vec<Binding>)
    requires
        params.len() == vals.len(),
    ensures
        frame_view(r@) == param_frame(names_view(params@), exprs_view(vals@)),
{
    let mut r: Vec<Binding> = Vec::new();
    let mut i: usize = 0;
    while i < params.len()
        invariant
            i <= params.len(),
            params.len() == vals.len(),
            r@.len() == i,
            forall|j: int| 0 <= j < i ==> (#[trigger] r@[j]).name@ == params@[j]@ && r@[j].value@ == vals@[j]@,
        decreases params.len() - i,
    {
        r.push(Binding { name: params[i].clone(), value: vals[i].copy() });
        i = i + 1;
    }
    assert(frame_view(r@) =~= param_frame(names_view(params@), exprs_view(vals@)));
    r
}

/// How an evaluation step stops early: with an error, or at an operation
/// that has no result.
pub enum Halt {
    Error(PartialEvalError),
    Stuck,
}

/// The outcome that a result of an evaluation step reports.
pub open spec fn halt_outcome(r: Result<(), Halt>) -> EvalOutcome {
    match r {
        Ok(()) => EvalOutcome::Done,
        Err(Halt::Error(e)) => partial_outcome(Err(e)),
        Err(Halt::Stuck) => EvalOutcome::Stuck,
    }
}

/// Whether `res` is what evaluating `e` gives: the expression left and the
/// outcome reported.
pub open spec fn evaluated(
    st: Seq<FrameV>,
    e: ExprV,
    service: u64,
    reads: ReadsV,
    fuel: nat,
    partial: bool,
    res: (Expr, Result<(), Halt>),
) -> bool {
    &&& res.0@ == eval(st, e, service, reads, fuel, partial).0
    &&& halt_outcome(res.1) == eval(st, e, service, reads, fuel, partial).1
}

/// Whether evaluating `e` never performs an operation without a result.
pub open spec fn never_stuck(st: Seq<FrameV>, e: ExprV, service: u64, reads: ReadsV, fuel: nat, partial: bool) -> bool {
    !(eval(st, e, service, reads, fuel, partial).1 is Stuck)
}

impl Evaluator {
    /// Evaluates `e`, giving back the expression it leaves and how it ended.
    fn eval_owned(
        &mut self,
        e: Expr,
        service: u64,
        reads: &Reads,
        fuel: u64,
        partial: bool,
    ) -> (res: (Expr, Result<(), Halt>))
        ensures
            final(self)@ == old(self)@,
            evaluated(old(self)@, e@, service, reads@, fuel as nat, partial, res),
        decreases fuel, e, 1nat,
    {
        match e {
            Expr::Number { val } => (Expr::Number { val }, Ok(())),
            Expr::Bool { val } => (Expr::Bool { val }, Ok(())),
            Expr::Func { params, body } => (Expr::Func { params, body }, Ok(())),
            Expr::Action { assns } => (Expr::Action { assns }, Ok(())),
            Expr::Variable { ident } => self.eval_variable(ident, service, reads, fuel, partial),
            Expr::Unop { op, expr } => self.eval_unop(op, expr, service, reads, fuel, partial),
            Expr::Binop { op, expr1, expr2 } => self.eval_binop(op, expr1, expr2, service, reads, fuel, partial),
            Expr::If { cond, expr1, expr2 } => self.eval_if(cond, expr1, expr2, service, reads, fuel, partial),
            Expr::FuncApply { func, args } => self.eval_apply(func, args, service, reads, fuel, partial),
        }
    }

    fn eval_variable(
        &self,
        ident: String,
        service: u64,
        reads: &Reads,
        fuel: u64,
        partial: bool,
    ) -> (res: (Expr, Result<(), Halt>))
        ensures
            evaluated(self@, (Expr::Variable { ident })@, service, reads@, fuel as nat, partial, res),
    {
        match self.lookup_local(&ident) {
            Some(v) => (v.copy(), Ok(())),
            None => {
                let found = find_read(reads, service, &ident);
                match found {
                    Some(ReadEntry { value: Some(v), .. }) => (v.copy(), Ok(())),
                    None if reads.exhaustive => (Expr::Variable { ident }, Err(Halt::Stuck)),
                    _ => {
                        let err = if partial {
                            PartialEvalError::UnresolvedVariable(ident.clone())
                        } else {
                            PartialEvalError::UnknownVariable(ident.clone())
                        };
                        (Expr::Variable { ident }, Err(Halt::Error(err)))
                    },
                }
            },
        }
    }

    fn eval_unop(
        &mut self,
        op: UnOp,
        expr: Box<Expr>,
        service: u64,
        reads: &Reads,
        fuel: u64,
        partial: bool,
    ) -> (res: (Expr, Result<(), Halt>))
        ensures
            final(self)@ == old(self)@,
            evaluated(old(self)@, (Expr::Unop { op, expr })@, service, reads@, fuel as nat, partial, res),
        decreases fuel, (Expr::Unop { op, expr }), 0nat,
    {
        proof {
            let whole = Expr::Unop { op, expr };
            assert(decreases_to!(whole => whole->Unop_expr));
        }
        let (v, r) = self.eval_owned(*expr, service, reads, fuel, partial);
        if r.is_err() {
            return (Expr::Unop { op, expr: Box::new(v) }, r);
        }
        if is_scalar_expr(&v) {
            match calc_unop(op, &v) {
                Ok(Some(w)) => (w, Ok(())),
                Ok(None) => (Expr::Unop { op, expr: Box::new(v) }, Err(Halt::Stuck)),
                Err(m) => (Expr::Unop { op, expr: Box::new(v) }, Err(Halt::Error(PartialEvalError::Other(m)))),
            }
        } else {
            let mut m = String::from_str("unary operator ");
            push_str(&mut m, unop_name_str(op));
            push_str(&mut m, " cannot be applied to ");
            let t = v.text();
            push_str(&mut m, t.as_str());
            (Expr::Unop { op, expr: Box::new(v) }, Err(Halt::Error(PartialEvalError::Other(m))))
        }
    }

    fn eval_binop(
        &mut self,
        op: BinOp,
        expr1: Box<Expr>,
        expr2: Box<Expr>,
        service: u64,
        reads: &Reads,
        fuel: u64,
        partial: bool,
    ) -> (res: (Expr, Result<(), Halt>))
        ensures
            final(self)@ == old(self)@,
            evaluated(old(self)@, (Expr::Binop { op, expr1, expr2 })@, service, reads@, fuel as nat, partial, res),
        decreases fuel, (Expr::Binop { op, expr1, expr2 }), 0nat,
    {
        proof {
            let whole = Expr::Binop { op, expr1, expr2 };
            assert(decreases_to!(whole => whole->Binop_expr1));
            assert(decreases_to!(whole => whole->Binop_expr2));
        }
        let ghost e2 = expr2;
        let (v1, r1) = self.eval_owned(*expr1, service, reads, fuel, partial);
        if r1.is_err() {
            return (Expr::Binop { op, expr1: Box::new(v1), expr2 }, r1);
        }
        let (v2, r2) = self.eval_owned(*expr2, service, reads, fuel, partial);
        if r2.is_err() {
            return (Expr::Binop { op, expr1: Box::new(v1), expr2: Box::new(v2) }, r2);
        }
        let both = match (&v1, &v2) {
            (Expr::Number { .. }, Expr::Number { .. }) => true,
            (Expr::Bool { .. }, Expr::Bool { .. }) => true,
            _ => false,
        };
        if both {
            match calc_binop(op, &v1, &v2) {
                Ok(Some(w)) => (w, Ok(())),
                Ok(None) => (Expr::Binop { op, expr1: Box::new(v1), expr2: Box::new(v2) }, Err(Halt::Stuck)),
                Err(m) => (
                    Expr::Binop { op, expr1: Box::new(v1), expr2: Box::new(v2) },
                    Err(Halt::Error(PartialEvalError::Other(m))),
                ),
            }
        } else {
            let mut m = String::from_str("binary operator ");
            push_str(&mut m, binop_name_str(op));
            push_str(&mut m, " cannot be applied to ");
            let t = v1.text();
            push_str(&mut m, t.as_str());
            push_str(&mut m, " and ");
            let t = v2.text();
            push_str(&mut m, t.as_str());
            (Expr::Binop { op, expr1: Box::new(v1), expr2: Box::new(v2) }, Err(Halt::Error(PartialEvalError::Other(m))))
        }
    }

    fn eval_if(
        &mut self,
        cond: Box<Expr>,
        expr1: Box<Expr>,
        expr2: Box<Expr>,
        service: u64,
        reads: &Reads,
        fuel: u64,
        partial: bool,
    ) -> (res: (Expr, Result<(), Halt>))
        ensures
            final(self)@ == old(self)@,
            evaluated(old(self)@, (Expr::If { cond, expr1, expr2 })@, service, reads@, fuel as nat, partial, res),
        decreases fuel, (Expr::If { cond, expr1, expr2 }), 0nat,
    {
        proof {
            let whole = Expr::If { cond, expr1, expr2 };
            assert(decreases_to!(whole => whole->If_cond));
            assert(decreases_to!(whole => whole->If_expr1));
            assert(decreases_to!(whole => whole->If_expr2));
        }
        let (c, r) = self.eval_owned(*cond, service, reads, fuel, partial);
        if r.is_err() {
            return (Expr::If { cond: Box::new(c), expr1, expr2 }, r);
        }
        match c {
            Expr::Bool { val } => {
                if val {
                    self.eval_owned(*expr1, service, reads, fuel, partial)
                } else {
                    self.eval_owned(*expr2, service, reads, fuel, partial)
                }
            },
            _ => {
                let mut m = String::from_str("if condition must be a boolean, got ");
                let t = c.text();
                push_str(&mut m, t.as_str());
                (Expr::If { cond: Box::new(c), expr1, expr2 }, Err(Halt::Error(PartialEvalError::Other(m))))
            },
        }
    }

    #[verifier::loop_isolation(false)]
    fn eval_apply(
        &mut self,
        func: Box<Expr>,
        args: Vec<Expr>,
        service: u64,
        reads: &Reads,
        fuel: u64,
        partial: bool,
    ) -> (res: (Expr, Result<(), Halt>))
        ensures
            final(self)@ == old(self)@,
            evaluated(old(self)@, (Expr::FuncApply { func, args })@, service, reads@, fuel as nat, partial, res),
        decreases fuel, (Expr::FuncApply { func, args }), 0nat,
    {
        let ghost e_in = Expr::FuncApply { func, args };
        let ghost st = self@;
        let ghost rv = reads@;
        proof {
            crate::ast::lemma_apply_view(func, args);
        }
        let (f, r) = self.eval_owned(*func, service, reads, fuel, partial);
        if r.is_err() {
            proof {
                crate::ast::lemma_apply_view(Box::new(f), args);
            }
            return (Expr::FuncApply { func: Box::new(f), args }, r);
        }
        match f {
            Expr::Func { params, body } => {
                if params.len() != args.len() {
                    let mut m = String::from_str("function expects ");
                    let t = usize_to_string(params.len());
                    push_str(&mut m, t.as_str());
                    push_str(&mut m, " arguments, got ");
                    let t = usize_to_string(args.len());
                    push_str(&mut m, t.as_str());
                    let fe = Box::new(Expr::Func { params, body });
                    proof {
                        crate::ast::lemma_apply_view(fe, args);
                    }
                    return (Expr::FuncApply { func: fe, args }, Err(Halt::Error(PartialEvalError::Other(m))));
                }
                let ghost args0 = args;
                let ghost a0v = exprs_view(args0@);
                let mut rest = args;
                let mut done: Vec<Expr> = Vec::new();
                proof {
                    assert(args0@.subrange(0, args0@.len() as int) =~= args0@);
                    assert(exprs_view(done@) + a0v =~= a0v);
                }
                while rest.len() > 0
                    invariant
                        self@ == st,
                        st == old(self)@,
                        rv == reads@,
                        done@.len() <= args0@.len(),
                        rest@ == args0@.subrange(done@.len() as int, args0@.len() as int),
                        e_in == (Expr::FuncApply { func, args: args0 }),
                        eval_args(st, a0v, service, rv, fuel as nat, partial).0
                            == exprs_view(done@) + eval_args(st, exprs_view(rest@), service, rv, fuel as nat, partial).0,
                        eval_args(st, a0v, service, rv, fuel as nat, partial).1
                            == eval_args(st, exprs_view(rest@), service, rv, fuel as nat, partial).1,
                    decreases rest.len(),
                {
                    let ghost rest_v = exprs_view(rest@);
                    let ghost k = done@.len();
                    let a = rest.remove(0);
                    proof {
                        assert(a == args0@[k as int]);
                        assert(e_in->FuncApply_args == args0);
                        assert(decreases_to!(e_in => e_in->FuncApply_args));
                        assert(decreases_to!(args0 => args0@));
                        assert(decreases_to!(args0@ => args0@[k as int]));
                        assert(decreases_to!(e_in => a));
                        assert(rest_v[0] == a@);
                        assert(exprs_view(rest@) =~= rest_v.subrange(1, rest_v.len() as int));
                    }
                    let (v, ra) = self.eval_owned(a, service, reads, fuel, partial);
                    let ghost d0 = done@;
                    done.push(v);
                    if ra.is_err() {
                        let mut rest2 = rest;
                        done.append(&mut rest2);
                        let fe = Box::new(Expr::Func { params, body });
                        proof {
                            let tail = rest_v.subrange(1, rest_v.len() as int);
                            assert(eval_args(st, rest_v, service, rv, fuel as nat, partial).0 == seq![v@] + tail);
                            assert(exprs_view(done@) =~= exprs_view(d0) + (seq![v@] + tail));
                            crate::ast::lemma_apply_view(fe, done);
                        }
                        return (Expr::FuncApply { func: fe, args: done }, ra);
                    }
                    proof {
                        assert(exprs_view(done@) =~= exprs_view(d0) + seq![v@]);
                    }
                }
                proof {
                    assert(exprs_view(done@) + Seq::<ExprV>::empty() =~= exprs_view(done@));
                }
                if fuel == 0 {
                    let fe = Box::new(Expr::Func { params, body });
                    proof {
                        crate::ast::lemma_apply_view(fe, done);
                    }
                    return (
                        Expr::FuncApply { func: fe, args: done },
                        Err(Halt::Error(PartialEvalError::Other(String::from_str("evaluation step limit reached")))),
                    );
                }
                let frame = make_frame(&params, &done);
                self.push_context(frame);
                let b = (*body).copy();
                let (v, r2) = self.eval_owned(b, service, reads, fuel - 1, partial);
                self.pop_context();
                (v, r2)
            },
            _ => {
                proof {
                    crate::ast::lemma_apply_view(Box::new(f), args);
                }
                (
                    Expr::FuncApply { func: Box::new(f), args },
                    Err(Halt::Error(PartialEvalError::Other(String::from_str("cannot apply non-function")))),
                )
            },
        }
    }
}

} // verus!

verus! {

/// A full evaluation never reports an unresolved reactive, and a partial
/// one never reports an unknown one.
pub proof fn lemma_missing_kind(st: Seq<FrameV>, e: ExprV, service: u64, reads: ReadsV, fuel: nat, partial: bool)
    ensures
        partial ==> !(eval(st, e, service, reads, fuel, partial).1 is Unknown),
        !partial ==> !(eval(st, e, service, reads, fuel, partial).1 is Unresolved),
    decreases fuel, e, 0nat,
{
    match e {
        ExprV::Unop { op, expr } => {
            lemma_missing_kind(st, *expr, service, reads, fuel, partial);
        },
        ExprV::Binop { op, expr1, expr2 } => {
            lemma_missing_kind(st, *expr1, service, reads, fuel, partial);
            lemma_missing_kind(st, *expr2, service, reads, fuel, partial);
        },
        ExprV::If { cond, expr1, expr2 } => {
            lemma_missing_kind(st, *cond, service, reads, fuel, partial);
            lemma_missing_kind(st, *expr1, service, reads, fuel, partial);
            lemma_missing_kind(st, *expr2, service, reads, fuel, partial);
        },
        ExprV::FuncApply { func, args } => {
            lemma_missing_kind(st, *func, service, reads, fuel, partial);
            let (f, r) = eval(st, *func, service, reads, fuel, partial);
            if r is Done {
                if let ExprV::Func { params, body } = f {
                    if params.len() == args.len() {
                        lemma_missing_kind_args(st, args, service, reads, fuel, partial);
                        let (vals, ra) = eval_args(st, args, service, reads, fuel, partial);
                        if ra is Done && fuel > 0 {
                            lemma_missing_kind(st.push(param_frame(params, vals)), *body, service, reads,
                                (fuel - 1) as nat, partial);
                        }
                    }
                }
            }
        },
        _ => {},
    }
}

pub proof fn lemma_missing_kind_args(st: Seq<FrameV>, args: Seq<ExprV>, service: u64, reads: ReadsV, fuel: nat, partial: bool)
    ensures
        partial ==> !(eval_args(st, args, service, reads, fuel, partial).1 is Unknown),
        !partial ==> !(eval_args(st, args, service, reads, fuel, partial).1 is Unresolved),
    decreases fuel, args, 1nat,
{
    if args.len() > 0 {
        lemma_missing_kind(st, args[0], service, reads, fuel, partial);
        lemma_missing_kind_args(st, args.subrange(1, args.len() as int), service, reads, fuel, partial);
    }
}

impl Evaluator {
    /// Evaluates `expr` in place, or gives `None` where the evaluation meets
    /// an operation without a result (see `EvalOutcome::Stuck`). A reactive
    /// with no value among `reads` is an unknown variable.
    pub fn eval_expr_checked(&mut self, expr: &mut Expr, service: u64, reads: &Reads) -> (r: Option<Result<(), EvalError>>)
        ensures
            final(self)@ == old(self)@,
            final(expr)@ == eval(old(self)@, old(expr)@, service, reads@, EVAL_FUEL as nat, false).0,
            match r {
                Some(res) => full_outcome(res) == eval(old(self)@, old(expr)@, service, reads@, EVAL_FUEL as nat, false).1,
                None => eval(old(self)@, old(expr)@, service, reads@, EVAL_FUEL as nat, false).1 is Stuck,
            },
    {
        proof {
            lemma_missing_kind(self@, expr@, service, reads@, EVAL_FUEL as nat, false);
        }
        let mut e = Expr::Number { val: 0 };
        std::mem::swap(&mut e, expr);
        let (v, r) = self.eval_owned(e, service, reads, EVAL_FUEL, false);
        *expr = v;
        match r {
            Ok(()) => Some(Ok(())),
            Err(Halt::Error(PartialEvalError::UnknownVariable(s))) => Some(Err(EvalError::UnknownVariable(s))),
            Err(Halt::Error(PartialEvalError::UnresolvedVariable(s))) => Some(Err(EvalError::Other(s))),
            Err(Halt::Error(PartialEvalError::Other(s))) => Some(Err(EvalError::Other(s))),
            Err(Halt::Stuck) => None,
        }
    }

    /// Evaluates `expr` in place. A reactive with no value among `reads` is
    /// an unknown variable.
    pub fn eval_expr(&mut self, expr: &mut Expr, service: u64, reads: &Reads) -> (r: Result<(), EvalError>)
        requires
            never_stuck(old(self)@, old(expr)@, service, reads@, EVAL_FUEL as nat, false),
        ensures
            final(self)@ == old(self)@,
            final(expr)@ == eval(old(self)@, old(expr)@, service, reads@, EVAL_FUEL as nat, false).0,
            full_outcome(r) == eval(old(self)@, old(expr)@, service, reads@, EVAL_FUEL as nat, false).1,
    {
        match self.eval_expr_checked(expr, service, reads) {
            Some(r) => r,
            None => vstd::pervasive::unreached(),
        }
    }

    /// Evaluates `expr` in place as far as the available reads allow, or
    /// gives `None` where the evaluation meets an operation without a result.
    pub fn partial_eval_checked(&mut self, expr: &mut Expr, service: u64, reads: &Reads) -> (r: Option<
        Result<(), PartialEvalError>,
    >)
        ensures
            final(self)@ == old(self)@,
            final(expr)@ == eval(old(self)@, old(expr)@, service, reads@, EVAL_FUEL as nat, true).0,
            match r {
                Some(res) => partial_outcome(res) == eval(old(self)@, old(expr)@, service, reads@, EVAL_FUEL as nat, true).1,
                None => eval(old(self)@, old(expr)@, service, reads@, EVAL_FUEL as nat, true).1 is Stuck,
            },
    {
        let mut e = Expr::Number { val: 0 };
        std::mem::swap(&mut e, expr);
        let (v, r) = self.eval_owned(e, service, reads, EVAL_FUEL, true);
        *expr = v;
        match r {
            Ok(()) => Some(Ok(())),
            Err(Halt::Error(err)) => Some(Err(err)),
            Err(Halt::Stuck) => None,
        }
    }

    /// Evaluates `expr` in place as far as the available reads allow. A
    /// reactive with no value among `reads` stops the evaluation as an
    /// unresolved variable.
    pub fn partial_eval_rec(&mut self, expr: &mut Expr, service: u64, reads: &Reads) -> (r: Result<(), PartialEvalError>)
        requires
            never_stuck(old(self)@, old(expr)@, service, reads@, EVAL_FUEL as nat, true),
        ensures
            final(self)@ == old(self)@,
            final(expr)@ == eval(old(self)@, old(expr)@, service, reads@, EVAL_FUEL as nat, true).0,
            partial_outcome(r) == eval(old(self)@, old(expr)@, service, reads@, EVAL_FUEL as nat, true).1,
    {
        match self.partial_eval_checked(expr, service, reads) {
            Some(r) => r,
            None => vstd::pervasive::unreached(),
        }
    }

    /// Evaluates `expr` in place as far as the available reads allow:
    /// `Ok(true)` when it is now a value, `Ok(false)` when a reactive value
    /// is still missing.
    pub fn partial_eval(&mut self, expr: &mut Expr, service: u64, reads: &Reads) -> (r: Result<bool, EvalError>)
        requires
            never_stuck(old(self)@, old(expr)@, service, reads@, EVAL_FUEL as nat, true),
        ensures
            final(self)@ == old(self)@,
            final(expr)@ == eval(old(self)@, old(expr)@, service, reads@, EVAL_FUEL as nat, true).0,
            ({
                let out = eval(old(self)@, old(expr)@, service, reads@, EVAL_FUEL as nat, true).1;
                match r {
                    Ok(b) => b == (out is Done) && (out is Done || out is Unresolved),
                    Err(EvalError::UnknownVariable(s)) => out == EvalOutcome::Unknown(s@),
                    Err(EvalError::Other(s)) => out == EvalOutcome::Failed(s@),
                }
            }),
    {
        match self.partial_eval_rec(expr, service, reads) {
            Ok(_) => Ok(true),
            Err(PartialEvalError::UnresolvedVariable(_)) => Ok(false),
            Err(PartialEvalError::UnknownVariable(msg)) => Err(EvalError::UnknownVariable(msg)),
            Err(PartialEvalError::Other(msg)) => Err(EvalError::Other(msg)),
        }
    }
}

} // verus!

verus! {

/// The frame that binds each parameter to a placeholder value.
pub open spec fn placeholder_frame(params: Seq<Seq<char>>) -> FrameV {
    Seq::new(params.len(), |j: int| (params[j], ExprV::Number { val: 0 }))
}

/// The reactives that `e` reads, in the order they are met: every variable
/// that no enclosing frame or function parameter binds.
pub open spec fn reads_of(st: Seq<FrameV>, e: ExprV, service: u64) -> Seq<(u64, Seq<char>)>
    decreases e, 0nat,
{
    match e {
        ExprV::Number { .. } => Seq::empty(),
        ExprV::Bool { .. } => Seq::empty(),
        ExprV::Variable { ident } => if stack_lookup(st, ident) is None {
            seq![(service, ident)]
        } else {
            Seq::empty()
        },
        ExprV::Unop { op, expr } => reads_of(st, *expr, service),
        ExprV::Binop { op, expr1, expr2 } => reads_of(st, *expr1, service) + reads_of(st, *expr2, service),
        ExprV::If { cond, expr1, expr2 } =>
            reads_of(st, *cond, service) + reads_of(st, *expr1, service) + reads_of(st, *expr2, service),
        ExprV::Func { params, body } => reads_of(st.push(placeholder_frame(params)), *body, service),
        ExprV::FuncApply { func, args } => args_reads(st, args, service) + reads_of(st, *func, service),
        ExprV::Action { assns } => assns_reads(st, assns, service),
    }
}

/// The reactives that a list of expressions reads, one after the other.
pub open spec fn args_reads(st: Seq<FrameV>, args: Seq<ExprV>, service: u64) -> Seq<(u64, Seq<char>)>
    decreases args, 1nat,
{
    if args.len() == 0 {
        Seq::empty()
    } else {
        reads_of(st, args[0], service) + args_reads(st, args.subrange(1, args.len() as int), service)
    }
}

/// The reactives that the right-hand sides of assignments read.
pub open spec fn assns_reads(st: Seq<FrameV>, assns: Seq<AssnV>, service: u64) -> Seq<(u64, Seq<char>)>
    decreases assns, 1nat,
{
    if assns.len() == 0 {
        Seq::empty()
    } else {
        reads_of(st, assns[0].src, service) + assns_reads(st, assns.subrange(1, assns.len() as int), service)
    }
}

/// The elements of two sequences one after the other are those of either.
proof fn lemma_concat_contains(a: Seq<(u64, Seq<char>)>, b: Seq<(u64, Seq<char>)>)
    ensures
        forall|k: (u64, Seq<char>)| #[trigger] (a + b).contains(k) <==> a.contains(k) || b.contains(k),
{
    assert forall|k: (u64, Seq<char>)| #[trigger] (a + b).contains(k) <==> a.contains(k) || b.contains(k) by {
        if (a + b).contains(k) {
            let i = choose|i: int| 0 <= i < (a + b).len() && (a + b)[i] == k;
            if i >= a.len() {
                assert(b[i - a.len()] == k);
            }
        }
        if a.contains(k) {
            let i = choose|i: int| 0 <= i < a.len() && a[i] == k;
            assert((a + b)[i] == k);
        }
        if b.contains(k) {
            let i = choose|i: int| 0 <= i < b.len() && b[i] == k;
            assert((a + b)[a.len() + i] == k);
        }
    }
}

/// A frame of placeholders binds exactly the parameters.
proof fn lemma_placeholder_lookup(params: Seq<Seq<char>>, x: Seq<char>)
    ensures
        frame_lookup(placeholder_frame(params), x) is None <==> !params.contains(x),
    decreases params.len(),
{
    let f = placeholder_frame(params);
    if params.len() > 0 {
        let rest = params.drop_last();
        assert(f.drop_last() =~= placeholder_frame(rest));
        lemma_placeholder_lookup(rest, x);
        if params.contains(x) && params.last() != x {
            let j = choose|j: int| 0 <= j < params.len() && params[j] == x;
            assert(rest[j] == x);
        }
        if rest.contains(x) {
            let j = choose|j: int| 0 <= j < rest.len() && rest[j] == x;
            assert(params[j] == x);
        }
    }
}

/// With `bound` the names that the frames of `st` bind, an expression reads
/// exactly its free variables, each as a reactive of `service`.
pub proof fn lemma_reads_are_free_vars(st: Seq<FrameV>, bound: Set<Seq<char>>, e: ExprV, service: u64)
    requires
        forall|x: Seq<char>| stack_lookup(st, x) is None <==> !bound.contains(x),
    ensures
        forall|k: (u64, Seq<char>)| #[trigger] reads_of(st, e, service).contains(k) <==> (k.0 == service
            && crate::ast::utils::free_vars(e, bound).contains(k.1)),
    decreases e, 0nat,
{
    match e {
        ExprV::Variable { ident } => {
            if stack_lookup(st, ident) is None {
                assert(reads_of(st, e, service) == seq![(service, ident)]);
                assert forall|k: (u64, Seq<char>)| #[trigger] reads_of(st, e, service).contains(k) <==> (k.0 == service
                    && crate::ast::utils::free_vars(e, bound).contains(k.1)) by {
                    if k == (service, ident) {
                        assert(reads_of(st, e, service)[0] == k);
                    }
                }
            }
        },
        ExprV::Unop { op, expr } => {
            lemma_reads_are_free_vars(st, bound, *expr, service);
            assert(reads_of(st, e, service) == reads_of(st, *expr, service));
        },
        ExprV::Binop { op, expr1, expr2 } => {
            lemma_reads_are_free_vars(st, bound, *expr1, service);
            lemma_reads_are_free_vars(st, bound, *expr2, service);
            lemma_concat_contains(reads_of(st, *expr1, service), reads_of(st, *expr2, service));
        },
        ExprV::If { cond, expr1, expr2 } => {
            lemma_reads_are_free_vars(st, bound, *cond, service);
            lemma_reads_are_free_vars(st, bound, *expr1, service);
            lemma_reads_are_free_vars(st, bound, *expr2, service);
            lemma_concat_contains(reads_of(st, *cond, service), reads_of(st, *expr1, service));
            lemma_concat_contains(reads_of(st, *cond, service) + reads_of(st, *expr1, service), reads_of(st, *expr2, service));
        },
        ExprV::Func { params, body } => {
            let st2 = st.push(placeholder_frame(params));
            let b2 = bound + params.to_set();
            assert forall|x: Seq<char>| stack_lookup(st2, x) is None <==> !b2.contains(x) by {
                law_lookup_push_pop(st, placeholder_frame(params), x);
                lemma_placeholder_lookup(params, x);
            }
            lemma_reads_are_free_vars(st2, b2, *body, service);
            assert(reads_of(st, e, service) == reads_of(st2, *body, service));
        },
        ExprV::FuncApply { func, args } => {
            lemma_args_reads_are_free_vars(st, bound, args, service);
            lemma_reads_are_free_vars(st, bound, *func, service);
            lemma_concat_contains(args_reads(st, args, service), reads_of(st, *func, service));
        },
        ExprV::Action { assns } => {
            lemma_assns_reads_are_free_vars(st, bound, assns, service);
            assert(reads_of(st, e, service) == assns_reads(st, assns, service));
        },
        _ => {},
    }
}

/// A list of expressions reads exactly its free variables.
pub proof fn lemma_args_reads_are_free_vars(st: Seq<FrameV>, bound: Set<Seq<char>>, args: Seq<ExprV>, service: u64)
    requires
        forall|x: Seq<char>| stack_lookup(st, x) is None <==> !bound.contains(x),
    ensures
        forall|k: (u64, Seq<char>)| #[trigger] args_reads(st, args, service).contains(k) <==> (k.0 == service
            && crate::ast::utils::args_free_vars(args, bound).contains(k.1)),
    decreases args, 1nat,
{
    if args.len() > 0 {
        let rest = args.subrange(1, args.len() as int);
        lemma_reads_are_free_vars(st, bound, args[0], service);
        lemma_args_reads_are_free_vars(st, bound, rest, service);
        lemma_concat_contains(reads_of(st, args[0], service), args_reads(st, rest, service));
    }
}

/// The right-hand sides of assignments read exactly their free variables.
pub proof fn lemma_assns_reads_are_free_vars(st: Seq<FrameV>, bound: Set<Seq<char>>, assns: Seq<AssnV>, service: u64)
    requires
        forall|x: Seq<char>| stack_lookup(st, x) is None <==> !bound.contains(x),
    ensures
        forall|k: (u64, Seq<char>)| #[trigger] assns_reads(st, assns, service).contains(k) <==> (k.0 == service
            && crate::ast::utils::assns_free_vars(assns, bound).contains(k.1)),
    decreases assns, 1nat,
{
    if assns.len() > 0 {
        let rest = assns.subrange(1, assns.len() as int);
        lemma_reads_are_free_vars(st, bound, assns[0].src, service);
        lemma_assns_reads_are_free_vars(st, bound, rest, service);
        lemma_concat_contains(reads_of(st, assns[0].src, service), assns_reads(st, rest, service));
    }
}

/// What `visit_reads` reports of an expression, from an evaluator with no
/// local bindings, is what `free_var` gives with nothing bound: each free
/// variable, as a reactive of `service`.
pub proof fn law_reads_are_free_vars(e: ExprV, service: u64)
    ensures
        forall|k: (u64, Seq<char>)| #[trigger] reads_of(Seq::empty(), e, service).contains(k) <==> (k.0 == service
            && crate::ast::utils::free_vars(e, Set::empty()).contains(k.1)),
{
    lemma_reads_are_free_vars(Seq::empty(), Set::empty(), e, service);
}

/// An expression reads only reactives of the service it is evaluated for.
pub proof fn lemma_reads_local(st: Seq<FrameV>, e: ExprV, service: u64)
    ensures
        forall|i: int| 0 <= i < reads_of(st, e, service).len() ==> (#[trigger] reads_of(st, e, service)[i]).0 == service,
    decreases e, 0nat,
{
    match e {
        ExprV::Unop { op, expr } => {
            lemma_reads_local(st, *expr, service);
            assert(reads_of(st, e, service) == reads_of(st, *expr, service));
        },
        ExprV::Binop { op, expr1, expr2 } => {
            lemma_reads_local(st, *expr1, service);
            lemma_reads_local(st, *expr2, service);
            lemma_concat_local(reads_of(st, *expr1, service), reads_of(st, *expr2, service), service);
        },
        ExprV::If { cond, expr1, expr2 } => {
            lemma_reads_local(st, *cond, service);
            lemma_reads_local(st, *expr1, service);
            lemma_reads_local(st, *expr2, service);
            lemma_concat_local(reads_of(st, *cond, service), reads_of(st, *expr1, service), service);
            lemma_concat_local(reads_of(st, *cond, service) + reads_of(st, *expr1, service), reads_of(st, *expr2, service),
                service);
        },
        ExprV::Func { params, body } => {
            lemma_reads_local(st.push(placeholder_frame(params)), *body, service);
            assert(reads_of(st, e, service) == reads_of(st.push(placeholder_frame(params)), *body, service));
        },
        ExprV::FuncApply { func, args } => {
            lemma_args_reads_local(st, args, service);
            lemma_reads_local(st, *func, service);
            lemma_concat_local(args_reads(st, args, service), reads_of(st, *func, service), service);
        },
        ExprV::Action { assns } => {
            lemma_assns_reads_local(st, assns, service);
            assert(reads_of(st, e, service) == assns_reads(st, assns, service));
        },
        ExprV::Variable { ident } => {
            if stack_lookup(st, ident) is None {
                assert(reads_of(st, e, service)[0] == (service, ident));
            }
        },
        _ => {},
    }
}

/// A list of expressions reads only reactives of `service`.
pub proof fn lemma_args_reads_local(st: Seq<FrameV>, args: Seq<ExprV>, service: u64)
    ensures
        forall|i: int| 0 <= i < args_reads(st, args, service).len() ==> (#[trigger] args_reads(st, args, service)[i]).0 == service,
    decreases args, 1nat,
{
    if args.len() > 0 {
        lemma_reads_local(st, args[0], service);
        lemma_args_reads_local(st, args.subrange(1, args.len() as int), service);
        lemma_concat_local(reads_of(st, args[0], service), args_reads(st, args.subrange(1, args.len() as int), service),
            service);
    }
}

/// The right-hand sides of assignments read only reactives of `service`.
pub proof fn lemma_assns_reads_local(st: Seq<FrameV>, assns: Seq<AssnV>, service: u64)
    ensures
        forall|i: int| 0 <= i < assns_reads(st, assns, service).len() ==> (#[trigger] assns_reads(st, assns, service)[i]).0 == service,
    decreases assns, 1nat,
{
    if assns.len() > 0 {
        lemma_reads_local(st, assns[0].src, service);
        lemma_assns_reads_local(st, assns.subrange(1, assns.len() as int), service);
        lemma_concat_local(reads_of(st, assns[0].src, service), assns_reads(st, assns.subrange(1, assns.len() as int),
            service), service);
    }
}

proof fn lemma_concat_local(a: Seq<(u64, Seq<char>)>, b: Seq<(u64, Seq<char>)>, service: u64)
    requires
        forall|i: int| 0 <= i < a.len() ==> (#[trigger] a[i]).0 == service,
        forall|i: int| 0 <= i < b.len() ==> (#[trigger] b[i]).0 == service,
    ensures
        forall|i: int| 0 <= i < (a + b).len() ==> (#[trigger] (a + b)[i]).0 == service,
{
    assert forall|i: int| 0 <= i < (a + b).len() implies (#[trigger] (a + b)[i]).0 == service by {
        if i >= a.len() {
            assert((a + b)[i] == b[i - a.len()]);
        }
    }
}

pub open spec fn refs_view(s: Seq<ReactiveRef>) -> Seq<(u64, Seq<char>)> {
    s.map_values(|r: ReactiveRef| r@)
}

fn placeholder_bindings(params: &Vec<String>) -> (r: Vec<Binding>)
    ensures
        frame_view(r@) == placeholder_frame(names_view(params@)),
{
    let mut r: Vec<Binding> = Vec::new();
    let mut i: usize = 0;
    while i < params.len()
        invariant
            i <= params.len(),
            r@.len() == i,
            forall|j: int| 0 <= j < i ==> (#[trigger] r@[j]).name@ == params@[j]@ && r@[j].value@ == (ExprV::Number { val: 0 }),
        decreases params.len() - i,
    {
        r.push(Binding { name: params[i].clone(), value: Expr::Number { val: 0 } });
        i = i + 1;
    }
    assert(frame_view(r@) =~= placeholder_frame(names_view(params@)));
    r
}

impl Evaluator {
    /// Appends to `out` each reactive that `expr` reads, in the order met.
    #[verifier::loop_isolation(false)]
    pub fn visit_reads(&mut self, expr: &Expr, service: u64, out: &mut Vec<ReactiveRef>)
        ensures
            final(self)@ == old(self)@,
            refs_view(final(out)@) == refs_view(old(out)@) + reads_of(old(self)@, expr@, service),
        decreases expr,
    {
        let ghost st = self@;
        let ghost o0 = refs_view(out@);
        match expr {
            Expr::Variable { ident } => {
                if self.lookup_local(ident).is_none() {
                    out.push(ReactiveRef { service, name: ReactiveName(ident.clone()) });
                    assert(refs_view(out@) =~= o0 + reads_of(st, expr@, service));
                } else {
                    assert(refs_view(out@) =~= o0 + reads_of(st, expr@, service));
                }
            },
            Expr::Unop { op: _, expr: e1 } => {
                self.visit_reads(e1, service, out);
            },
            Expr::Binop { op: _, expr1, expr2 } => {
                self.visit_reads(expr1, service, out);
                self.visit_reads(expr2, service, out);
                assert(refs_view(out@) =~= o0 + reads_of(st, expr@, service));
            },
            Expr::If { cond, expr1, expr2 } => {
                self.visit_reads(cond, service, out);
                self.visit_reads(expr1, service, out);
                self.visit_reads(expr2, service, out);
                assert(refs_view(out@) =~= o0 + reads_of(st, expr@, service));
            },
            Expr::Func { params, body } => {
                let frame = placeholder_bindings(params);
                self.push_context(frame);
                self.visit_reads(body, service, out);
                self.pop_context();
            },
            Expr::FuncApply { func, args } => {
                proof {
                    crate::ast::lemma_apply_view(*func, *args);
                }
                let ghost av = exprs_view(args@);
                let mut i: usize = 0;
                proof {
                    assert(av.subrange(0, av.len() as int) =~= av);
                    assert(o0 + Seq::<(u64, Seq<char>)>::empty() =~= o0);
                }
                while i < args.len()
                    invariant
                        i <= args.len(),
                        self@ == st,
                        av == exprs_view(args@),
                        o0 + args_reads(st, av, service)
                            == refs_view(out@) + args_reads(st, av.subrange(i as int, av.len() as int), service),
                    decreases args.len() - i,
                {
                    proof {
                        assert(decreases_to!(*expr => args@[i as int]));
                        let sub = av.subrange(i as int, av.len() as int);
                        assert(sub[0] == args@[i as int]@);
                        assert(sub.subrange(1, sub.len() as int) =~= av.subrange(i + 1, av.len() as int));
                    }
                    let ghost before = refs_view(out@);
                    self.visit_reads(&args[i], service, out);
                    proof {
                        let sub = av.subrange(i as int, av.len() as int);
                        let rest = av.subrange(i + 1, av.len() as int);
                        assert(args_reads(st, sub, service) == reads_of(st, sub[0], service) + args_reads(st, rest, service));
                        assert(refs_view(out@) + args_reads(st, rest, service)
                            =~= before + (reads_of(st, sub[0], service) + args_reads(st, rest, service)));
                    }
                    i = i + 1;
                }
                proof {
                    assert(av.subrange(i as int, av.len() as int).len() == 0);
                    assert(refs_view(out@) + Seq::<(u64, Seq<char>)>::empty() =~= refs_view(out@));
                }
                let ghost mid = refs_view(out@);
                self.visit_reads(func, service, out);
                assert(refs_view(out@) =~= o0 + reads_of(st, expr@, service));
            },
            Expr::Action { assns } => {
                proof {
                    crate::ast::lemma_action_view(*assns);
                }
                let ghost av = crate::ast::assns_view(assns@);
                let mut i: usize = 0;
                proof {
                    assert(av.subrange(0, av.len() as int) =~= av);
                    assert(o0 + Seq::<(u64, Seq<char>)>::empty() =~= o0);
                }
                while i < assns.len()
                    invariant
                        i <= assns.len(),
                        self@ == st,
                        av == crate::ast::assns_view(assns@),
                        o0 + assns_reads(st, av, service)
                            == refs_view(out@) + assns_reads(st, av.subrange(i as int, av.len() as int), service),
                    decreases assns.len() - i,
                {
                    proof {
                        assert(decreases_to!(*expr => assns@[i as int].src));
                        let sub = av.subrange(i as int, av.len() as int);
                        assert(sub[0].src == assns@[i as int].src@);
                        assert(sub.subrange(1, sub.len() as int) =~= av.subrange(i + 1, av.len() as int));
                    }
                    let ghost before = refs_view(out@);
                    self.visit_reads(&assns[i].src, service, out);
                    proof {
                        let sub = av.subrange(i as int, av.len() as int);
                        let rest = av.subrange(i + 1, av.len() as int);
                        assert(assns_reads(st, sub, service) == reads_of(st, sub[0].src, service) + assns_reads(st, rest, service));
                        assert(refs_view(out@) + assns_reads(st, rest, service)
                            =~= before + (reads_of(st, sub[0].src, service) + assns_reads(st, rest, service)));
                    }
                    i = i + 1;
                }
                proof {
                    assert(av.subrange(i as int, av.len() as int).len() == 0);
                    assert(refs_view(out@) + Seq::<(u64, Seq<char>)>::empty() =~= refs_view(out@));
                }
            },
            Expr::Number { .. } | Expr::Bool { .. } => {
                assert(refs_view(out@) =~= o0 + reads_of(st, expr@, service));
            },
        }
    }
}

} // verus!

verus! {

/// An action is a value: evaluating it leaves it as it is, its assignments
/// unevaluated, until a client does it.
pub proof fn law_action_is_value(st: Seq<FrameV>, assns: Seq<AssnV>, service: u64, reads: ReadsV, fuel: nat, partial: bool)
    ensures
        eval(st, ExprV::Action { assns }, service, reads, fuel, partial) == (ExprV::Action { assns }, EvalOutcome::Done),
{
}

} // verus!

verus! {

impl EvalError {
    /// The text of the error, as `Display` renders it.
    pub fn text(&self) -> (r: String)
        ensures
            r@ == match self {
                EvalError::UnknownVariable(v) => "unknown variable: "@ + v@,
                EvalError::Other(m) => "other error: "@ + m@,
            },
    {
        proof {
            reveal_strlit("unknown variable: ");
            reveal_strlit("other error: ");
        }
        match self {
            EvalError::UnknownVariable(v) => {
                let mut r = String::from_str("unknown variable: ");
                push_str(&mut r, v.as_str());
                r
            },
            EvalError::Other(m) => {
                let mut r = String::from_str("other error: ");
                push_str(&mut r, m.as_str());
                r
            },
        }
    }
}

impl PartialEvalError {
    /// The text of the error, as `Display` renders it.
    pub fn text(&self) -> (r: String)
        ensures
            r@ == match self {
                PartialEvalError::UnknownVariable(v) => "unknown variable: "@ + v@,
                PartialEvalError::UnresolvedVariable(v) => "unresolved variable: "@ + v@,
                PartialEvalError::Other(m) => "other error: "@ + m@,
            },
    {
        proof {
            reveal_strlit("unknown variable: ");
            reveal_strlit("unresolved variable: ");
            reveal_strlit("other error: ");
        }
        match self {
            PartialEvalError::UnknownVariable(v) => {
                let mut r = String::from_str("unknown variable: ");
                push_str(&mut r, v.as_str());
                r
            },
            PartialEvalError::UnresolvedVariable(v) => {
                let mut r = String::from_str("unresolved variable: ");
                push_str(&mut r, v.as_str());
                r
            },
            PartialEvalError::Other(m) => {
                let mut r = String::from_str("other error: ");
                push_str(&mut r, m.as_str());
                r
            },
        }
    }
}

} // verus!

verus! {

/// Whether two outcomes are the same but for how a missing reactive value
/// is reported: as unresolved by a partial evaluation, as unknown by a full
/// one.
pub open spec fn same_but_missing(partial: EvalOutcome, full: EvalOutcome) -> bool {
    match (partial, full) {
        (EvalOutcome::Unresolved(x), EvalOutcome::Unknown(y)) => x == y,
        _ => partial == full,
    }
}

/// Partial evaluation comes to a value exactly where full evaluation does,
/// and to the same expression; it stops at a missing reactive value exactly
/// where full evaluation reports that reactive as unknown.
pub proof fn law_partial_success_matches_full(st: Seq<FrameV>, e: ExprV, service: u64, reads: ReadsV, fuel: nat)
    ensures
        eval(st, e, service, reads, fuel, true).0 == eval(st, e, service, reads, fuel, false).0,
        (eval(st, e, service, reads, fuel, true).1 is Done) == (eval(st, e, service, reads, fuel, false).1 is Done),
        forall|x: Seq<char>| (eval(st, e, service, reads, fuel, true).1 == EvalOutcome::Unresolved(x))
            == (eval(st, e, service, reads, fuel, false).1 == EvalOutcome::Unknown(x)),
{
    law_partial_agrees_with_full(st, e, service, reads, fuel);
    lemma_missing_kind(st, e, service, reads, fuel, true);
    lemma_missing_kind(st, e, service, reads, fuel, false);
}

/// An empty stack binds nothing; a frame pushed onto the stack answers
/// first for the names it binds; pushed and then popped, it leaves every
/// lookup as it was.
pub proof fn law_lookup_push_pop(st: Seq<FrameV>, f: FrameV, x: Seq<char>)
    ensures
        stack_lookup(Seq::empty(), x) is None,
        stack_lookup(st.push(f), x) == match frame_lookup(f, x) {
            Some(v) => Some(v),
            None => stack_lookup(st, x),
        },
        stack_lookup(st.push(f).drop_last(), x) == stack_lookup(st, x),
{
    assert(st.push(f).drop_last() =~= st);
    assert(st.push(f).last() == f);
}

/// Partial and full evaluation leave the same expression, and end the same
/// way but for how a missing reactive value is reported.
pub proof fn law_partial_agrees_with_full(st: Seq<FrameV>, e: ExprV, service: u64, reads: ReadsV, fuel: nat)
    ensures
        eval(st, e, service, reads, fuel, true).0 == eval(st, e, service, reads, fuel, false).0,
        same_but_missing(eval(st, e, service, reads, fuel, true).1, eval(st, e, service, reads, fuel, false).1),
    decreases fuel, e, 0nat,
{
    match e {
        ExprV::Unop { op, expr } => {
            law_partial_agrees_with_full(st, *expr, service, reads, fuel);
        },
        ExprV::Binop { op, expr1, expr2 } => {
            law_partial_agrees_with_full(st, *expr1, service, reads, fuel);
            law_partial_agrees_with_full(st, *expr2, service, reads, fuel);
        },
        ExprV::If { cond, expr1, expr2 } => {
            law_partial_agrees_with_full(st, *cond, service, reads, fuel);
            law_partial_agrees_with_full(st, *expr1, service, reads, fuel);
            law_partial_agrees_with_full(st, *expr2, service, reads, fuel);
        },
        ExprV::FuncApply { func, args } => {
            law_partial_agrees_with_full(st, *func, service, reads, fuel);
            let (f, r) = eval(st, *func, service, reads, fuel, true);
            if r is Done {
                if let ExprV::Func { params, body } = f {
                    if params.len() == args.len() {
                        lemma_args_partial_agree(st, args, service, reads, fuel);
                        let (vals, ra) = eval_args(st, args, service, reads, fuel, true);
                        if ra is Done && fuel > 0 {
                            law_partial_agrees_with_full(st.push(param_frame(params, vals)), *body, service, reads,
                                (fuel - 1) as nat);
                        }
                    }
                }
            }
        },
        _ => {},
    }
}

/// Partial and full evaluation of a list of arguments agree, as for one
/// expression.
proof fn lemma_args_partial_agree(st: Seq<FrameV>, args: Seq<ExprV>, service: u64, reads: ReadsV, fuel: nat)
    ensures
        eval_args(st, args, service, reads, fuel, true).0 == eval_args(st, args, service, reads, fuel, false).0,
        same_but_missing(eval_args(st, args, service, reads, fuel, true).1, eval_args(st, args, service, reads, fuel, false).1),
    decreases fuel, args, 1nat,
{
    if args.len() > 0 {
        law_partial_agrees_with_full(st, args[0], service, reads, fuel);
        lemma_args_partial_agree(st, args.subrange(1, args.len() as int), service, reads, fuel);
    }
}

} // verus!

verus! {

/// Logical operators on two operands that evaluate to booleans `x` and `y`:
/// `&&` gives true exactly when both are true, `||` exactly when either is.
pub proof fn law_logical_operators(st: Seq<FrameV>, e1: ExprV, e2: ExprV, x: bool, y: bool, service: u64, reads: ReadsV, fuel: nat, partial: bool)
    requires
        eval(st, e1, service, reads, fuel, partial) == (ExprV::Bool { val: x }, EvalOutcome::Done),
        eval(st, e2, service, reads, fuel, partial) == (ExprV::Bool { val: y }, EvalOutcome::Done),
    ensures
        eval(st, ExprV::Binop { op: BinOp::And, expr1: Box::new(e1), expr2: Box::new(e2) }, service, reads, fuel, partial)
            == (ExprV::Bool { val: x && y }, EvalOutcome::Done),
        eval(st, ExprV::Binop { op: BinOp::Or, expr1: Box::new(e1), expr2: Box::new(e2) }, service, reads, fuel, partial)
            == (ExprV::Bool { val: x || y }, EvalOutcome::Done),
        (eval(st, ExprV::Binop { op: BinOp::And, expr1: Box::new(e1), expr2: Box::new(e2) }, service, reads, fuel, partial).0
            == ExprV::Bool { val: true }) <==> (x && y),
        (eval(st, ExprV::Binop { op: BinOp::Or, expr1: Box::new(e1), expr2: Box::new(e2) }, service, reads, fuel, partial).0
            == ExprV::Bool { val: false }) <==> (!x && !y),
{
}

/// Comparisons of two operands that evaluate to numbers `x` and `y` give
/// the truth of `x == y`, `x < y` and `x > y`.
pub proof fn law_comparisons(st: Seq<FrameV>, e1: ExprV, e2: ExprV, x: i32, y: i32, service: u64, reads: ReadsV, fuel: nat, partial: bool)
    requires
        eval(st, e1, service, reads, fuel, partial) == (ExprV::Number { val: x }, EvalOutcome::Done),
        eval(st, e2, service, reads, fuel, partial) == (ExprV::Number { val: y }, EvalOutcome::Done),
    ensures
        eval(st, ExprV::Binop { op: BinOp::Eq, expr1: Box::new(e1), expr2: Box::new(e2) }, service, reads, fuel, partial)
            == (ExprV::Bool { val: x == y }, EvalOutcome::Done),
        eval(st, ExprV::Binop { op: BinOp::Lt, expr1: Box::new(e1), expr2: Box::new(e2) }, service, reads, fuel, partial)
            == (ExprV::Bool { val: x < y }, EvalOutcome::Done),
        eval(st, ExprV::Binop { op: BinOp::Gt, expr1: Box::new(e1), expr2: Box::new(e2) }, service, reads, fuel, partial)
            == (ExprV::Bool { val: x > y }, EvalOutcome::Done),
{
}

/// Arithmetic on two operands that evaluate to numbers `x` and `y`: the
/// sum, difference and product where they fit in an `i32`, and otherwise no
/// result; the quotient `q` with remainder `x - q * y` smaller than `y` in
/// size and of the sign of `x`, where `y` is not zero and the quotient fits.
pub proof fn law_arithmetic(st: Seq<FrameV>, e1: ExprV, e2: ExprV, x: i32, y: i32, service: u64, reads: ReadsV, fuel: nat, partial: bool)
    requires
        eval(st, e1, service, reads, fuel, partial) == (ExprV::Number { val: x }, EvalOutcome::Done),
        eval(st, e2, service, reads, fuel, partial) == (ExprV::Number { val: y }, EvalOutcome::Done),
    ensures
        i32::MIN <= x + y <= i32::MAX ==> eval(st, ExprV::Binop { op: BinOp::Add, expr1: Box::new(e1), expr2: Box::new(e2) },
            service, reads, fuel, partial) == (ExprV::Number { val: (x + y) as i32 }, EvalOutcome::Done),
        i32::MIN <= x - y <= i32::MAX ==> eval(st, ExprV::Binop { op: BinOp::Sub, expr1: Box::new(e1), expr2: Box::new(e2) },
            service, reads, fuel, partial) == (ExprV::Number { val: (x - y) as i32 }, EvalOutcome::Done),
        i32::MIN <= x * y <= i32::MAX ==> eval(st, ExprV::Binop { op: BinOp::Mul, expr1: Box::new(e1), expr2: Box::new(e2) },
            service, reads, fuel, partial) == (ExprV::Number { val: (x * y) as i32 }, EvalOutcome::Done),
        !(i32::MIN <= x + y <= i32::MAX) ==> eval(st, ExprV::Binop { op: BinOp::Add, expr1: Box::new(e1), expr2: Box::new(e2) },
            service, reads, fuel, partial).1 is Stuck,
        !(i32::MIN <= x - y <= i32::MAX) ==> eval(st, ExprV::Binop { op: BinOp::Sub, expr1: Box::new(e1), expr2: Box::new(e2) },
            service, reads, fuel, partial).1 is Stuck,
        !(i32::MIN <= x * y <= i32::MAX) ==> eval(st, ExprV::Binop { op: BinOp::Mul, expr1: Box::new(e1), expr2: Box::new(e2) },
            service, reads, fuel, partial).1 is Stuck,
        y == 0 ==> eval(st, ExprV::Binop { op: BinOp::Div, expr1: Box::new(e1), expr2: Box::new(e2) },
            service, reads, fuel, partial).1 is Stuck,
        y != 0 && !(x == i32::MIN && y == -1) ==> (eval(st, ExprV::Binop { op: BinOp::Div, expr1: Box::new(e1), expr2: Box::new(e2) },
            service, reads, fuel, partial) matches (ExprV::Number { val: q }, EvalOutcome::Done) && ({
                let rem = x - q * y;
                &&& (if rem >= 0 { rem } else { -rem }) < (if y >= 0 { y as int } else { -y })
                &&& (rem == 0 || (rem > 0) == (x > 0))
            })),
{
    if y != 0 && !(x == i32::MIN && y == -1) {
        lemma_trunc_div_fits(x, y);
        lemma_trunc_div_remainder(x as int, y as int);
    }
}

/// The remainder left by `trunc_div` is smaller than the divisor in size
/// and has the sign of the dividend.
proof fn lemma_trunc_div_remainder(a: int, b: int)
    requires
        b != 0,
    ensures
        ({
            let rem = a - trunc_div(a, b) * b;
            &&& (if rem >= 0 { rem } else { -rem }) < (if b >= 0 { b } else { -b })
            &&& (rem == 0 || (rem > 0) == (a > 0))
        }),
{
    if a >= 0 {
        assert(a / b * b + a % b == a && 0 <= a % b < (if b >= 0 { b } else { -b })) by (nonlinear_arith)
            requires b != 0;
        assert(trunc_div(a, b) == a / b);
        assert(a - trunc_div(a, b) * b == a % b);
        if a == 0 {
            assert(0int % b == 0) by (nonlinear_arith) requires b != 0;
        }
    } else {
        let na = -a;
        assert(na / b * b + na % b == na && 0 <= na % b < (if b >= 0 { b } else { -b })) by (nonlinear_arith)
            requires b != 0;
        assert(-(na / b) * b == -((na / b) * b)) by (nonlinear_arith);
        assert(trunc_div(a, b) == -(na / b));
        assert(a - trunc_div(a, b) * b == -(na % b));
    }
}

/// Unary operators on an operand that evaluates to a value: `!` negates a
/// boolean, `-` negates a number other than the least `i32`.
pub proof fn law_unary_operators(st: Seq<FrameV>, e: ExprV, b: bool, n: i32, service: u64, reads: ReadsV, fuel: nat, partial: bool)
    ensures
        eval(st, e, service, reads, fuel, partial) == (ExprV::Bool { val: b }, EvalOutcome::Done) ==> eval(st, ExprV::Unop {
            op: UnOp::Not, expr: Box::new(e) }, service, reads, fuel, partial) == (ExprV::Bool { val: !b }, EvalOutcome::Done),
        eval(st, e, service, reads, fuel, partial) == (ExprV::Number { val: n }, EvalOutcome::Done) && n != i32::MIN ==> eval(st,
            ExprV::Unop { op: UnOp::Neg, expr: Box::new(e) }, service, reads, fuel, partial) == (ExprV::Number { val: (-n) as i32 },
            EvalOutcome::Done),
        eval(st, e, service, reads, fuel, partial) == (ExprV::Number { val: n }, EvalOutcome::Done) && n != i32::MIN ==> (eval(st,
            ExprV::Unop { op: UnOp::Neg, expr: Box::new(e) }, service, reads, fuel, partial).0 matches ExprV::Number { val: m }
            && m + n == 0),
{
}

/// A conditional whose condition evaluates to true evaluates as its first
/// branch, and one whose condition evaluates to false as its second; the
/// branch not taken plays no part.
pub proof fn law_if_branches(st: Seq<FrameV>, c: ExprV, a: ExprV, b: ExprV, service: u64, reads: ReadsV, fuel: nat, partial: bool)
    ensures
        eval(st, c, service, reads, fuel, partial) == (ExprV::Bool { val: true }, EvalOutcome::Done) ==> eval(st, ExprV::If {
            cond: Box::new(c), expr1: Box::new(a), expr2: Box::new(b) }, service, reads, fuel, partial) == eval(st, a, service,
            reads, fuel, partial),
        eval(st, c, service, reads, fuel, partial) == (ExprV::Bool { val: false }, EvalOutcome::Done) ==> eval(st, ExprV::If {
            cond: Box::new(c), expr1: Box::new(a), expr2: Box::new(b) }, service, reads, fuel, partial) == eval(st, b, service,
            reads, fuel, partial),
        forall|a2: ExprV| eval(st, c, service, reads, fuel, partial) == (ExprV::Bool { val: true }, EvalOutcome::Done) ==> eval(st,
            ExprV::If { cond: Box::new(c), expr1: Box::new(a), expr2: Box::new(b) }, service, reads, fuel, partial) == #[trigger] eval(st,
            ExprV::If { cond: Box::new(c), expr1: Box::new(a), expr2: Box::new(a2) }, service, reads, fuel, partial),
{
}

/// A name bound on the stack evaluates to its bound value, whatever the
/// reads hold; a name bound nowhere on the stack evaluates to the value the
/// reads hold for it in this service.
pub proof fn law_variable_value(st: Seq<FrameV>, x: Seq<char>, v: ExprV, service: u64, reads: ReadsV, fuel: nat, partial: bool)
    ensures
        stack_lookup(st, x) == Some(v) ==> eval(st, ExprV::Variable { ident: x }, service, reads, fuel, partial)
            == (v, EvalOutcome::Done),
        stack_lookup(st, x) is None && read_lookup(reads.0, (service, x)) == Some(Some(v)) ==> eval(st,
            ExprV::Variable { ident: x }, service, reads, fuel, partial) == (v, EvalOutcome::Done),
        stack_lookup(st, x) is None && read_lookup(reads.0, (service, x)) == Some(None::<ExprV>) ==> !(eval(st,
            ExprV::Variable { ident: x }, service, reads, fuel, partial).1 is Done),
{
}

/// Evaluating a list of arguments leaves as many expressions as it was
/// given.
pub proof fn lemma_eval_args_len(st: Seq<FrameV>, args: Seq<ExprV>, service: u64, reads: ReadsV, fuel: nat, partial: bool)
    ensures
        eval_args(st, args, service, reads, fuel, partial).0.len() == args.len(),
    decreases args.len(),
{
    if args.len() > 0 {
        lemma_eval_args_len(st, args.subrange(1, args.len() as int), service, reads, fuel, partial);
    }
}

/// In the frame of a call whose parameters are all different, each
/// parameter is bound to the value at its own position.
proof fn lemma_param_lookup(params: Seq<Seq<char>>, vals: Seq<ExprV>, j: int)
    requires
        params.no_duplicates(),
        vals.len() == params.len(),
        0 <= j < params.len(),
    ensures
        frame_lookup(param_frame(params, vals), params[j]) == Some(vals[j]),
    decreases params.len(),
{
    let f = param_frame(params, vals);
    if j < params.len() - 1 {
        assert(f.last().0 == params[params.len() - 1]);
        assert(params[params.len() - 1] != params[j]);
        assert(f.drop_last() =~= param_frame(params.drop_last(), vals.drop_last()));
        assert(params.drop_last().no_duplicates()) by {
            assert forall|a: int, b: int| 0 <= a < b < params.drop_last().len() implies params.drop_last()[a]
                != params.drop_last()[b] by {
                assert(params.drop_last()[a] == params[a] && params.drop_last()[b] == params[b]);
            }
        }
        lemma_param_lookup(params.drop_last(), vals.drop_last(), j);
    }
}

/// Calling a function whose parameters are all different and whose body
/// is its `j`-th parameter gives the value of the `j`-th argument: each
/// argument is passed to the parameter at its position.
pub proof fn law_call_passes_arguments(st: Seq<FrameV>, params: Seq<Seq<char>>, args: Seq<ExprV>, vals: Seq<ExprV>, j: int,
    service: u64, reads: ReadsV, fuel: nat, partial: bool)
    requires
        params.no_duplicates(),
        params.len() == args.len(),
        0 <= j < params.len(),
        fuel > 0,
        eval_args(st, args, service, reads, fuel, partial) == (vals, EvalOutcome::Done),
    ensures
        eval(st, ExprV::FuncApply { func: Box::new(ExprV::Func { params, body: Box::new(ExprV::Variable { ident: params[j] }) }),
            args }, service, reads, fuel, partial) == (vals[j], EvalOutcome::Done),
{
    lemma_eval_args_len(st, args, service, reads, fuel, partial);
    lemma_param_lookup(params, vals, j);
    let st2 = st.push(param_frame(params, vals));
    assert(st2.last() == param_frame(params, vals));
    assert(stack_lookup(st2, params[j]) == Some(vals[j]));
    let body = ExprV::Variable { ident: params[j] };
    let f = ExprV::Func { params, body: Box::new(body) };
    assert(eval(st, f, service, reads, fuel, partial) == (f, EvalOutcome::Done));
    assert(eval(st2, body, service, reads, (fuel - 1) as nat, partial) == (vals[j], EvalOutcome::Done));
}

/// A binary operator whose operands evaluate to a number and a boolean
/// fails with a message naming the operator as its debug form does and
/// showing both operands; a conditional whose condition evaluates to a
/// number fails with a message showing the condition.
pub proof fn law_kind_errors(st: Seq<FrameV>, op: BinOp, e1: ExprV, e2: ExprV, e3: ExprV, x: i32, b: bool, service: u64,
    reads: ReadsV, fuel: nat, partial: bool)
    requires
        eval(st, e1, service, reads, fuel, partial) == (ExprV::Number { val: x }, EvalOutcome::Done),
        eval(st, e2, service, reads, fuel, partial) == (ExprV::Bool { val: b }, EvalOutcome::Done),
    ensures
        eval(st, ExprV::Binop { op, expr1: Box::new(e1), expr2: Box::new(e2) }, service, reads, fuel, partial).1
            == EvalOutcome::Failed("binary operator "@ + (match op {
                BinOp::Add => "Add"@,
                BinOp::Sub => "Sub"@,
                BinOp::Mul => "Mul"@,
                BinOp::Div => "Div"@,
                BinOp::Eq => "Eq"@,
                BinOp::Lt => "Lt"@,
                BinOp::Gt => "Gt"@,
                BinOp::And => "And"@,
                BinOp::Or => "Or"@,
            }) + " cannot be applied to "@ + crate::util::int_decimal(x as int) + " and "@ + (if b { "true"@ } else {
                "false"@ })),
        eval(st, ExprV::If { cond: Box::new(e1), expr1: Box::new(e2), expr2: Box::new(e3) }, service, reads, fuel, partial).1
            == EvalOutcome::Failed("if condition must be a boolean, got "@ + crate::util::int_decimal(x as int)),
{
}

/// Within a frame, a later binding of a name hides an earlier one, and
/// leaves every other name as it was.
pub proof fn law_later_binding_hides(f: FrameV, x: Seq<char>, v: ExprV, y: Seq<char>)
    ensures
        frame_lookup(f.push((x, v)), x) == Some(v),
        y != x ==> frame_lookup(f.push((x, v)), y) == frame_lookup(f, y),
{
    assert(f.push((x, v)).drop_last() =~= f);
}

} // verus!
