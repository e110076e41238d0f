use meerkat::frontend::meerast::{Binop, Expr, SglStmt, Stmt};

fn id(name: &str) -> Expr {
    Expr::IdExpr { ident: name.to_string() }
}

fn sorted(mut v: Vec<String>) -> Vec<String> {
    v.sort();
    v
}

#[test]
fn names_contained_collects_each_name_once() {
    let e = Expr::BopExpr { opd1: Box::new(id("a")), opd2: Box::new(Expr::Apply { fun: Box::new(id("f")), args: vec![id("a"), Expr::IntConst { val: 1 }] }), bop: Binop::Add };
    assert_eq!(sorted(e.names_contained()), vec!["a".to_string(), "f".to_string()]);
}

#[test]
fn names_contained_drops_lambda_parameters() {
    let e = Expr::Apply {
        fun: Box::new(Expr::Lambda { pars: vec![id("p")], body: Box::new(Expr::BopExpr { opd1: Box::new(id("p")), opd2: Box::new(id("q")), bop: Binop::Mul }) }),
        args: vec![id("p")],
    };
    assert_eq!(sorted(e.names_contained()), vec!["p".to_string(), "q".to_string()]);
}

#[test]
fn names_contained_of_an_action() {
    let e = Expr::Action {
        stmt: Stmt::Stmt {
            sgl_stmts: vec![
                SglStmt::Ass { dst: id("x"), src: id("y") },
                SglStmt::Do { act: Expr::IfExpr { cond: Box::new(Expr::BoolConst { val: true }), then: Box::new(id("u")), elze: Box::new(id("v")) } },
            ],
        },
    };
    assert_eq!(sorted(e.names_contained()), vec!["u".to_string(), "v".to_string(), "y".to_string()]);
}
