use meerkat::ast::{Assn, BinOp, Expr, UnOp};
use meerkat::table::Table;

fn var(name: &str) -> Expr {
    Expr::Variable { ident: name.to_string() }
}

fn sorted(mut v: Vec<String>) -> Vec<String> {
    v.sort();
    v
}

#[test]
fn free_variables_skip_bound_names_and_parameters() {
    let e = Expr::FuncApply {
        func: Box::new(Expr::Func {
            params: vec!["a".to_string()],
            body: Box::new(Expr::Binop { op: BinOp::Add, expr1: Box::new(var("a")), expr2: Box::new(var("b")) }),
        }),
        args: vec![var("c"), var("r"), var("c")],
    };
    let free = e.free_var(&vec!["r".to_string()]);
    assert_eq!(sorted(free), vec!["b".to_string(), "c".to_string()]);
}

#[test]
fn free_variables_of_an_action_are_those_of_its_sources() {
    let e = Expr::Action {
        assns: vec![
            Assn { dest: "x".to_string(), src: Expr::Unop { op: UnOp::Neg, expr: Box::new(var("y")) } },
            Assn { dest: "z".to_string(), src: Expr::Number { val: 1 } },
        ],
    };
    assert_eq!(e.free_var(&vec![]), vec!["y".to_string()]);
}

#[test]
fn alpha_rename_renames_free_occurrences_only() {
    let mut renames: Table<String, String> = Table::new();
    renames.insert("x".to_string(), "x1".to_string());
    renames.insert("r".to_string(), "r1".to_string());
    let mut e = Expr::If {
        cond: Box::new(var("r")),
        expr1: Box::new(Expr::Func { params: vec!["x".to_string()], body: Box::new(var("x")) }),
        expr2: Box::new(var("x")),
    };
    e.alpha_rename(&vec!["r".to_string()], &renames);
    assert_eq!(
        e,
        Expr::If {
            cond: Box::new(var("r")),
            expr1: Box::new(Expr::Func { params: vec!["x".to_string()], body: Box::new(var("x")) }),
            expr2: Box::new(var("x1")),
        }
    );
}

#[test]
fn alpha_rename_keeps_assignment_destinations() {
    let mut renames: Table<String, String> = Table::new();
    renames.insert("x".to_string(), "y".to_string());
    let mut e = Expr::Action { assns: vec![Assn { dest: "x".to_string(), src: var("x") }] };
    e.alpha_rename(&vec![], &renames);
    assert_eq!(e, Expr::Action { assns: vec![Assn { dest: "x".to_string(), src: var("y") }] });
}

#[test]
fn alpha_rename_with_no_renames_changes_nothing() {
    let renames: Table<String, String> = Table::new();
    let unchanged = Expr::Binop { op: BinOp::Mul, expr1: Box::new(var("a")), expr2: Box::new(Expr::Bool { val: true }) };
    let mut e = Expr::Binop { op: BinOp::Mul, expr1: Box::new(var("a")), expr2: Box::new(Expr::Bool { val: true }) };
    e.alpha_rename(&vec![], &renames);
    assert_eq!(e, unchanged);
}

#[test]
fn expression_text() {
    let e = Expr::FuncApply {
        func: Box::new(var("f")),
        args: vec![Expr::Number { val: -3 }, Expr::Unop { op: UnOp::Not, expr: Box::new(Expr::Bool { val: false }) }],
    };
    assert_eq!(e.text(), "f(-3, !false)");
    let f = Expr::Func { params: vec!["a".to_string(), "b".to_string()], body: Box::new(var("a")) };
    assert_eq!(f.text(), "fn(a,b)[a]");
    let a = Expr::Action { assns: vec![Assn { dest: "x".to_string(), src: Expr::Number { val: 12 } }] };
    assert_eq!(a.text(), "Action(\"x = 12\")");
}

#[test]
fn declaration_text() {
    let v = meerkat::ast::Decl::VarDecl { name: "x".to_string(), val: Expr::Number { val: 1 } };
    assert_eq!(v.text(), "var x = 1");
    let d = meerkat::ast::Decl::DefDecl { name: "d".to_string(), val: var("x"), is_pub: true };
    assert_eq!(d.text(), "pub def d = x");
    let p = meerkat::ast::Decl::DefDecl { name: "d".to_string(), val: var("x"), is_pub: false };
    assert_eq!(p.text(), "def d = x");
    let t = meerkat::ast::Decl::TableDecl { name: "t".to_string(), records: vec![] };
    assert_eq!(t.text(), "table t created");
}

#[test]
fn numbers_are_shown_in_decimal() {
    assert_eq!(Expr::Number { val: 0 }.text(), "0");
    assert_eq!(Expr::Number { val: 1207 }.text(), "1207");
    assert_eq!(Expr::Number { val: -45 }.text(), "-45");
    assert_eq!(Expr::Number { val: i32::MIN }.text(), "-2147483648");
    assert_eq!(Expr::Number { val: i32::MAX }.text(), "2147483647");
}

#[test]
fn binding_names_takes_them_out_of_the_free_variables() {
    let e = Expr::Binop {
        op: BinOp::Add,
        expr1: Box::new(var("a")),
        expr2: Box::new(Expr::Func { params: vec!["p".to_string()], body: Box::new(Expr::Binop {
            op: BinOp::Add,
            expr1: Box::new(var("p")),
            expr2: Box::new(var("b")),
        }) }),
    };
    let all = sorted(e.free_var(&vec![]));
    assert_eq!(all, vec!["a".to_string(), "b".to_string()]);
    assert_eq!(sorted(e.free_var(&vec!["a".to_string()])), vec!["b".to_string()]);
    assert_eq!(sorted(e.free_var(&vec!["a".to_string(), "b".to_string()])), Vec::<String>::new());
}

#[test]
fn renaming_without_capture_maps_the_free_variables() {
    let mut renames: Table<String, String> = Table::new();
    renames.insert("a".to_string(), "z".to_string());
    let mut e = Expr::Binop { op: BinOp::Add, expr1: Box::new(var("a")), expr2: Box::new(var("b")) };
    e.alpha_rename(&vec![], &renames);
    assert_eq!(sorted(e.free_var(&vec![])), vec!["b".to_string(), "z".to_string()]);
}
