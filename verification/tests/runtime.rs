use meerkat::ast::Expr;
use meerkat::runtime::table_actor::state::TableValueState;
use meerkat::runtime::versioning::VersionMap;

#[test]
fn versions_start_at_zero() {
    let m = VersionMap::new();
    assert_eq!(m.get_latest("x"), "x0");
}

#[test]
fn next_version_counts_per_name() {
    let mut m = VersionMap::new();
    assert_eq!(m.next_version("x"), "x1");
    assert_eq!(m.next_version("x"), "x2");
    assert_eq!(m.next_version("a"), "a1");
    assert_eq!(m.get_latest("x"), "x2");
    assert_eq!(m.get_latest("a"), "a1");
    assert_eq!(m.get_latest("b"), "b0");
}

#[test]
fn reset_forgets_versions() {
    let mut m = VersionMap::new();
    for _ in 0..12 {
        m.next_version("v");
    }
    assert_eq!(m.get_latest("v"), "v12");
    m.reset();
    assert_eq!(m.get_latest("v"), "v0");
    assert_eq!(m.next_version("v"), "v1");
}

#[test]
fn table_value_holds_its_value() {
    let TableValueState::Val(v) = TableValueState::new(Expr::Number { val: 3 });
    assert_eq!(v, Expr::Number { val: 3 });
}

#[test]
fn table_value_gives_back_its_value() {
    let e = Expr::Bool { val: true };
    assert_eq!(TableValueState::new(e.copy()).into_expr(), e);
}
