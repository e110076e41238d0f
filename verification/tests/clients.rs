use meerkat::ast::{Assn, BinOp, Decl, Expr, Service};
use meerkat::new_runtime::clients::{service_reactives, Asserter, Configurator, Doer};
use meerkat::new_runtime::message::{
    BasisStamp, Envelope, Msg, ReactiveConfiguration, Recipient, Timestamp, TxId, TxPriority,
};
use meerkat::new_runtime::service::{ReactiveName, ServiceActor};

fn num(val: i32) -> Expr {
    Expr::Number { val }
}

fn var(name: &str) -> Expr {
    Expr::Variable { ident: name.to_string() }
}

fn binop(op: BinOp, a: Expr, b: Expr) -> Expr {
    Expr::Binop { op, expr1: Box::new(a), expr2: Box::new(b) }
}

fn variable(name: &str, value: Expr) -> (ReactiveName, Option<ReactiveConfiguration>) {
    (ReactiveName(name.to_string()), Some(ReactiveConfiguration::Variable { value }))
}

fn definition(name: &str, expr: Expr) -> (ReactiveName, Option<ReactiveConfiguration>) {
    (ReactiveName(name.to_string()), Some(ReactiveConfiguration::Definition { expr }))
}

/// Delivers messages between a service and one client until the client
/// sends nothing more; gives what the client reported along the way.
fn drive<F, E>(s: &mut ServiceActor, first: Envelope, mut client: F) -> Result<Vec<Option<String>>, E>
where
    F: FnMut(Msg) -> Result<(Vec<Envelope>, Option<String>), E>,
{
    let mut reports = Vec::new();
    let mut to_service = vec![first];
    while !to_service.is_empty() {
        let mut replies = Vec::new();
        for env in to_service.drain(..) {
            assert!(matches!(env.to, Recipient::Service(1)));
            assert!(s.accepts(&env.msg));
            s.handle(env.msg, &mut replies).unwrap();
        }
        for reply in replies {
            if let Recipient::Manager(_) = reply.to {
                let (out, report) = client(reply.msg)?;
                reports.push(report);
                to_service.extend(out);
            }
        }
    }
    Ok(reports)
}

fn configure(s: &mut ServiceActor, reactives: Vec<(ReactiveName, Option<ReactiveConfiguration>)>, now: u64) {
    let (mut c, lock) = Configurator::start(1, reactives, format!("configurator{now}"), now);
    drive(s, lock, |m| {
        assert!(c.accepts(&m));
        c.handle(m).map(|out| (out, None))
    })
    .unwrap();
    assert!(matches!(c, Configurator::Fail));
}

/// Does `expr` at the service; `Err` holds the message the doer would not
/// take.
fn do_expr(s: &mut ServiceActor, expr: Expr, now: u64) -> Result<Option<BasisStamp>, Msg> {
    let (mut d, lock) = Doer::start(1, expr, BasisStamp::empty(), format!("doer{now}"), now);
    let mut finished = None;
    drive(s, lock, |m| {
        if !d.accepts(&m) {
            return Err(m);
        }
        let (out, fin) = d.handle(m).unwrap();
        if fin.is_some() {
            finished = fin;
        }
        Ok((out, None))
    })?;
    Ok(finished)
}

/// Checks `expr` at the service; `Err` holds the message the asserter
/// would not take.
fn assert_expr(s: &mut ServiceActor, expr: Expr, now: u64) -> Result<Vec<String>, Msg> {
    let (mut a, lock) = Asserter::start(1, expr, BasisStamp::empty(), format!("asserter{now}"), now);
    let reports = drive(s, lock, |m| if a.accepts(&m) { Ok(a.handle(m).unwrap()) } else { Err(m) })?;
    Ok(reports.into_iter().flatten().collect())
}

fn action(assns: Vec<(&str, Expr)>) -> Expr {
    Expr::Action { assns: assns.into_iter().map(|(d, src)| Assn { dest: d.to_string(), src }).collect() }
}

#[test]
fn configure_then_assert() {
    let mut s = ServiceActor::new(1);
    configure(&mut s, vec![variable("x", num(1)), variable("y", num(2))], 10);
    let expr = binop(BinOp::Eq, binop(BinOp::Add, var("x"), var("y")), num(3));
    let lines = assert_expr(&mut s, expr, 20).unwrap();
    assert_eq!(lines, vec!["assertion x + y == 3 succeeded".to_string()]);
}

#[test]
fn false_assertion_is_refused() {
    let mut s = ServiceActor::new(1);
    configure(&mut s, vec![variable("x", num(1))], 10);
    let r = assert_expr(&mut s, binop(BinOp::Eq, var("x"), num(2)), 20);
    assert!(matches!(r, Err(Msg::ReturnedValue { .. })));
}

#[test]
fn do_action_then_assert() {
    let mut s = ServiceActor::new(1);
    configure(&mut s, vec![variable("x", num(1))], 10);
    let basis = do_expr(&mut s, action(vec![("x", binop(BinOp::Add, var("x"), num(1)))]), 20).unwrap();
    assert!(basis.is_some());
    assert_eq!(assert_expr(&mut s, binop(BinOp::Eq, var("x"), num(2)), 30).unwrap().len(), 1);
}

#[test]
fn do_action_named_by_a_definition() {
    let mut s = ServiceActor::new(1);
    configure(
        &mut s,
        vec![variable("x", num(4)), definition("inc", action(vec![("x", binop(BinOp::Add, var("x"), num(1)))]))],
        10,
    );
    do_expr(&mut s, var("inc"), 20).unwrap();
    do_expr(&mut s, var("inc"), 30).unwrap();
    assert_eq!(assert_expr(&mut s, binop(BinOp::Eq, var("x"), num(6)), 40).unwrap().len(), 1);
}

#[test]
fn doing_a_non_action_is_refused() {
    let mut s = ServiceActor::new(1);
    configure(&mut s, vec![variable("x", num(1))], 10);
    assert!(matches!(do_expr(&mut s, binop(BinOp::Add, var("x"), num(1)), 20), Err(Msg::ReturnedValue { .. })));
}

#[test]
fn failed_evaluation_is_refused() {
    let mut s = ServiceActor::new(1);
    configure(&mut s, vec![variable("x", num(1))], 10);
    let r = do_expr(&mut s, action(vec![("x", Expr::If { cond: Box::new(num(1)), expr1: Box::new(num(2)), expr2: Box::new(num(3)) })]), 20);
    assert!(matches!(r, Err(Msg::LockGranted { .. })));
    let mut s2 = ServiceActor::new(1);
    configure(&mut s2, vec![variable("x", num(1))], 10);
    let r2 = do_expr(&mut s2, action(vec![("x", binop(BinOp::Div, var("x"), num(0)))]), 20);
    assert!(matches!(r2, Err(Msg::ReturnedValue { .. })));
}

#[test]
fn replies_for_another_transaction_are_refused() {
    let (mut d, _) = Doer::start(1, action(vec![]), BasisStamp::empty(), "doer".to_string(), 5);
    let other = TxId { priority: TxPriority::High, timestamp: Timestamp { epoch_micros: 6 }, manager: "doer".to_string() };
    assert!(!d.accepts(&Msg::LockGranted { txid: other, service: 1, reactives: vec![] }));
    let (mut d2, _) = Doer::start(1, action(vec![]), BasisStamp::empty(), "doer".to_string(), 5);
    assert!(!d2.accepts(&Msg::Abort { txid: TxId { priority: TxPriority::High, timestamp: Timestamp { epoch_micros: 5 }, manager: "doer".to_string() } }));
}

#[test]
fn empty_action_commits_at_once() {
    let (mut d, lock) = Doer::start(7, action(vec![]), BasisStamp::empty(), "doer".to_string(), 0);
    let txid = match lock.msg {
        Msg::Lock { txid, .. } => txid,
        _ => panic!("expected a lock request"),
    };
    assert_eq!(txid.timestamp.epoch_micros, 1);
    let (out, fin) = d.handle(Msg::LockGranted { txid: txid.copy(), service: 7, reactives: vec![] }).unwrap();
    assert!(fin.is_none());
    assert_eq!(out.len(), 1);
    assert!(matches!(&out[0].msg, Msg::PrepareCommit { .. }));
    let (out, fin) = d.handle(Msg::CommitPrepared { service: 7, txid: txid.copy(), basis: BasisStamp::empty() }).unwrap();
    assert!(matches!(&out[0].msg, Msg::Commit { .. }));
    assert!(fin.unwrap().is_empty());
    assert!(matches!(d, Doer::Done));
}

#[test]
fn value_not_asked_for_is_refused() {
    let (mut a, lock) = Asserter::start(1, var("x"), BasisStamp::empty(), "asserter".to_string(), 3);
    let txid = match lock.msg {
        Msg::Lock { txid, .. } => txid,
        _ => panic!("expected a lock request"),
    };
    let (out, _) = a.handle(Msg::LockGranted { txid: txid.copy(), service: 1, reactives: vec![] }).unwrap();
    assert_eq!(out.len(), 1);
    assert!(matches!(&out[0].msg, Msg::ReadValue { reactive, .. } if reactive.0 == "x"));
    assert!(!a.accepts(&Msg::ReturnedValue { txid: txid.copy(), service: 1, reactive: ReactiveName("y".to_string()), value: num(1) }));
}

#[test]
fn configurator_waits_for_values_its_variables_read() {
    let (mut c, lock) = Configurator::start(1, vec![variable("y", binop(BinOp::Add, var("x"), num(1)))], "c".to_string(), 9);
    let txid = match lock.msg {
        Msg::Lock { txid, .. } => txid,
        _ => panic!("expected a lock request"),
    };
    let out = c.handle(Msg::LockGranted { txid: txid.copy(), service: 1, reactives: vec![] }).unwrap();
    assert!(out.is_empty());
    let out = c.handle(Msg::ReturnedValue { txid: txid.copy(), service: 1, reactive: ReactiveName("x".to_string()), value: num(41) }).unwrap();
    assert_eq!(out.len(), 2);
    match &out[0].msg {
        Msg::Configure { reactives, .. } => {
            assert_eq!(reactives.len(), 1);
            assert!(matches!(&reactives[0].1, Some(ReactiveConfiguration::Variable { value }) if *value == num(42)));
        },
        other => panic!("expected a configuration, got {other:?}"),
    }
    assert!(matches!(&out[1].msg, Msg::PrepareCommit { .. }));
}

#[test]
fn service_reactives_keeps_the_last_declaration() {
    let service = Service {
        name: "s".to_string(),
        decls: vec![
            Decl::VarDecl { name: "x".to_string(), val: num(1) },
            Decl::DefDecl { name: "d".to_string(), val: var("x"), is_pub: false },
            Decl::VarDecl { name: "x".to_string(), val: num(2) },
        ],
    };
    let rs = service_reactives(&service).unwrap();
    assert_eq!(rs.len(), 2);
    assert_eq!(rs[0].0 .0, "x");
    assert!(matches!(&rs[0].1, Some(ReactiveConfiguration::Variable { value }) if *value == num(2)));
    assert!(matches!(&rs[1].1, Some(ReactiveConfiguration::Definition { expr }) if *expr == var("x")));
    let with_import = Service { name: "t".to_string(), decls: vec![Decl::Import { srv_name: "s".to_string() }] };
    assert!(service_reactives(&with_import).is_none());
}

