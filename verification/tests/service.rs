use meerkat::ast::Expr;
use meerkat::new_runtime::message::{
    BasisStamp, Envelope, LockKind, Msg, ReactiveConfiguration, Recipient, Timestamp, TxId, TxPriority,
};
use meerkat::new_runtime::service::{Fault, ReactiveName, ServiceActor};

fn txid(ts: u64, manager: &str) -> TxId {
    TxId { priority: TxPriority::High, timestamp: Timestamp { epoch_micros: ts }, manager: manager.to_string() }
}

fn granted_to(out: &[Envelope], manager: &str) -> bool {
    out.iter().any(|e| matches!(&e.msg, Msg::LockGranted { txid, .. } if txid.manager == manager))
}

fn preempt_asked_of(out: &[Envelope], manager: &str) -> bool {
    out.iter().any(|e| matches!(&e.msg, Msg::Preempt { txid } if txid.manager == manager))
}

fn var(name: &str, val: i32) -> (ReactiveName, Option<ReactiveConfiguration>) {
    (ReactiveName(name.to_string()), Some(ReactiveConfiguration::Variable { value: Expr::Number { val } }))
}

fn commit(s: &mut ServiceActor, t: &TxId, out: &mut Vec<Envelope>) {
    s.handle(Msg::PrepareCommit { txid: t.copy() }, out).unwrap();
    let basis = match &out.last().unwrap().msg {
        Msg::CommitPrepared { basis, .. } => basis.copy(),
        other => panic!("expected a prepared commit, got {other:?}"),
    };
    s.handle(Msg::Commit { txid: t.copy(), basis }, out).unwrap();
}

fn configured(vars: Vec<(ReactiveName, Option<ReactiveConfiguration>)>) -> ServiceActor {
    let mut s = ServiceActor::new(1);
    let mut out = Vec::new();
    let t = txid(1, "configurator");
    s.handle(Msg::Lock { txid: t.copy(), kind: LockKind::Exclusive }, &mut out).unwrap();
    s.handle(Msg::Configure { txid: t.copy(), imports: vec![], reactives: vars, exports: vec![] }, &mut out).unwrap();
    commit(&mut s, &t, &mut out);
    s
}

fn read(s: &mut ServiceActor, t: &TxId, name: &str) -> Expr {
    let mut out = Vec::new();
    s.handle(
        Msg::ReadValue { txid: t.copy(), reactive: ReactiveName(name.to_string()), basis: BasisStamp::empty() },
        &mut out,
    )
    .unwrap();
    match out.pop().map(|e| e.msg) {
        Some(Msg::ReturnedValue { value, .. }) => value,
        other => panic!("expected a value, got {other:?}"),
    }
}

#[test]
fn batch_write_mutually_indep() {
    let mut s = configured(vec![var("x", 0), var("y", 0)]);
    let mut out = Vec::new();
    let writer = txid(10, "writer");
    s.handle(Msg::Lock { txid: writer.copy(), kind: LockKind::Exclusive }, &mut out).unwrap();
    assert!(granted_to(&out, "writer"));
    s.handle(Msg::Write { txid: writer.copy(), reactive: ReactiveName("x".to_string()), value: Expr::Number { val: 1 } }, &mut out)
        .unwrap();
    s.handle(Msg::Write { txid: writer.copy(), reactive: ReactiveName("y".to_string()), value: Expr::Number { val: 2 } }, &mut out)
        .unwrap();
    commit(&mut s, &writer, &mut out);

    let reader = txid(20, "reader");
    s.handle(Msg::Lock { txid: reader.copy(), kind: LockKind::Shared }, &mut out).unwrap();
    assert!(granted_to(&out, "reader"));
    assert_eq!(read(&mut s, &reader, "x"), Expr::Number { val: 1 });
    assert_eq!(read(&mut s, &reader, "y"), Expr::Number { val: 2 });
}

#[test]
fn try_read_var_with_wlock() {
    let mut s = configured(vec![var("x", 5)]);
    let mut out = Vec::new();
    let writer = txid(10, "writer");
    let reader = txid(20, "reader");
    s.handle(Msg::Lock { txid: writer.copy(), kind: LockKind::Exclusive }, &mut out).unwrap();
    assert!(granted_to(&out, "writer"));
    out.clear();
    s.handle(Msg::Lock { txid: reader.copy(), kind: LockKind::Shared }, &mut out).unwrap();
    assert!(!granted_to(&out, "reader"));
    assert!(!s.accepts(&Msg::ReadValue { txid: reader.copy(), reactive: ReactiveName("x".to_string()), basis: BasisStamp::empty() }));
    out.clear();
    s.handle(Msg::Abort { txid: writer.copy() }, &mut out).unwrap();
    assert!(granted_to(&out, "reader"));
    assert_eq!(read(&mut s, &reader, "x"), Expr::Number { val: 5 });
}

#[test]
fn try_write_var_with_rlock() {
    let mut s = configured(vec![var("x", 5)]);
    let mut out = Vec::new();
    let reader = txid(10, "reader");
    let writer = txid(20, "writer");
    s.handle(Msg::Lock { txid: reader.copy(), kind: LockKind::Shared }, &mut out).unwrap();
    assert!(granted_to(&out, "reader"));
    out.clear();
    s.handle(Msg::Lock { txid: writer.copy(), kind: LockKind::Exclusive }, &mut out).unwrap();
    assert!(!granted_to(&out, "writer"));
    assert!(!preempt_asked_of(&out, "reader"));
    assert!(!s.accepts(&Msg::Write { txid: writer.copy(), reactive: ReactiveName("x".to_string()), value: Expr::Number { val: 1 } }));
    out.clear();
    s.handle(Msg::Abort { txid: reader.copy() }, &mut out).unwrap();
    assert!(granted_to(&out, "writer"));
}

#[test]
fn try_write_var_with_another_wlock() {
    let mut s = configured(vec![var("x", 5)]);
    let mut out = Vec::new();
    let first = txid(10, "first");
    let second = txid(20, "second");
    s.handle(Msg::Lock { txid: first.copy(), kind: LockKind::Exclusive }, &mut out).unwrap();
    assert!(granted_to(&out, "first"));
    out.clear();
    s.handle(Msg::Lock { txid: second.copy(), kind: LockKind::Exclusive }, &mut out).unwrap();
    assert!(!granted_to(&out, "second"));
    assert!(!s.accepts(&Msg::Write { txid: second.copy(), reactive: ReactiveName("x".to_string()), value: Expr::Number { val: 1 } }));
    s.handle(Msg::Write { txid: first.copy(), reactive: ReactiveName("x".to_string()), value: Expr::Number { val: 7 } }, &mut out)
        .unwrap();
    out.clear();
    commit(&mut s, &first, &mut out);
    assert!(!granted_to(&out, "second"));
    out.clear();
    let third = txid(30, "third");
    s.handle(Msg::Lock { txid: third.copy(), kind: LockKind::Shared }, &mut out).unwrap();
    assert!(granted_to(&out, "second"));
    assert!(!granted_to(&out, "third"));
    assert_eq!(read(&mut s, &second, "x"), Expr::Number { val: 7 });
}

#[test]
fn older_exclusive_request_preempts_younger_reader() {
    let mut s = configured(vec![var("x", 5)]);
    let mut out = Vec::new();
    let young = txid(20, "young");
    let old = txid(10, "old");
    s.handle(Msg::Lock { txid: young.copy(), kind: LockKind::Shared }, &mut out).unwrap();
    out.clear();
    s.handle(Msg::Lock { txid: old.copy(), kind: LockKind::Exclusive }, &mut out).unwrap();
    assert!(!granted_to(&out, "old"));
    assert!(preempt_asked_of(&out, "young"));
    assert!(out.iter().any(|e| matches!(&e.to, Recipient::Manager(m) if m == "young")));
}

#[test]
fn shared_locks_are_granted_together() {
    let mut s = configured(vec![var("x", 5)]);
    let mut out = Vec::new();
    s.handle(Msg::Lock { txid: txid(10, "a"), kind: LockKind::Shared }, &mut out).unwrap();
    s.handle(Msg::Lock { txid: txid(11, "b"), kind: LockKind::Shared }, &mut out).unwrap();
    assert!(granted_to(&out, "a"));
    assert!(granted_to(&out, "b"));
    assert_eq!(read(&mut s, &txid(11, "b"), "x"), Expr::Number { val: 5 });
}

#[test]
fn lock_then_abort_frees_the_service() {
    let mut s = ServiceActor::new(3);
    let mut out = Vec::new();
    let t = txid(10, "t");
    s.handle(Msg::Lock { txid: t.copy(), kind: LockKind::Exclusive }, &mut out).unwrap();
    assert!(granted_to(&out, "t"));
    s.handle(Msg::Abort { txid: t.copy() }, &mut out).unwrap();
    out.clear();
    s.handle(Msg::Lock { txid: txid(11, "u"), kind: LockKind::Exclusive }, &mut out).unwrap();
    assert!(granted_to(&out, "u"));
}

#[test]
fn double_lock_request_is_refused() {
    let mut s = ServiceActor::new(1);
    let mut out = Vec::new();
    let first = txid(10, "first");
    let second = txid(20, "second");
    s.handle(Msg::Lock { txid: first.copy(), kind: LockKind::Exclusive }, &mut out).unwrap();
    s.handle(Msg::Lock { txid: second.copy(), kind: LockKind::Exclusive }, &mut out).unwrap();
    assert!(!s.accepts(&Msg::Lock { txid: second.copy(), kind: LockKind::Shared }));
}

#[test]
fn abort_without_lock_is_refused() {
    let s = ServiceActor::new(1);
    assert!(!s.accepts(&Msg::Abort { txid: txid(1, "t") }));
    assert!(!s.accepts(&Msg::PrepareCommit { txid: txid(1, "t") }));
    assert!(!s.accepts(&Msg::Commit { txid: txid(1, "t"), basis: BasisStamp::empty() }));
}

#[test]
fn write_to_unknown_reactive_is_refused() {
    let mut s = configured(vec![var("x", 5)]);
    let mut out = Vec::new();
    let t = txid(10, "t");
    s.handle(Msg::Lock { txid: t.copy(), kind: LockKind::Exclusive }, &mut out).unwrap();
    assert!(!s.accepts(&Msg::Write { txid: t.copy(), reactive: ReactiveName("nope".to_string()), value: Expr::Number { val: 1 } }));
    assert!(!s.accepts(&Msg::ReadValue { txid: t.copy(), reactive: ReactiveName("nope".to_string()), basis: BasisStamp::empty() }));
}

#[test]
fn read_configuration_lists_reactives() {
    let mut s = configured(vec![var("x", 5), var("y", 6)]);
    let mut out = Vec::new();
    let t = txid(10, "t");
    assert!(!s.accepts(&Msg::ReadConfiguration { txid: t.copy() }));
    s.handle(Msg::Lock { txid: t.copy(), kind: LockKind::Exclusive }, &mut out).unwrap();
    out.clear();
    s.handle(Msg::ReadConfiguration { txid: t.copy() }, &mut out).unwrap();
    match &out[0].msg {
        Msg::ReturnedConfiguration { service, imports, inputs, exports, .. } => {
            assert_eq!(*service, 1);
            assert!(imports.is_empty());
            assert!(exports.is_empty());
            let names: Vec<&str> = inputs.iter().map(|(n, _)| n.0.as_str()).collect();
            assert_eq!(names, vec!["x", "y"]);
            assert!(inputs.iter().all(|(_, ins)| ins.is_empty()));
        },
        other => panic!("expected the configuration, got {other:?}"),
    }
}

#[test]
fn messages_a_service_does_not_take_are_refused() {
    let s = ServiceActor::new(1);
    assert!(!s.accepts(&Msg::Retire { txid: txid(1, "t") }));
    assert!(!s.accepts(&Msg::Preempt { txid: txid(1, "t") }));
}

#[test]
fn definitions_follow_their_inputs() {
    let double = (
        ReactiveName("double".to_string()),
        Some(ReactiveConfiguration::Definition {
            expr: Expr::Binop {
                op: meerkat::ast::BinOp::Mul,
                expr1: Box::new(Expr::Variable { ident: "x".to_string() }),
                expr2: Box::new(Expr::Number { val: 2 }),
            },
        }),
    );
    let mut s = configured(vec![var("x", 2), double]);
    let mut out = Vec::new();
    let first = txid(10, "first");
    s.handle(Msg::Lock { txid: first.copy(), kind: LockKind::Shared }, &mut out).unwrap();
    assert_eq!(read(&mut s, &first, "double"), Expr::Number { val: 4 });
    s.handle(Msg::Abort { txid: first.copy() }, &mut out).unwrap();

    let writer = txid(20, "writer");
    s.handle(Msg::Lock { txid: writer.copy(), kind: LockKind::Exclusive }, &mut out).unwrap();
    s.handle(Msg::Write { txid: writer.copy(), reactive: ReactiveName("x".to_string()), value: Expr::Number { val: 21 } }, &mut out)
        .unwrap();
    commit(&mut s, &writer, &mut out);

    let reader = txid(30, "reader");
    out.clear();
    s.handle(Msg::Lock { txid: reader.copy(), kind: LockKind::Shared }, &mut out).unwrap();
    assert!(granted_to(&out, "reader"));
    assert_eq!(read(&mut s, &reader, "double"), Expr::Number { val: 42 });
}

#[test]
fn definition_without_inputs_waits_for_a_value() {
    let constant = (ReactiveName("c".to_string()), Some(ReactiveConfiguration::Definition { expr: Expr::Number { val: 3 } }));
    let mut s = configured(vec![constant]);
    let mut out = Vec::new();
    let t = txid(10, "t");
    s.handle(Msg::Lock { txid: t.copy(), kind: LockKind::Shared }, &mut out).unwrap();
    out.clear();
    s.handle(Msg::ReadValue { txid: t.copy(), reactive: ReactiveName("c".to_string()), basis: BasisStamp::empty() }, &mut out)
        .unwrap();
    assert!(out.is_empty());
    assert!(!s.accepts(&Msg::ReadValue { txid: t.copy(), reactive: ReactiveName("c".to_string()), basis: BasisStamp::empty() }));
}

fn definition(name: &str, expr: Expr) -> (ReactiveName, Option<ReactiveConfiguration>) {
    (ReactiveName(name.to_string()), Some(ReactiveConfiguration::Definition { expr }))
}

fn configure_result(s: &mut ServiceActor, vars: Vec<(ReactiveName, Option<ReactiveConfiguration>)>) -> Result<(), Fault> {
    let mut out = Vec::new();
    let t = txid(1, "configurator");
    s.handle(Msg::Lock { txid: t.copy(), kind: LockKind::Exclusive }, &mut out)?;
    s.handle(Msg::Configure { txid: t.copy(), imports: vec![], reactives: vars, exports: vec![] }, &mut out)?;
    s.handle(Msg::PrepareCommit { txid: t.copy() }, &mut out)?;
    let basis = match &out.last().unwrap().msg {
        Msg::CommitPrepared { basis, .. } => basis.copy(),
        other => panic!("expected a prepared commit, got {other:?}"),
    };
    s.handle(Msg::Commit { txid: t, basis }, &mut out)
}

#[test]
fn writing_a_definition_is_a_fault() {
    let mut s = configured(vec![var("x", 1), definition("d", Expr::Variable { ident: "x".to_string() })]);
    let mut out = Vec::new();
    let t = txid(10, "t");
    s.handle(Msg::Lock { txid: t.copy(), kind: LockKind::Exclusive }, &mut out).unwrap();
    s.handle(Msg::Write { txid: t.copy(), reactive: ReactiveName("d".to_string()), value: Expr::Number { val: 1 } }, &mut out)
        .unwrap();
    s.handle(Msg::PrepareCommit { txid: t.copy() }, &mut out).unwrap();
    assert!(matches!(s.handle(Msg::Commit { txid: t.copy(), basis: BasisStamp::empty() }, &mut out), Err(Fault::NotVariable)));
}

#[test]
fn cyclic_definitions_are_a_fault() {
    let mut s = ServiceActor::new(1);
    let a = definition(
        "a",
        Expr::Binop { op: meerkat::ast::BinOp::Add, expr1: Box::new(Expr::Variable { ident: "b".to_string() }), expr2: Box::new(Expr::Number { val: 1 }) },
    );
    let b = definition(
        "b",
        Expr::Binop { op: meerkat::ast::BinOp::Add, expr1: Box::new(Expr::Variable { ident: "a".to_string() }), expr2: Box::new(Expr::Number { val: 1 }) },
    );
    assert!(matches!(configure_result(&mut s, vec![a, b]), Err(Fault::Cyclical)));
}

#[test]
fn failing_definition_is_a_fault() {
    let mut s = ServiceActor::new(1);
    let d = definition(
        "d",
        Expr::If {
            cond: Box::new(Expr::Variable { ident: "x".to_string() }),
            expr1: Box::new(Expr::Number { val: 1 }),
            expr2: Box::new(Expr::Number { val: 2 }),
        },
    );
    assert!(matches!(configure_result(&mut s, vec![var("x", 5), d]), Err(Fault::Evaluation(_))));
}

#[test]
fn definition_without_result_is_a_fault() {
    let mut s = ServiceActor::new(1);
    let d = definition(
        "d",
        Expr::Binop { op: meerkat::ast::BinOp::Div, expr1: Box::new(Expr::Variable { ident: "x".to_string() }), expr2: Box::new(Expr::Number { val: 0 }) },
    );
    assert!(matches!(configure_result(&mut s, vec![var("x", 5), d]), Err(Fault::Stuck)));
}

#[test]
fn older_request_preempts_younger_exclusive_holder() {
    let mut s = configured(vec![var("x", 5)]);
    let mut out = Vec::new();
    let young = txid(20, "young");
    let old = txid(10, "old");
    s.handle(Msg::Lock { txid: young.copy(), kind: LockKind::Exclusive }, &mut out).unwrap();
    assert!(granted_to(&out, "young"));
    out.clear();
    s.handle(Msg::Lock { txid: old.copy(), kind: LockKind::Shared }, &mut out).unwrap();
    assert!(!granted_to(&out, "old"));
    assert!(preempt_asked_of(&out, "young"));
    assert!(!preempt_asked_of(&out, "old"));
    out.clear();
    let older = txid(5, "older");
    s.handle(Msg::Lock { txid: older.copy(), kind: LockKind::Shared }, &mut out).unwrap();
    assert!(!preempt_asked_of(&out, "young"));
}

#[test]
fn admitted_messages_are_accepted() {
    let mut s = configured(vec![var("x", 5)]);
    let mut out = Vec::new();
    let t = txid(10, "t");
    assert!(s.accepts(&Msg::Lock { txid: t.copy(), kind: LockKind::Exclusive }));
    s.handle(Msg::Lock { txid: t.copy(), kind: LockKind::Exclusive }, &mut out).unwrap();
    let write = Msg::Write { txid: t.copy(), reactive: ReactiveName("x".to_string()), value: Expr::Number { val: 9 } };
    assert!(s.accepts(&write));
    s.handle(write, &mut out).unwrap();
    assert!(s.accepts(&Msg::ReadValue { txid: t.copy(), reactive: ReactiveName("x".to_string()), basis: BasisStamp::empty() }));
    assert!(s.accepts(&Msg::Abort { txid: t.copy() }));
}

#[test]
fn read_not_yet_visible_waits_with_its_basis() {
    let mut s = configured(vec![var("x", 5)]);
    let mut out = Vec::new();
    let t = txid(10, "t");
    s.handle(Msg::Lock { txid: t.copy(), kind: LockKind::Shared }, &mut out).unwrap();
    out.clear();
    let mut basis = BasisStamp::empty();
    basis.insert(meerkat::new_runtime::service::ReactiveRef { service: 1, name: ReactiveName("x".to_string()) },
        meerkat::new_runtime::message::Iteration(7));
    s.handle(Msg::ReadValue { txid: t.copy(), reactive: ReactiveName("x".to_string()), basis }, &mut out).unwrap();
    assert!(out.is_empty());
    assert!(!s.accepts(&Msg::ReadValue { txid: t.copy(), reactive: ReactiveName("x".to_string()), basis: BasisStamp::empty() }));
}

#[test]
fn written_exported_variable_is_sent_to_importers() {
    let mut s = ServiceActor::new(1);
    let mut out = Vec::new();
    let t = txid(1, "configurator");
    s.handle(Msg::Lock { txid: t.copy(), kind: LockKind::Exclusive }, &mut out).unwrap();
    s.handle(
        Msg::Configure {
            txid: t.copy(),
            imports: vec![],
            reactives: vec![var("x", 0)],
            exports: vec![(ReactiveName("x".to_string()), vec![7, 8])],
        },
        &mut out,
    )
    .unwrap();
    commit(&mut s, &t, &mut out);
    out.clear();
    let writer = txid(10, "writer");
    s.handle(Msg::Lock { txid: writer.copy(), kind: LockKind::Exclusive }, &mut out).unwrap();
    s.handle(Msg::Write { txid: writer.copy(), reactive: ReactiveName("x".to_string()), value: Expr::Number { val: 5 } }, &mut out)
        .unwrap();
    out.clear();
    commit(&mut s, &writer, &mut out);
    for to in [7u64, 8] {
        assert!(out.iter().any(|e| matches!(&e.to, Recipient::Service(id) if *id == to)
            && matches!(&e.msg, Msg::Propagate { sender, value } if sender.service == 1 && sender.name.0 == "x"
                && value.value == Expr::Number { val: 5 })));
    }
}

