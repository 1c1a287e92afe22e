use skvs::config::DatabaseConfig;
use skvs::schema::{Row, TriggerEvent, TriggerTiming, Value};
use skvs::sql::dml::{execute_delete, execute_insert, execute_update};
use skvs::sql::parser::parse_statements;
use skvs::sql::SqlEngine;
use skvs::state::KvsState;
use skvs::transaction::TxnManager;
use skvs::triggers::fire_triggers;

fn new_state() -> KvsState {
    KvsState::new(&[DatabaseConfig { id: 0, name: "default".into() }])
}

#[test]
fn update_where_reads_its_own_params_not_the_sets() {
    let mut state = new_state();

    SqlEngine::execute(
        &mut state, 0,
        "CREATE TABLE t (uuid TEXT PRIMARY KEY, inventory TEXT, updated_at INTEGER)",
        &[], None,
    ).unwrap();

    SqlEngine::execute(
        &mut state, 0,
        "INSERT INTO t (uuid, inventory, updated_at) VALUES (?, ?, ?)",
        &[Value::Text("abc-123".into()), Value::Text("old".into()), Value::Integer(100)],
        None,
    ).unwrap();

    let result = SqlEngine::execute(
        &mut state, 0,
        "UPDATE t SET updated_at = ?, inventory = ? WHERE uuid = ? AND updated_at <= ?",
        &[
            Value::Integer(200),
            Value::Text("new".into()),
            Value::Text("abc-123".into()),
            Value::Integer(100),
        ],
        None,
    ).unwrap();

    assert_eq!(result.affected_rows, Some(1), "CAS update should match the existing row");

    let rows = SqlEngine::execute(
        &mut state, 0,
        "SELECT inventory, updated_at FROM t WHERE uuid = ?",
        &[Value::Text("abc-123".into())],
        None,
    ).unwrap();
    assert_eq!(rows.rows[0].get("inventory"), Some(&Value::Text("new".into())));
    assert_eq!(rows.rows[0].get("updated_at"), Some(&Value::Integer(200)));
}

#[test]
fn multi_row_insert_inserts_every_row() {
    let mut state = new_state();
    SqlEngine::execute(&mut state, 0, "CREATE TABLE t (a INTEGER, b INTEGER)", &[], None).unwrap();
    let result = SqlEngine::execute(
        &mut state, 0,
        "INSERT INTO t (a, b) VALUES (1, 2), (3, 4), (5, 6)",
        &[], None,
    ).unwrap();
    assert_eq!(result.affected_rows, Some(3));
    let rows = SqlEngine::execute(&mut state, 0, "SELECT a, b FROM t ORDER BY a", &[], None).unwrap();
    assert_eq!(rows.rows.len(), 3);
    assert_eq!(rows.rows[2].get("a"), Some(&Value::Integer(5)));
}

#[test]
fn update_set_can_reference_other_columns() {
    let mut state = new_state();
    SqlEngine::execute(&mut state, 0, "CREATE TABLE t (a INTEGER, b INTEGER)", &[], None).unwrap();
    SqlEngine::execute(&mut state, 0, "INSERT INTO t (a, b) VALUES (10, 0)", &[], None).unwrap();
    SqlEngine::execute(&mut state, 0, "UPDATE t SET b = a + 1", &[], None).unwrap();
    let rows = SqlEngine::execute(&mut state, 0, "SELECT b FROM t", &[], None).unwrap();
    assert_eq!(rows.rows[0].get("b"), Some(&Value::Integer(11)));
}

#[test]
fn transaction_rollback_undoes_insert_and_update() {
    let mut state = new_state();
    SqlEngine::execute(&mut state, 0, "CREATE TABLE t (a INTEGER)", &[], None).unwrap();
    SqlEngine::execute(&mut state, 0, "INSERT INTO t (a) VALUES (1)", &[], None).unwrap();

    let tx = state.txns.begin(0);
    SqlEngine::execute_single_statement(
        &mut state, 0,
        parse_statements("INSERT INTO t (a) VALUES (2)").unwrap().remove(0),
        &[], Some(tx),
    ).unwrap();
    SqlEngine::execute_single_statement(
        &mut state, 0,
        parse_statements("UPDATE t SET a = 99 WHERE a = 1").unwrap().remove(0),
        &[], Some(tx),
    ).unwrap();

    let mid = SqlEngine::execute(&mut state, 0, "SELECT a FROM t ORDER BY a", &[], None).unwrap();
    assert_eq!(mid.rows.len(), 2);

    TxnManager::rollback(&mut state, tx).unwrap();

    let after = SqlEngine::execute(&mut state, 0, "SELECT a FROM t ORDER BY a", &[], None).unwrap();
    assert_eq!(after.rows.len(), 1);
    assert_eq!(after.rows[0].get("a"), Some(&Value::Integer(1)));
}

#[test]
fn autocommit_insert_is_atomic_on_constraint_failure() {
    let mut state = new_state();
    SqlEngine::execute(&mut state, 0, "CREATE TABLE t (a INTEGER UNIQUE)", &[], None).unwrap();
    SqlEngine::execute(&mut state, 0, "INSERT INTO t (a) VALUES (1)", &[], None).unwrap();

    let err = SqlEngine::execute(&mut state, 0, "INSERT INTO t (a) VALUES (2), (1)", &[], None);
    assert!(err.is_err());

    let rows = SqlEngine::execute(&mut state, 0, "SELECT a FROM t", &[], None).unwrap();
    assert_eq!(rows.rows.len(), 1, "partial insert must have been rolled back");
}

#[test]
fn statements_that_are_already_read_can_be_run() {
    let mut state = new_state();
    SqlEngine::execute(&mut state, 0, "CREATE TABLE t (a INTEGER)", &[], None).unwrap();
    let insert = parse_statements("INSERT INTO t (a) VALUES (?), (3)").unwrap().remove(0);
    let r = execute_insert(&mut state, 0, &insert, &[Value::Integer(1)], None).unwrap();
    assert_eq!(r.affected_rows, Some(2));
    let update = parse_statements("UPDATE t SET a = a * 2").unwrap().remove(0);
    assert_eq!(execute_update(&mut state, 0, &update, &[], None).unwrap().affected_rows, Some(2));
    let delete = parse_statements("DELETE FROM t WHERE a = 2").unwrap().remove(0);
    assert_eq!(execute_delete(&mut state, 0, &delete, &[], None).unwrap().affected_rows, Some(1));
    assert!(execute_insert(&mut state, 0, &delete, &[], None).is_err());
}

#[test]
fn triggers_can_be_fired_for_a_row() {
    let mut state = new_state();
    SqlEngine::execute(&mut state, 0, "CREATE TABLE t (a INTEGER)", &[], None).unwrap();
    SqlEngine::execute(&mut state, 0, "CREATE TABLE log (a INTEGER)", &[], None).unwrap();
    SqlEngine::execute(
        &mut state, 0,
        "CREATE TRIGGER tr AFTER DELETE ON t BEGIN INSERT INTO log (a) VALUES (OLD.a); END",
        &[], None,
    ).unwrap();
    let row: Row = [("a".to_string(), Value::Integer(4))].into_iter().collect();
    fire_triggers(&mut state, 0, "t", TriggerEvent::Delete, TriggerTiming::After, Some(&row), None, None).unwrap();
    fire_triggers(&mut state, 0, "t", TriggerEvent::Delete, TriggerTiming::Before, Some(&row), None, None).unwrap();
    let rows = SqlEngine::execute(&mut state, 0, "SELECT a FROM log", &[], None).unwrap();
    assert_eq!(rows.rows.len(), 1);
    assert_eq!(rows.rows[0].get("a"), Some(&Value::Integer(4)));
}

#[test]
fn set_parameters_end_where_those_of_the_condition_begin() {
    let mut state = new_state();
    SqlEngine::execute(&mut state, 0, "CREATE TABLE t (a INTEGER, b TEXT)", &[], None).unwrap();
    SqlEngine::execute(&mut state, 0, "INSERT INTO t VALUES (1, 'x'), (2, 'y')", &[], None).unwrap();
    let done = SqlEngine::execute(
        &mut state,
        0,
        "UPDATE t SET b = CASE WHEN a BETWEEN ? AND ? THEN ? ELSE ? END WHERE a = ?",
        &[
            Value::Integer(0),
            Value::Integer(1),
            Value::Text("in".into()),
            Value::Text("out".into()),
            Value::Integer(1),
        ],
        None,
    )
    .unwrap();
    assert_eq!(done.affected_rows, Some(1));
    let rows = SqlEngine::execute(&mut state, 0, "SELECT a, b FROM t", &[], None).unwrap().rows;
    assert_eq!(rows[0].get("a"), Some(&Value::Integer(1)));
    assert_eq!(rows[0].get("b"), Some(&Value::Text("in".into())));
    assert_eq!(rows[1].get("b"), Some(&Value::Text("y".into())));
}

#[test]
fn a_trigger_tells_names_apart_that_start_alike() {
    let mut state = new_state();
    let mut run = |sql: &str| SqlEngine::execute(&mut state, 0, sql, &[], None).unwrap().rows;
    run("CREATE TABLE t (id TEXT, id2 TEXT)");
    run("CREATE TABLE log (a TEXT, b TEXT)");
    run("CREATE TRIGGER tr AFTER INSERT ON t BEGIN INSERT INTO log (a, b) VALUES (NEW.id, NEW.id2); END");
    run("INSERT INTO t (id, id2) VALUES ('first', 'second')");
    run("INSERT INTO t (id, id2) VALUES ('NEW.id2', 'x')");
    let rows = run("SELECT a, b FROM log ORDER BY b DESC");
    assert_eq!(rows.len(), 2);
    assert_eq!(rows[0].get("a"), Some(&Value::Text("NEW.id2".into())));
    assert_eq!(rows[0].get("b"), Some(&Value::Text("x".into())));
    assert_eq!(rows[1].get("a"), Some(&Value::Text("first".into())));
    assert_eq!(rows[1].get("b"), Some(&Value::Text("second".into())));
}
