use skvs::config::DatabaseConfig;
use skvs::error::SkvsError;
use skvs::schema::Value;
use skvs::sql::{QueryResult, SqlEngine};
use skvs::state::KvsState;
use skvs::transaction::TxnManager;

fn new_state() -> KvsState {
    KvsState::new(&[DatabaseConfig { id: 0, name: "default".into() }])
}

fn run(state: &mut KvsState, sql: &str) -> QueryResult {
    SqlEngine::execute(state, 0, sql, &[], None).unwrap()
}

fn within(state: &mut KvsState, tx: u32, sql: &str) -> QueryResult {
    SqlEngine::execute(state, 0, sql, &[], Some(tx)).unwrap()
}

fn column(r: &QueryResult, name: &str) -> Vec<Value> {
    r.rows.iter().map(|x| x.get(name).cloned().unwrap()).collect()
}

#[test]
fn begin_statements_rollback_brings_the_rows_back() {
    let mut state = new_state();
    run(&mut state, "CREATE TABLE t (a INTEGER, b TEXT)");
    run(&mut state, "INSERT INTO t (a, b) VALUES (1, 'x'), (2, 'y'), (3, 'z')");
    let tx = run(&mut state, "BEGIN").tx_id.unwrap();
    assert!(state.txns.is_active(tx));
    within(&mut state, tx, "INSERT INTO t (a, b) VALUES (4, 'w')");
    within(&mut state, tx, "UPDATE t SET a = a + 10 WHERE a < 3");
    within(&mut state, tx, "UPDATE t SET b = 'changed twice' WHERE a = 11");
    within(&mut state, tx, "DELETE FROM t WHERE a = 3");
    within(&mut state, tx, "ROLLBACK");
    assert!(!state.txns.is_active(tx));
    let rows = run(&mut state, "SELECT a, b FROM t ORDER BY a");
    assert_eq!(column(&rows, "a"), vec![Value::Integer(1), Value::Integer(2), Value::Integer(3)]);
    assert_eq!(
        column(&rows, "b"),
        vec![Value::Text("x".into()), Value::Text("y".into()), Value::Text("z".into())]
    );
}

#[test]
fn commit_keeps_what_was_written() {
    let mut state = new_state();
    run(&mut state, "CREATE TABLE t (a INTEGER)");
    let tx = run(&mut state, "BEGIN").tx_id.unwrap();
    within(&mut state, tx, "INSERT INTO t (a) VALUES (5)");
    within(&mut state, tx, "COMMIT");
    assert!(!state.txns.is_active(tx));
    assert_eq!(column(&run(&mut state, "SELECT a FROM t"), "a"), vec![Value::Integer(5)]);
    assert!(TxnManager::rollback(&mut state, tx).is_err());
    assert_eq!(run(&mut state, "SELECT a FROM t").rows.len(), 1);
}

#[test]
fn rollback_undoes_what_triggers_wrote() {
    let mut state = new_state();
    run(&mut state, "CREATE TABLE t (a INTEGER)");
    run(&mut state, "CREATE TABLE log (a INTEGER)");
    run(&mut state, "CREATE TRIGGER tr AFTER INSERT ON t BEGIN INSERT INTO log (a) VALUES (NEW.a); END");
    let tx = run(&mut state, "BEGIN").tx_id.unwrap();
    within(&mut state, tx, "INSERT INTO t (a) VALUES (1)");
    assert_eq!(run(&mut state, "SELECT a FROM log").rows.len(), 1);
    within(&mut state, tx, "ROLLBACK");
    assert_eq!(run(&mut state, "SELECT a FROM t").rows.len(), 0);
    assert_eq!(run(&mut state, "SELECT a FROM log").rows.len(), 0);
}

#[test]
fn a_failing_trigger_undoes_the_whole_statement() {
    let mut state = new_state();
    run(&mut state, "CREATE TABLE t (a INTEGER)");
    run(&mut state, "CREATE TABLE log (a INTEGER UNIQUE)");
    run(&mut state, "INSERT INTO log (a) VALUES (2)");
    run(&mut state, "CREATE TRIGGER tr AFTER INSERT ON t BEGIN INSERT INTO log (a) VALUES (NEW.a); END");
    let r = SqlEngine::execute(&mut state, 0, "INSERT INTO t (a) VALUES (1), (2)", &[], None);
    assert!(matches!(r, Err(SkvsError::ConstraintViolation(_))));
    assert_eq!(run(&mut state, "SELECT a FROM t").rows.len(), 0);
    assert_eq!(column(&run(&mut state, "SELECT a FROM log"), "a"), vec![Value::Integer(2)]);
}

#[test]
fn indexes_follow_a_rollback() {
    let mut state = new_state();
    run(&mut state, "CREATE TABLE t (a INTEGER)");
    run(&mut state, "CREATE INDEX ia ON t (a)");
    run(&mut state, "INSERT INTO t (a) VALUES (1), (2)");
    let tx = run(&mut state, "BEGIN").tx_id.unwrap();
    within(&mut state, tx, "UPDATE t SET a = 9 WHERE a = 1");
    within(&mut state, tx, "DELETE FROM t WHERE a = 2");
    within(&mut state, tx, "INSERT INTO t (a) VALUES (2)");
    assert_eq!(skvs::index::lookup_index(&state, 0, "t", "ia", &Value::Integer(2)), vec![3]);
    within(&mut state, tx, "ROLLBACK");
    assert_eq!(skvs::index::lookup_index(&state, 0, "t", "ia", &Value::Integer(1)), vec![1]);
    assert_eq!(skvs::index::lookup_index(&state, 0, "t", "ia", &Value::Integer(2)), vec![2]);
    assert_eq!(skvs::index::lookup_index(&state, 0, "t", "ia", &Value::Integer(9)), Vec::<u64>::new());
}

#[test]
fn the_full_text_index_follows_a_rollback() {
    let mut state = new_state();
    run(&mut state, "CREATE VIRTUAL TABLE docs USING fts5(body)");
    run(&mut state, "INSERT INTO docs (body) VALUES ('old words')");
    let tx = run(&mut state, "BEGIN").tx_id.unwrap();
    within(&mut state, tx, "UPDATE docs SET body = 'new text'");
    assert_eq!(run(&mut state, "SELECT body FROM docs WHERE fts_match(docs, 'old')").rows.len(), 0);
    within(&mut state, tx, "ROLLBACK");
    assert_eq!(run(&mut state, "SELECT body FROM docs WHERE fts_match(docs, 'old')").rows.len(), 1);
    assert_eq!(run(&mut state, "SELECT body FROM docs WHERE fts_match(docs, 'new')").rows.len(), 0);
}

#[test]
fn a_failed_update_leaves_every_row_as_it_was() {
    let mut state = new_state();
    run(&mut state, "CREATE TABLE t (a INTEGER UNIQUE)");
    run(&mut state, "INSERT INTO t (a) VALUES (1), (2), (3)");
    let r = SqlEngine::execute(&mut state, 0, "UPDATE t SET a = a + 1", &[], None);
    assert!(r.is_err());
    let rows = run(&mut state, "SELECT a FROM t ORDER BY a");
    assert_eq!(column(&rows, "a"), vec![Value::Integer(1), Value::Integer(2), Value::Integer(3)]);
}

#[test]
fn ids_are_not_given_out_twice_after_a_rollback() {
    let mut state = new_state();
    run(&mut state, "CREATE TABLE t (a INTEGER)");
    let tx = run(&mut state, "BEGIN").tx_id.unwrap();
    within(&mut state, tx, "INSERT INTO t (a) VALUES (1)");
    within(&mut state, tx, "ROLLBACK");
    run(&mut state, "INSERT INTO t (a) VALUES (2)");
    assert_eq!(state.get_table_store(0, "t").unwrap().ids(), vec![2]);
}

#[test]
fn commit_and_rollback_need_a_transaction() {
    let mut state = new_state();
    match SqlEngine::execute(&mut state, 0, "COMMIT", &[], None) {
        Err(e) => assert_eq!(e.message(), "Transaction error: COMMIT with no active transaction id"),
        Ok(_) => panic!("no transaction"),
    }
    match SqlEngine::execute(&mut state, 0, "ROLLBACK", &[], None) {
        Err(e) => assert_eq!(e.message(), "Transaction error: ROLLBACK with no active transaction id"),
        Ok(_) => panic!("no transaction"),
    }
    match SqlEngine::execute(&mut state, 0, "COMMIT", &[], Some(77)) {
        Err(e) => assert_eq!(e.message(), "Transaction error: No active transaction 77"),
        Ok(_) => panic!("no transaction"),
    }
    assert!(matches!(
        SqlEngine::execute(&mut state, 0, "ROLLBACK", &[], Some(77)),
        Err(SkvsError::Transaction(_))
    ));
}

#[test]
fn transactions_get_ids_upwards() {
    let mut state = new_state();
    let a = state.txns.begin(0);
    let b = state.txns.begin(0);
    assert_eq!((a, b), (1, 2));
    assert!(state.txns.commit(a).is_ok());
    assert!(state.txns.commit(a).is_err());
    assert!(state.txns.is_active(b));
}

#[test]
fn a_rollback_without_a_transaction_changes_nothing() {
    let mut state = new_state();
    run(&mut state, "CREATE TABLE t (a INTEGER)");
    run(&mut state, "INSERT INTO t (a) VALUES (1)");
    let tx = state.txns.begin(0);
    within(&mut state, tx, "UPDATE t SET a = 2");
    assert!(matches!(TxnManager::rollback(&mut state, tx + 1), Err(SkvsError::Transaction(_))));
    assert!(state.txns.is_active(tx));
    assert_eq!(column(&run(&mut state, "SELECT a FROM t"), "a"), vec![Value::Integer(2)]);
    assert!(TxnManager::rollback(&mut state, tx).is_ok());
    assert!(!state.txns.is_active(tx));
    assert_eq!(column(&run(&mut state, "SELECT a FROM t"), "a"), vec![Value::Integer(1)]);
}
