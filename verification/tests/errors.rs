use skvs::config::DatabaseConfig;
use skvs::error::SkvsError;
use skvs::sql::parser::is_unreadable;
use skvs::sql::SqlEngine;
use skvs::state::KvsState;

fn new_state() -> KvsState {
    KvsState::new(&[DatabaseConfig { id: 0, name: "default".into() }])
}

fn failure(state: &mut KvsState, sql: &str) -> SkvsError {
    match SqlEngine::execute(state, 0, sql, &[], None) {
        Err(e) => e,
        Ok(_) => panic!("{} should fail", sql),
    }
}

#[test]
fn messages_name_the_kind_of_error() {
    assert_eq!(SkvsError::Config("x".into()).message(), "Config error: x");
    assert_eq!(SkvsError::Io("x".into()).message(), "I/O error: x");
    assert_eq!(SkvsError::Serialization("x".into()).message(), "Serialization error: x");
    assert_eq!(SkvsError::SqlParse("x".into()).message(), "SQL parse error: x");
    assert_eq!(SkvsError::ConstraintViolation("x".into()).message(), "Constraint violation: x");
    assert_eq!(SkvsError::Unsupported("x".into()).message(), "Unsupported operation: x");
    assert_eq!(SkvsError::Transaction("x".into()).message(), "Transaction error: x");
    assert_eq!(SkvsError::Schema("x".into()).message(), "Schema error: x");
    assert_eq!(SkvsError::Storage("x".into()).message(), "Storage error: x");
    assert_eq!(SkvsError::Trigger("x".into()).message(), "Trigger error: x");
    assert_eq!(SkvsError::View("x".into()).message(), "View error: x");
    assert_eq!(SkvsError::Json("x".into()).message(), "JSON error: x");
    assert_eq!(SkvsError::Fts("x".into()).message(), "FTS error: x");
}

#[test]
fn text_that_is_no_sql() {
    let mut state = new_state();
    assert!(matches!(failure(&mut state, "SELEC 1"), SkvsError::SqlParse(_)));
}

#[test]
fn one_statement_at_a_time() {
    let mut state = new_state();
    assert_eq!(
        failure(&mut state, "SELECT 1; SELECT 2").message(),
        "Unsupported operation: Multiple statements not supported"
    );
    assert!(matches!(failure(&mut state, ""), SkvsError::Unsupported(_)));
}

#[test]
fn statements_that_are_not_supported() {
    let mut state = new_state();
    assert!(matches!(failure(&mut state, "CREATE SCHEMA s"), SkvsError::Unsupported(_)));
    assert!(matches!(failure(&mut state, "SELECT 1 UNION SELECT 2"), SkvsError::Unsupported(_)));
    assert!(matches!(failure(&mut state, "CREATE VIRTUAL TABLE v USING rtree(a)"), SkvsError::Unsupported(_)));
}

#[test]
fn tables_that_are_not_there() {
    let mut state = new_state();
    for sql in ["SELECT * FROM t", "INSERT INTO t (a) VALUES (1)", "UPDATE t SET a = 1", "DELETE FROM t"] {
        assert_eq!(failure(&mut state, sql).message(), "Schema error: Table t not found");
    }
}

#[test]
fn a_table_that_has_given_out_all_ids() {
    let mut state = new_state();
    SqlEngine::execute(&mut state, 0, "CREATE TABLE t (a INTEGER)", &[], None).unwrap();
    state.set_min_next_rowid(0, "t", u64::MAX);
    assert_eq!(
        failure(&mut state, "INSERT INTO t (a) VALUES (1)").message(),
        "Storage error: No row ids left for table t"
    );
}

#[test]
fn databases_that_are_not_there() {
    let mut state = new_state();
    match SqlEngine::execute(&mut state, 8, "ALTER TABLE t ADD COLUMN a TEXT", &[], None) {
        Err(e) => assert_eq!(e.message(), "Schema error: Database 8 not found"),
        Ok(_) => panic!("there is no such database"),
    }
}

#[test]
fn numbers_and_names_that_the_grammar_has_no_place_for() {
    let mut state = new_state();
    for sql in [
        "CREATE TABLE t (a INTEGER) AUTO_INCREMENT = 4294967296",
        "CREATE TABLE t (a INTEGER) AUTO_INCREMENT = 1.5",
        "GRANT SELECT ON t TO u GRANTED BY 1",
        "REVOKE SELECT ON t FROM u GRANTED BY 1",
    ] {
        assert!(matches!(failure(&mut state, sql), SkvsError::SqlParse(_)), "{}", sql);
    }
    SqlEngine::execute(&mut state, 0, "CREATE TABLE t (a INTEGER) AUTO_INCREMENT = 4294967295", &[], None).unwrap();
    assert!(state.get_schema(0, "t").is_some());
}

#[test]
fn options_of_tables_are_told_from_columns_and_queries() {
    for sql in [
        "CREATE TABLE t (as select) AUTO_INCREMENT = 99999999999",
        "CREATE OR REPLACE TABLE IF NOT EXISTS a.t (b INTEGER) AUTO_INCREMENT 99999999999",
        "CREATE TABLE as AUTO_INCREMENT = 99999999999",
        "CREATE TABLE t LIKE ( AUTO_INCREMENT = 99999999999",
        "CREATE TABLE t LIKE ; AUTO_INCREMENT = 99999999999",
        "CREATE TABLE t (a INTEGER DEFAULT 1 OPERATOR(() 2) AUTO_INCREMENT = 99999999999",
        "CREATE TABLE t (a INTEGER DEFAULT f(1) FILTER ( ) AUTO_INCREMENT = 99999999999",
        "CREATE TABLE t (a INTEGER DEFAULT (SELECT (1) AS select)) AUTO_INCREMENT = 99999999999",
        "EXPLAIN CREATE TABLE t AUTO_INCREMENT = 1.5",
        "PREPARE p AS CREATE TABLE t AUTO_INCREMENT = 1.5",
        "SELECT 1; GRANT SELECT ON t TO u GRANTED BY",
    ] {
        assert!(is_unreadable(sql), "{}", sql);
        assert!(matches!(failure(&mut new_state(), sql), SkvsError::SqlParse(_)), "{}", sql);
    }
}

#[test]
fn words_of_options_can_be_names() {
    let mut state = new_state();
    for sql in [
        "CREATE TABLE t (a INTEGER, auto_increment REAL, CHECK (a > 0 OR auto_increment = 1.5))",
        "CREATE TABLE u AS WITH x AS (SELECT 1) SELECT * FROM x WHERE auto_increment = 1.5",
        "CREATE TABLE v (a INTEGER) AS SELECT a FROM t WHERE auto_increment = 1.5",
        "INSERT INTO t (a, auto_increment) VALUES (1, 1.5), (2, 1.5)",
    ] {
        assert!(!is_unreadable(sql), "{}", sql);
        assert!(SqlEngine::execute(&mut state, 0, sql, &[], None).is_ok(), "{}", sql);
    }
    let r = SqlEngine::execute(&mut state, 0, "SELECT * FROM t LIMIT granted BY 1", &[], None).unwrap();
    assert_eq!(r.rows.len(), 2);
}
