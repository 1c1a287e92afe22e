use skvs::config::DatabaseConfig;
use skvs::schema::Value;
use skvs::sql::SqlEngine;
use skvs::state::KvsState;

fn new_state() -> KvsState {
    KvsState::new(&[DatabaseConfig { id: 0, name: "default".into() }])
}

#[test]
fn table_level_primary_key_is_enforced() {
    let mut state = new_state();
    SqlEngine::execute(&mut state, 0, "CREATE TABLE t (id INTEGER, name TEXT, PRIMARY KEY(id))", &[], None).unwrap();
    SqlEngine::execute(&mut state, 0, "INSERT INTO t (id, name) VALUES (1, 'a')", &[], None).unwrap();
    let err = SqlEngine::execute(&mut state, 0, "INSERT INTO t (id, name) VALUES (1, 'b')", &[], None);
    assert!(err.is_err(), "duplicate primary key should be rejected");
}

#[test]
fn column_default_is_actually_stored() {
    let mut state = new_state();
    SqlEngine::execute(&mut state, 0, "CREATE TABLE t (id INTEGER, status TEXT DEFAULT 'pending')", &[], None).unwrap();
    SqlEngine::execute(&mut state, 0, "INSERT INTO t (id) VALUES (1)", &[], None).unwrap();
    let rows = SqlEngine::execute(&mut state, 0, "SELECT status FROM t", &[], None).unwrap();
    assert_eq!(rows.rows[0].get("status"), Some(&Value::Text("pending".into())));
}

#[test]
fn foreign_key_requires_existing_row() {
    let mut state = new_state();
    SqlEngine::execute(&mut state, 0, "CREATE TABLE parent (id INTEGER PRIMARY KEY)", &[], None).unwrap();
    SqlEngine::execute(
        &mut state, 0,
        "CREATE TABLE child (id INTEGER PRIMARY KEY, parent_id INTEGER, FOREIGN KEY(parent_id) REFERENCES parent(id))",
        &[], None,
    ).unwrap();
    let err = SqlEngine::execute(&mut state, 0, "INSERT INTO child (id, parent_id) VALUES (1, 99)", &[], None);
    assert!(err.is_err(), "FK to a non-existent parent row should be rejected");

    SqlEngine::execute(&mut state, 0, "INSERT INTO parent (id) VALUES (99)", &[], None).unwrap();
    SqlEngine::execute(&mut state, 0, "INSERT INTO child (id, parent_id) VALUES (1, 99)", &[], None).unwrap();
}

#[test]
fn check_constraint_rejects_bad_values() {
    let mut state = new_state();
    SqlEngine::execute(&mut state, 0, "CREATE TABLE t (age INTEGER CHECK (age >= 0))", &[], None).unwrap();
    SqlEngine::execute(&mut state, 0, "INSERT INTO t (age) VALUES (5)", &[], None).unwrap();
    let err = SqlEngine::execute(&mut state, 0, "INSERT INTO t (age) VALUES (-1)", &[], None);
    assert!(err.is_err(), "negative age should fail the CHECK constraint");
}

#[test]
fn update_can_exclude_itself_from_unique_check() {
    let mut state = new_state();
    SqlEngine::execute(&mut state, 0, "CREATE TABLE t (id INTEGER PRIMARY KEY, email TEXT UNIQUE)", &[], None).unwrap();
    SqlEngine::execute(&mut state, 0, "INSERT INTO t (id, email) VALUES (1, 'a@x.com')", &[], None).unwrap();
    let result = SqlEngine::execute(&mut state, 0, "UPDATE t SET email = 'a@x.com' WHERE id = 1", &[], None).unwrap();
    assert_eq!(result.affected_rows, Some(1));
}

#[test]
fn a_trigger_that_writes_afterwards_cannot_break_a_key() {
    let mut state = new_state();
    SqlEngine::execute(&mut state, 0, "CREATE TABLE t (id INTEGER PRIMARY KEY, name TEXT)", &[], None).unwrap();
    SqlEngine::execute(
        &mut state,
        0,
        "CREATE TRIGGER tr AFTER INSERT ON t WHEN NEW.id > 10 BEGIN UPDATE t SET id = 1 WHERE id = NEW.id; END",
        &[],
        None,
    )
    .unwrap();
    SqlEngine::execute(&mut state, 0, "INSERT INTO t VALUES (11, 'a')", &[], None).unwrap();
    let err = SqlEngine::execute(&mut state, 0, "INSERT INTO t VALUES (12, 'b')", &[], None);
    assert!(err.is_err());
    let rows = SqlEngine::execute(&mut state, 0, "SELECT id, name FROM t", &[], None).unwrap().rows;
    assert_eq!(rows.len(), 1);
    assert_eq!(rows[0].get("id"), Some(&Value::Integer(1)));
    assert_eq!(rows[0].get("name"), Some(&Value::Text("a".into())));
}

#[test]
fn a_write_to_one_table_leaves_another_as_it_is() {
    let mut state = new_state();
    SqlEngine::execute(&mut state, 0, "CREATE TABLE t (id INTEGER PRIMARY KEY)", &[], None).unwrap();
    SqlEngine::execute(&mut state, 0, "CREATE TABLE u (id INTEGER PRIMARY KEY)", &[], None).unwrap();
    SqlEngine::execute(&mut state, 0, "INSERT INTO t VALUES (1), (2)", &[], None).unwrap();
    SqlEngine::execute(&mut state, 0, "INSERT INTO u VALUES (1)", &[], None).unwrap();
    SqlEngine::execute(&mut state, 0, "UPDATE u SET id = 7", &[], None).unwrap();
    SqlEngine::execute(&mut state, 0, "DELETE FROM u", &[], None).unwrap();
    let rows = SqlEngine::execute(&mut state, 0, "SELECT id FROM t", &[], None).unwrap().rows;
    assert_eq!(rows.len(), 2);
    assert_eq!(rows[0].get("id"), Some(&Value::Integer(1)));
    assert_eq!(rows[1].get("id"), Some(&Value::Integer(2)));
}
