use skvs::config::DatabaseConfig;
use skvs::error::SkvsError;
use skvs::schema::{DataType, FkAction, Value};
use skvs::sql::{QueryResult, SqlEngine};
use skvs::state::KvsState;

fn new_state() -> KvsState {
    KvsState::new(&[DatabaseConfig { id: 0, name: "default".into() }])
}

fn run(state: &mut KvsState, sql: &str) -> QueryResult {
    SqlEngine::execute(state, 0, sql, &[], None).unwrap()
}

fn fails(state: &mut KvsState, sql: &str) -> String {
    match SqlEngine::execute(state, 0, sql, &[], None) {
        Err(e) => e.message(),
        Ok(_) => panic!("{} should fail", sql),
    }
}

#[test]
fn a_table_is_defined_as_written() {
    let mut state = new_state();
    run(
        &mut state,
        "CREATE TABLE t (id INTEGER PRIMARY KEY, name TEXT NOT NULL DEFAULT 'none', score FLOAT UNIQUE, \
         parent INTEGER, CHECK (score > 0), UNIQUE (name, parent), \
         FOREIGN KEY (parent) REFERENCES p (id) ON DELETE CASCADE)",
    );
    let d = state.get_schema(0, "t").unwrap();
    let names: Vec<&String> = d.columns.keys().collect();
    assert_eq!(names, vec!["id", "name", "score", "parent"]);
    assert_eq!(d.rowid_column, Some("id".to_string()));
    let id = d.columns.get("id").unwrap();
    assert!(id.primary_key && id.not_null && id.unique);
    assert_eq!(id.data_type, DataType::Integer);
    let name = d.columns.get("name").unwrap();
    assert!(name.not_null && !name.unique);
    assert_eq!(name.default, Some(Value::Text("none".into())));
    assert!(d.columns.get("score").unwrap().unique);
    assert_eq!(d.table_checks.len(), 1);
    assert_eq!(d.unique_groups.len(), 1);
    assert_eq!(d.unique_groups[0].columns, vec!["name".to_string(), "parent".to_string()]);
    assert_eq!(d.foreign_keys.len(), 1);
    assert_eq!(d.foreign_keys[0].ref_table, "p");
    assert_eq!(d.foreign_keys[0].on_delete, FkAction::Cascade);
}

#[test]
fn a_table_is_created_once() {
    let mut state = new_state();
    run(&mut state, "CREATE TABLE t (a INTEGER)");
    assert_eq!(fails(&mut state, "CREATE TABLE t (b INTEGER)"), "Schema error: Table t already exists");
    run(&mut state, "CREATE TABLE IF NOT EXISTS t (b INTEGER)");
    assert!(state.get_schema(0, "t").unwrap().columns.get("a").is_some());
}

#[test]
fn a_dropped_table_is_gone_with_its_triggers() {
    let mut state = new_state();
    run(&mut state, "CREATE TABLE t (a INTEGER)");
    run(&mut state, "CREATE TRIGGER tr AFTER INSERT ON t BEGIN DELETE FROM t; END");
    run(&mut state, "DROP TABLE t");
    assert!(state.get_triggers(0, "t").is_empty());
    assert_eq!(fails(&mut state, "SELECT * FROM t"), "Schema error: Table t not found");
    assert_eq!(fails(&mut state, "DROP TABLE t"), "Schema error: Table t not found");
    run(&mut state, "DROP TABLE IF EXISTS t");
}

#[test]
fn alter_table_changes_definition_and_rows() {
    let mut state = new_state();
    run(&mut state, "CREATE TABLE t (a INTEGER, b TEXT)");
    run(&mut state, "INSERT INTO t (a, b) VALUES (1, 'x')");
    run(&mut state, "ALTER TABLE t ADD COLUMN c INTEGER DEFAULT 5");
    assert_eq!(run(&mut state, "SELECT c FROM t").rows[0].get("c"), Some(&Value::Integer(5)));
    run(&mut state, "ALTER TABLE t RENAME COLUMN a TO z");
    let r = run(&mut state, "SELECT * FROM t");
    assert_eq!(r.rows[0].get("z"), Some(&Value::Integer(1)));
    assert_eq!(r.rows[0].get("a"), None);
    let names: Vec<&String> = state.get_schema(0, "t").unwrap().columns.keys().collect();
    assert_eq!(names, vec!["z", "b", "c"]);
    run(&mut state, "ALTER TABLE t DROP COLUMN b");
    assert_eq!(run(&mut state, "SELECT * FROM t").rows[0].get("b"), None);
    run(&mut state, "ALTER TABLE t RENAME TO u");
    assert_eq!(run(&mut state, "SELECT z FROM u").rows.len(), 1);
    assert_eq!(fails(&mut state, "SELECT z FROM t"), "Schema error: Table t not found");
    assert_eq!(fails(&mut state, "ALTER TABLE u DROP COLUMN q"), "Schema error: Column q not found");
    assert_eq!(fails(&mut state, "ALTER TABLE u RENAME COLUMN q TO r"), "Schema error: Column q not found");
    assert_eq!(fails(&mut state, "ALTER TABLE u ADD COLUMN c TEXT"), "Schema error: Column c already exists");
    assert_eq!(fails(&mut state, "ALTER TABLE nope ADD COLUMN c TEXT"), "Schema error: Table nope not found");
}

#[test]
fn an_index_moves_with_its_table() {
    let mut state = new_state();
    run(&mut state, "CREATE TABLE t (a INTEGER)");
    run(&mut state, "CREATE INDEX i ON t (a)");
    run(&mut state, "INSERT INTO t (a) VALUES (4)");
    run(&mut state, "ALTER TABLE t RENAME TO u");
    assert_eq!(skvs::index::lookup_index(&state, 0, "u", "i", &Value::Integer(4)), vec![1]);
    assert_eq!(skvs::index::lookup_index(&state, 0, "t", "i", &Value::Integer(4)), Vec::<u64>::new());
}

#[test]
fn indexes_are_created_and_dropped_by_name() {
    let mut state = new_state();
    run(&mut state, "CREATE TABLE t (a INTEGER)");
    run(&mut state, "INSERT INTO t (a) VALUES (4)");
    run(&mut state, "CREATE INDEX i ON t (a)");
    assert_eq!(skvs::index::lookup_index(&state, 0, "t", "i", &Value::Integer(4)), vec![1]);
    assert_eq!(fails(&mut state, "CREATE INDEX i ON t (a)"), "Schema error: Index i already exists");
    run(&mut state, "CREATE INDEX IF NOT EXISTS i ON t (a)");
    run(&mut state, "DROP INDEX i");
    assert!(state.get_schema(0, "t").unwrap().indices.is_empty());
    assert_eq!(fails(&mut state, "DROP INDEX i"), "Schema error: Index i not found");
    run(&mut state, "DROP INDEX IF EXISTS i");
    assert_eq!(fails(&mut state, "CREATE INDEX i ON nope (a)"), "Schema error: Table nope not found");
}

#[test]
fn indexes_whose_names_run_together_stay_apart() {
    let mut state = new_state();
    assert_ne!(skvs::state::index_name("ab", "c"), skvs::state::index_name("a", "bc"));
    run(&mut state, "CREATE TABLE ab (x INTEGER)");
    run(&mut state, "CREATE TABLE a (x INTEGER)");
    run(&mut state, "CREATE INDEX c ON ab (x)");
    run(&mut state, "CREATE INDEX bc ON a (x)");
    run(&mut state, "INSERT INTO ab (x) VALUES (1)");
    assert_eq!(skvs::index::lookup_index(&state, 0, "a", "bc", &Value::Integer(1)), Vec::<u64>::new());
}

#[test]
fn views_are_created_and_dropped() {
    let mut state = new_state();
    run(&mut state, "CREATE TABLE t (a INTEGER)");
    run(&mut state, "CREATE VIEW v AS SELECT a FROM t");
    assert_eq!(skvs::view::resolve_view(&state, 0, "v"), Some("SELECT a FROM t".to_string()));
    run(&mut state, "DROP VIEW v");
    assert_eq!(skvs::view::resolve_view(&state, 0, "v"), None);
    assert!(matches!(
        skvs::view::create_view(&mut state, 0, "w", "DELETE FROM t"),
        Err(SkvsError::Unsupported(_))
    ));
    assert!(matches!(
        skvs::view::create_view(&mut state, 0, "w", "SELECT 1; SELECT 2"),
        Err(SkvsError::Unsupported(_))
    ));
    assert!(matches!(skvs::view::create_view(&mut state, 0, "w", "SELEC"), Err(SkvsError::SqlParse(_))));
    assert!(matches!(state.remove_view(9, "w"), Err(SkvsError::Schema(_))));
}

#[test]
fn triggers_fire_at_their_time_and_under_their_condition() {
    let mut state = new_state();
    run(&mut state, "CREATE TABLE t (a INTEGER)");
    run(&mut state, "CREATE TABLE log (what TEXT, v INTEGER)");
    run(&mut state, "CREATE TRIGGER t1 BEFORE INSERT ON t BEGIN INSERT INTO log (what, v) VALUES ('before', NEW.a); END");
    run(
        &mut state,
        "CREATE TRIGGER t2 AFTER UPDATE ON t WHEN NEW.a > OLD.a BEGIN INSERT INTO log (what, v) VALUES ('up', OLD.a); END",
    );
    run(&mut state, "CREATE TRIGGER t3 AFTER DELETE ON t BEGIN INSERT INTO log (what, v) VALUES ('gone', OLD.a); END");
    run(&mut state, "INSERT INTO t (a) VALUES (1)");
    run(&mut state, "UPDATE t SET a = 5");
    run(&mut state, "UPDATE t SET a = 2");
    run(&mut state, "DELETE FROM t");
    let r = run(&mut state, "SELECT what, v FROM log");
    let seen: Vec<(Value, Value)> =
        r.rows.iter().map(|x| (x.get("what").cloned().unwrap(), x.get("v").cloned().unwrap())).collect();
    assert_eq!(
        seen,
        vec![
            (Value::Text("before".into()), Value::Integer(1)),
            (Value::Text("up".into()), Value::Integer(1)),
            (Value::Text("gone".into()), Value::Integer(2)),
        ]
    );
}

#[test]
fn a_trigger_that_cannot_be_read_is_refused() {
    let mut state = new_state();
    run(&mut state, "CREATE TABLE t (a INTEGER)");
    for bad in ["CREATE TRIGGER x", "CREATE TRIGGER x SOMETIMES INSERT ON t BEGIN END", "CREATE TRIGGER x AFTER INSERT ON t"] {
        assert!(SqlEngine::execute(&mut state, 0, bad, &[], None).is_err());
    }
    assert!(state.get_triggers(0, "t").is_empty());
}

#[test]
fn text_in_a_trigger_body_is_quoted() {
    let mut state = new_state();
    run(&mut state, "CREATE TABLE t (a TEXT)");
    run(&mut state, "CREATE TABLE log (a TEXT)");
    run(&mut state, "CREATE TRIGGER tr AFTER INSERT ON t BEGIN INSERT INTO log (a) VALUES (NEW.a); END");
    SqlEngine::execute(&mut state, 0, "INSERT INTO t (a) VALUES (?)", &[Value::Text("it's".into())], None).unwrap();
    assert_eq!(run(&mut state, "SELECT a FROM log").rows[0].get("a"), Some(&Value::Text("it's".into())));
}

#[test]
fn keys_differ_after_any_write() {
    let mut state = new_state();
    run(&mut state, "CREATE TABLE t (a INTEGER, b INTEGER, c INTEGER UNIQUE, PRIMARY KEY (a, b))");
    run(&mut state, "INSERT INTO t (a, b, c) VALUES (1, 1, 1), (1, 2, 2), (2, 1, NULL), (2, 2, NULL)");
    assert_eq!(
        fails(&mut state, "INSERT INTO t (a, b, c) VALUES (1, 2, 9)"),
        "Constraint violation: PRIMARY KEY constraint failed: t(a, b)"
    );
    assert_eq!(
        fails(&mut state, "INSERT INTO t (a, b, c) VALUES (3, 3, 2)"),
        "Constraint violation: UNIQUE constraint failed: t.c"
    );
    assert_eq!(fails(&mut state, "INSERT INTO t (a, c) VALUES (5, 5)"), "Constraint violation: b cannot be NULL");
    assert_eq!(
        fails(&mut state, "UPDATE t SET b = 1 WHERE a = 1 AND b = 2"),
        "Constraint violation: PRIMARY KEY constraint failed: t(a, b)"
    );
    assert_eq!(run(&mut state, "SELECT a FROM t").rows.len(), 4);
}

#[test]
fn every_constraint_has_its_message() {
    let mut state = new_state();
    run(&mut state, "CREATE TABLE p (id INTEGER PRIMARY KEY)");
    run(
        &mut state,
        "CREATE TABLE t (a INTEGER NOT NULL, b INTEGER CHECK (b > 0), c INTEGER, CHECK (a <> b), \
         FOREIGN KEY (c) REFERENCES p (id))",
    );
    assert_eq!(fails(&mut state, "INSERT INTO t (b) VALUES (1)"), "Constraint violation: a cannot be NULL");
    assert_eq!(
        fails(&mut state, "INSERT INTO t (a, b) VALUES (1, -1)"),
        "Constraint violation: CHECK constraint failed: t.b (b > 0)"
    );
    assert_eq!(
        fails(&mut state, "INSERT INTO t (a, b) VALUES (1, 1)"),
        "Constraint violation: CHECK constraint failed: t (a <> b)"
    );
    assert_eq!(
        fails(&mut state, "INSERT INTO t (a, b, c) VALUES (1, 2, 3)"),
        "Constraint violation: FOREIGN KEY constraint failed: t.c -> p.id"
    );
    run(&mut state, "INSERT INTO p (id) VALUES (3)");
    run(&mut state, "INSERT INTO t (a, b, c) VALUES (1, 2, 3)");
}

#[test]
fn an_omitted_integer_key_is_filled_from_the_row_id() {
    let mut state = new_state();
    run(&mut state, "CREATE TABLE t (id INTEGER PRIMARY KEY, n TEXT)");
    run(&mut state, "INSERT INTO t (n) VALUES ('a'), ('b')");
    let r = run(&mut state, "SELECT id FROM t ORDER BY id");
    assert_eq!(r.rows[0].get("id"), Some(&Value::Integer(1)));
    assert_eq!(r.rows[1].get("id"), Some(&Value::Integer(2)));
}
