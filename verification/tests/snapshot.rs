use skvs::config::DatabaseConfig;
use skvs::schema::Value;
use skvs::sql::{QueryResult, SqlEngine};
use skvs::state::KvsState;
use skvs::wal::{dump_database, restore_database, DatabaseDump};

fn new_state() -> KvsState {
    KvsState::new(&[DatabaseConfig { id: 0, name: "default".into() }])
}

fn run(state: &mut KvsState, sql: &str) -> QueryResult {
    SqlEngine::execute(state, 0, sql, &[], None).unwrap()
}

fn restarted(state: &KvsState) -> KvsState {
    let dump = dump_database(state, 0);
    let mut fresh = new_state();
    restore_database(&mut fresh, 0, &dump);
    fresh
}

#[test]
fn full_snapshot_round_trip_survives_a_restart() {
    let mut state = new_state();
    SqlEngine::execute(&mut state, 0, "CREATE TABLE t (id INTEGER PRIMARY KEY, name TEXT)", &[], None).unwrap();
    SqlEngine::execute(&mut state, 0, "INSERT INTO t (id, name) VALUES (1, 'alice')", &[], None).unwrap();
    SqlEngine::execute(&mut state, 0, "CREATE VIEW v AS SELECT * FROM t", &[], None).unwrap();
    state.put_raw(0, "raw_table", b"k1".to_vec(), b"v1".to_vec());

    let dump = dump_database(&state, 0);

    let mut restored = new_state();
    restore_database(&mut restored, 0, &dump);

    let rows = SqlEngine::execute(&mut restored, 0, "SELECT name FROM t WHERE id = 1", &[], None).unwrap();
    assert_eq!(rows.rows.len(), 1, "SQL table row must survive a restart");
    assert_eq!(rows.rows[0].get("name"), Some(&Value::Text("alice".into())));

    let view_rows = SqlEngine::execute(&mut restored, 0, "SELECT name FROM v", &[], None).unwrap();
    assert_eq!(view_rows.rows.len(), 1, "view definition must survive a restart");

    let raw = restored.get_raw(0, "raw_table", &b"k1".to_vec());
    assert_eq!(raw, Some(b"v1".to_vec()), "raw put()/get() data must survive a restart");

    SqlEngine::execute(&mut restored, 0, "INSERT INTO t (name) VALUES ('bob')", &[], None).unwrap();
    let all = SqlEngine::execute(&mut restored, 0, "SELECT id, name FROM t ORDER BY id", &[], None).unwrap();
    assert_eq!(all.rows.len(), 2);
    assert_eq!(all.rows[1].get("id"), Some(&Value::Integer(2)));
}

#[test]
fn triggers_survive_a_restart() {
    let mut state = new_state();
    run(&mut state, "CREATE TABLE t (a INTEGER)");
    run(&mut state, "CREATE TABLE log (a INTEGER)");
    run(&mut state, "CREATE TRIGGER tr AFTER INSERT ON t BEGIN INSERT INTO log (a) VALUES (NEW.a); END");
    let mut after = restarted(&state);
    run(&mut after, "INSERT INTO t (a) VALUES (7)");
    let logged = run(&mut after, "SELECT a FROM log");
    assert_eq!(logged.rows.len(), 1);
    assert_eq!(logged.rows[0].get("a"), Some(&Value::Integer(7)));
}

#[test]
fn indexes_are_made_anew_after_a_restart() {
    let mut state = new_state();
    run(&mut state, "CREATE TABLE t (a INTEGER, b TEXT)");
    run(&mut state, "INSERT INTO t (a, b) VALUES (1, 'x'), (2, 'y'), (1, 'z')");
    run(&mut state, "CREATE INDEX ia ON t (a)");
    let mut after = restarted(&state);
    assert_eq!(skvs::index::lookup_index(&after, 0, "t", "ia", &Value::Integer(1)), vec![1, 3]);
    let found = run(&mut after, "SELECT b FROM t WHERE a = 1 ORDER BY b");
    assert_eq!(found.rows.len(), 2);
    assert_eq!(found.rows[1].get("b"), Some(&Value::Text("z".into())));
}

#[test]
fn full_text_indexes_are_made_anew_after_a_restart() {
    let mut state = new_state();
    run(&mut state, "CREATE VIRTUAL TABLE docs USING fts5(body)");
    run(&mut state, "INSERT INTO docs (body) VALUES ('quick brown fox')");
    run(&mut state, "INSERT INTO docs (body) VALUES ('lazy dog')");
    let mut after = restarted(&state);
    let found = run(&mut after, "SELECT body FROM docs WHERE fts_match(docs, 'fox')");
    assert_eq!(found.rows.len(), 1);
    assert_eq!(found.rows[0].get("body"), Some(&Value::Text("quick brown fox".into())));
}

#[test]
fn a_snapshot_with_missing_parts_leaves_them_alone() {
    let mut state = new_state();
    state.put_raw(0, "raw", b"k".to_vec(), b"v".to_vec());
    state.add_view(0, "v", "SELECT 1").unwrap();
    let nothing = DatabaseDump { tables: Vec::new(), raw: None, views: None, triggers: None };
    restore_database(&mut state, 0, &nothing);
    assert_eq!(state.get_raw(0, "raw", &b"k".to_vec()), Some(b"v".to_vec()));
    assert_eq!(state.get_view_definition(0, "v"), Some("SELECT 1".to_string()));
}

#[test]
fn a_snapshot_of_an_unknown_database_is_empty() {
    let state = new_state();
    let dump = dump_database(&state, 9);
    assert!(dump.tables.is_empty());
    assert!(dump.raw.is_none());
    assert!(dump.views.is_none());
    assert!(dump.triggers.is_none());
}

#[test]
fn new_ids_come_behind_the_highest_restored_id() {
    let mut state = new_state();
    run(&mut state, "CREATE TABLE t (a INTEGER)");
    state.set_min_next_rowid(0, "t", 50);
    run(&mut state, "INSERT INTO t (a) VALUES (1)");
    let mut after = restarted(&state);
    assert_eq!(after.get_next_rowid(0, "t"), 51);
}
