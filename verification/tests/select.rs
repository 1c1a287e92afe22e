use skvs::config::DatabaseConfig;
use skvs::double::Real;
use skvs::schema::Value;
use skvs::sql::SqlEngine;
use skvs::state::KvsState;

fn new_state() -> KvsState {
    KvsState::new(&[DatabaseConfig { id: 0, name: "default".into() }])
}

#[test]
fn select_star_reports_real_columns_not_a_literal_asterisk() {
    let mut state = new_state();
    SqlEngine::execute(&mut state, 0, "CREATE TABLE t (id INTEGER, name TEXT)", &[], None).unwrap();
    SqlEngine::execute(&mut state, 0, "INSERT INTO t (id, name) VALUES (1, 'a')", &[], None).unwrap();
    let result = SqlEngine::execute(&mut state, 0, "SELECT * FROM t", &[], None).unwrap();
    assert_eq!(result.columns, vec!["id".to_string(), "name".to_string()]);
}

#[test]
fn left_outer_join_pads_unmatched_rows_with_null() {
    let mut state = new_state();
    SqlEngine::execute(&mut state, 0, "CREATE TABLE a (id INTEGER, val TEXT)", &[], None).unwrap();
    SqlEngine::execute(&mut state, 0, "CREATE TABLE b (a_id INTEGER, note TEXT)", &[], None).unwrap();
    SqlEngine::execute(&mut state, 0, "INSERT INTO a (id, val) VALUES (1, 'x')", &[], None).unwrap();
    SqlEngine::execute(&mut state, 0, "INSERT INTO a (id, val) VALUES (2, 'y')", &[], None).unwrap();
    SqlEngine::execute(&mut state, 0, "INSERT INTO b (a_id, note) VALUES (1, 'has-note')", &[], None).unwrap();

    let result = SqlEngine::execute(
        &mut state, 0,
        "SELECT a.id, b.note FROM a LEFT JOIN b ON a.id = b.a_id",
        &[], None,
    ).unwrap();
    assert_eq!(result.rows.len(), 2, "every left-side row must appear exactly once");
    let unmatched = result.rows.iter().find(|r| r.get("id") == Some(&Value::Integer(2))).unwrap();
    assert_eq!(unmatched.get("note"), Some(&Value::Null));
}

#[test]
fn inner_join_still_only_returns_matches() {
    let mut state = new_state();
    SqlEngine::execute(&mut state, 0, "CREATE TABLE a (id INTEGER)", &[], None).unwrap();
    SqlEngine::execute(&mut state, 0, "CREATE TABLE b (a_id INTEGER)", &[], None).unwrap();
    SqlEngine::execute(&mut state, 0, "INSERT INTO a (id) VALUES (1)", &[], None).unwrap();
    SqlEngine::execute(&mut state, 0, "INSERT INTO a (id) VALUES (2)", &[], None).unwrap();
    SqlEngine::execute(&mut state, 0, "INSERT INTO b (a_id) VALUES (1)", &[], None).unwrap();

    let result = SqlEngine::execute(&mut state, 0, "SELECT a.id FROM a JOIN b ON a.id = b.a_id", &[], None).unwrap();
    assert_eq!(result.rows.len(), 1);
}

#[test]
fn where_compares_real_column_against_integer_literal_correctly() {
    let mut state = new_state();
    SqlEngine::execute(&mut state, 0, "CREATE TABLE t (price REAL)", &[], None).unwrap();
    SqlEngine::execute(&mut state, 0, "INSERT INTO t (price) VALUES (150.5)", &[], None).unwrap();
    SqlEngine::execute(&mut state, 0, "INSERT INTO t (price) VALUES (50.5)", &[], None).unwrap();
    let result = SqlEngine::execute(&mut state, 0, "SELECT price FROM t WHERE price > 100", &[], None).unwrap();
    assert_eq!(result.rows.len(), 1);
    assert_eq!(result.rows[0].get("price"), Some(&Value::Real(Real { bits: 150.5f64.to_bits() })));
}

#[test]
fn join_condition_is_correct_even_when_both_tables_share_a_column_name() {
    let mut state = new_state();
    SqlEngine::execute(&mut state, 0, "CREATE TABLE authors (id INTEGER, name TEXT)", &[], None).unwrap();
    SqlEngine::execute(&mut state, 0, "CREATE TABLE books (id INTEGER, title TEXT, author_id INTEGER)", &[], None).unwrap();
    SqlEngine::execute(&mut state, 0, "INSERT INTO authors (id, name) VALUES (1, 'Tolkien'), (2, 'Orwell')", &[], None).unwrap();
    SqlEngine::execute(&mut state, 0, "INSERT INTO books (id, title, author_id) VALUES (1, 'LOTR', 1), (2, '1984', 2), (3, 'Ghost', 99)", &[], None).unwrap();

    let result = SqlEngine::execute(
        &mut state, 0,
        "SELECT authors.name, books.title FROM authors JOIN books ON authors.id = books.author_id",
        &[], None,
    ).unwrap();
    assert_eq!(result.rows.len(), 2, "each author should match exactly its own book, not a cross product");
    let names: Vec<_> = result.rows.iter().filter_map(|r| r.get("name").cloned()).collect();
    assert!(names.contains(&Value::Text("Tolkien".into())));
    assert!(names.contains(&Value::Text("Orwell".into())));
}
