use skvs::config::DatabaseConfig;
use skvs::schema::{Row, Value};
use skvs::sql::SqlEngine;
use skvs::state::KvsState;

fn new_state() -> KvsState {
    KvsState::new(&[DatabaseConfig { id: 0, name: "default".into() }])
}

fn run(state: &mut KvsState, sql: &str, params: &[Value]) -> Vec<Row> {
    SqlEngine::execute(state, 0, sql, params, None).unwrap().rows
}

fn whole(i: i64) -> Value {
    Value::Integer(i)
}

fn text(s: &str) -> Value {
    Value::Text(s.into())
}

fn value(sql: &str, params: &[Value]) -> Value {
    let mut state = new_state();
    run(&mut state, "CREATE TABLE one (x INTEGER)", &[]);
    run(&mut state, "INSERT INTO one (x) VALUES (1)", &[]);
    let q = format!("SELECT {} AS v FROM one", sql);
    run(&mut state, &q, params)[0].get("v").cloned().unwrap()
}

#[test]
fn an_operand_of_case_is_read_once() {
    let sql = "CASE ? WHEN ? THEN 'a' WHEN ? THEN 'b' ELSE 'c' END";
    assert_eq!(value(sql, &[whole(2), whole(2), whole(3)]), text("a"));
    assert_eq!(value(sql, &[whole(2), whole(1), whole(2)]), text("b"));
    assert_eq!(value(sql, &[whole(2), whole(1), whole(3)]), text("c"));
}

#[test]
fn a_branch_that_is_not_taken_keeps_its_parameters() {
    let sql = "CASE WHEN x = ? THEN ? WHEN x = ? THEN ? ELSE ? END || ?";
    let given = [whole(1), text("a"), whole(1), text("b"), text("c"), text("!")];
    assert_eq!(value(sql, &given), text("a!"));
    let given = [whole(0), text("a"), whole(1), text("b"), text("c"), text("!")];
    assert_eq!(value(sql, &given), text("b!"));
    let given = [whole(0), text("a"), whole(0), text("b"), text("c"), text("!")];
    assert_eq!(value(sql, &given), text("c!"));
}

#[test]
fn both_sides_of_and_and_or_take_their_parameters() {
    let sql = "CASE WHEN x = ? AND x = ? THEN 'yes' ELSE 'no' END || ?";
    assert_eq!(value(sql, &[whole(0), whole(1), text("!")]), text("no!"));
    assert_eq!(value(sql, &[whole(1), whole(1), text("!")]), text("yes!"));
    let sql = "CASE WHEN x = ? OR x = ? THEN 'yes' ELSE 'no' END || ?";
    assert_eq!(value(sql, &[whole(1), whole(0), text("!")]), text("yes!"));
}

#[test]
fn a_list_takes_all_its_parameters() {
    let sql = "CASE WHEN x IN (?, ?, ?) THEN 'in' ELSE 'out' END || ?";
    assert_eq!(value(sql, &[whole(1), whole(2), whole(3), text("!")]), text("in!"));
    assert_eq!(value(sql, &[whole(4), whole(2), whole(3), text("!")]), text("out!"));
}

#[test]
fn each_list_of_values_goes_on_behind_the_one_before() {
    let mut state = new_state();
    run(&mut state, "CREATE TABLE t (a INTEGER, b INTEGER)", &[]);
    let given = [whole(1), whole(2), whole(3), whole(4)];
    run(&mut state, "INSERT INTO t (a, b) VALUES (?, ?), (?, ?)", &given);
    let rows = run(&mut state, "SELECT a, b FROM t ORDER BY a", &[]);
    assert_eq!(rows.len(), 2);
    assert_eq!((rows[0].get("a"), rows[0].get("b")), (Some(&whole(1)), Some(&whole(2))));
    assert_eq!((rows[1].get("a"), rows[1].get("b")), (Some(&whole(3)), Some(&whole(4))));
}

#[test]
fn the_items_of_a_query_come_before_its_conditions() {
    let mut state = new_state();
    run(&mut state, "CREATE TABLE t (a INTEGER)", &[]);
    run(&mut state, "INSERT INTO t (a) VALUES (1), (2), (3)", &[]);
    let rows = run(&mut state, "SELECT ? AS p, a, ? AS q FROM t WHERE a = ?", &[text("p"), text("q"), whole(3)]);
    assert_eq!(rows.len(), 1);
    assert_eq!(rows[0].get("p"), Some(&text("p")));
    assert_eq!(rows[0].get("a"), Some(&whole(3)));
    assert_eq!(rows[0].get("q"), Some(&text("q")));
}

#[test]
fn the_condition_of_a_join_comes_before_that_of_the_query() {
    let mut state = new_state();
    run(&mut state, "CREATE TABLE l (k INTEGER, x TEXT)", &[]);
    run(&mut state, "CREATE TABLE r (m INTEGER, y TEXT)", &[]);
    run(&mut state, "INSERT INTO l (k, x) VALUES (1, 'a'), (1, 'b')", &[]);
    run(&mut state, "INSERT INTO r (m, y) VALUES (1, 'p'), (1, 'q')", &[]);
    let rows = run(
        &mut state,
        "SELECT x, y FROM l JOIN r ON l.k = r.m AND r.y = ? WHERE l.x = ?",
        &[text("q"), text("b")],
    );
    assert_eq!(rows.len(), 1);
    assert_eq!((rows[0].get("x"), rows[0].get("y")), (Some(&text("b")), Some(&text("q"))));
}

#[test]
fn what_an_update_sets_comes_before_its_condition() {
    let mut state = new_state();
    run(&mut state, "CREATE TABLE t (a INTEGER, b INTEGER)", &[]);
    run(&mut state, "INSERT INTO t (a, b) VALUES (1, 10), (2, 20)", &[]);
    run(&mut state, "UPDATE t SET a = ?, b = ? WHERE a = ? AND b = ?", &[whole(7), whole(8), whole(2), whole(20)]);
    let rows = run(&mut state, "SELECT a, b FROM t ORDER BY a", &[]);
    assert_eq!((rows[0].get("a"), rows[0].get("b")), (Some(&whole(1)), Some(&whole(10))));
    assert_eq!((rows[1].get("a"), rows[1].get("b")), (Some(&whole(7)), Some(&whole(8))));
}
