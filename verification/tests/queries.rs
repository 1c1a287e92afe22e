use skvs::config::DatabaseConfig;
use skvs::double::Real;
use skvs::index::{range_lookup, Bound};
use skvs::schema::Value;
use skvs::sql::{QueryResult, SqlEngine};
use skvs::state::KvsState;
use std::cmp::Ordering;

fn run(state: &mut KvsState, sql: &str) -> QueryResult {
    SqlEngine::execute(state, 0, sql, &[], None).unwrap()
}

fn numbers() -> KvsState {
    let mut state = KvsState::new(&[DatabaseConfig { id: 0, name: "default".into() }]);
    run(&mut state, "CREATE TABLE t (g TEXT, n INTEGER, f REAL)");
    run(
        &mut state,
        "INSERT INTO t (g, n, f) VALUES ('a', 3, 1.5), ('b', 1, 2.5), ('a', 2, 0.5), ('b', NULL, 4.0), ('a', 3, NULL)",
    );
    state
}

fn number(f: f64) -> Value {
    Value::Real(Real { bits: f.to_bits() })
}

fn column(r: &QueryResult, name: &str) -> Vec<Value> {
    r.rows.iter().map(|x| x.get(name).cloned().unwrap()).collect()
}

fn whole(i: i64) -> Value {
    Value::Integer(i)
}

#[test]
fn order_by_puts_null_first_and_keeps_ties_in_order() {
    let mut state = numbers();
    let r = run(&mut state, "SELECT n, f FROM t ORDER BY n");
    assert_eq!(column(&r, "n"), vec![Value::Null, whole(1), whole(2), whole(3), whole(3)]);
    assert_eq!(r.rows[3].get("f"), Some(&number(1.5)));
    assert_eq!(r.rows[4].get("f"), Some(&Value::Null));
    let d = run(&mut state, "SELECT n FROM t ORDER BY n DESC");
    assert_eq!(column(&d, "n"), vec![whole(3), whole(3), whole(2), whole(1), Value::Null]);
}

#[test]
fn order_by_several_keys_goes_by_the_first() {
    let mut state = numbers();
    let r = run(&mut state, "SELECT g, n FROM t ORDER BY g DESC, n ASC");
    assert_eq!(
        column(&r, "g"),
        vec!["b", "b", "a", "a", "a"].into_iter().map(|s| Value::Text(s.into())).collect::<Vec<_>>()
    );
    assert_eq!(column(&r, "n"), vec![Value::Null, whole(1), whole(2), whole(3), whole(3)]);
}

#[test]
fn distinct_tells_rows_apart() {
    let mut state = numbers();
    assert_eq!(run(&mut state, "SELECT DISTINCT g FROM t").rows.len(), 2);
    assert_eq!(run(&mut state, "SELECT DISTINCT g, n FROM t").rows.len(), 4);
}

#[test]
fn limit_and_offset_cut_the_result() {
    let mut state = numbers();
    let r = run(&mut state, "SELECT n FROM t ORDER BY n LIMIT 2 OFFSET 1");
    assert_eq!(column(&r, "n"), vec![whole(1), whole(2)]);
    assert_eq!(run(&mut state, "SELECT n FROM t LIMIT 2 OFFSET 4").rows.len(), 1);
    assert_eq!(run(&mut state, "SELECT n FROM t LIMIT 0").rows.len(), 0);
    assert_eq!(run(&mut state, "SELECT n FROM t LIMIT 3 OFFSET 9").rows.len(), 0);
}

#[test]
fn aggregates_of_each_group() {
    let mut state = numbers();
    let r = run(
        &mut state,
        "SELECT g, COUNT(*) AS c, COUNT(n) AS cn, SUM(n) AS s, AVG(f) AS m, MIN(n) AS lo, MAX(n) AS hi FROM t GROUP BY g",
    );
    assert_eq!(r.rows.len(), 2);
    assert_eq!(column(&r, "c"), vec![whole(3), whole(2)]);
    assert_eq!(column(&r, "cn"), vec![whole(3), whole(1)]);
    assert_eq!(column(&r, "m"), vec![number(1.0), number(3.25)]);
    assert_eq!(column(&r, "lo"), vec![whole(2), Value::Null]);
    assert_eq!(column(&r, "hi"), vec![whole(3), whole(1)]);
}

#[test]
fn an_index_changes_no_result() {
    let mut state = numbers();
    let before = run(&mut state, "SELECT g, n, f FROM t WHERE n = 3");
    run(&mut state, "CREATE INDEX i ON t (n)");
    let after = run(&mut state, "SELECT g, n, f FROM t WHERE n = 3");
    assert_eq!(before.rows, after.rows);
    assert_eq!(after.rows.len(), 2);
    run(&mut state, "UPDATE t SET n = 4 WHERE g = 'b'");
    run(&mut state, "DELETE FROM t WHERE f = 1.5");
    assert_eq!(run(&mut state, "SELECT n FROM t WHERE n = 4").rows.len(), 2);
    assert_eq!(run(&mut state, "SELECT n FROM t WHERE n = 3").rows.len(), 1);
    assert_eq!(run(&mut state, "SELECT n FROM t WHERE n = 1").rows.len(), 0);
}

#[test]
fn a_query_changes_nothing() {
    let mut state = numbers();
    let a = run(&mut state, "SELECT * FROM t");
    let b = run(&mut state, "SELECT * FROM t");
    assert_eq!(a.rows, b.rows);
    assert_eq!(a.affected_rows, None);
    assert_eq!(a.tx_id, None);
}

#[test]
fn the_columns_of_an_empty_result_come_from_the_definition() {
    let mut state = numbers();
    let r = run(&mut state, "SELECT * FROM t WHERE n = 99");
    assert_eq!(r.columns, vec!["g".to_string(), "n".to_string(), "f".to_string()]);
    assert!(r.rows.is_empty());
}

#[test]
fn a_view_gives_what_its_query_gives() {
    let mut state = numbers();
    run(&mut state, "CREATE VIEW v AS SELECT n FROM t WHERE g = 'a'");
    let r = run(&mut state, "SELECT n FROM v ORDER BY n");
    assert_eq!(column(&r, "n"), vec![whole(2), whole(3), whole(3)]);
    run(&mut state, "CREATE VIEW w AS SELECT n FROM v WHERE n > 2");
    assert_eq!(run(&mut state, "SELECT n FROM w").rows.len(), 2);
}

#[test]
fn a_view_that_reads_itself_is_refused() {
    let mut state = numbers();
    run(&mut state, "CREATE VIEW v AS SELECT n FROM w");
    run(&mut state, "CREATE VIEW w AS SELECT n FROM v");
    match SqlEngine::execute(&mut state, 0, "SELECT n FROM v", &[], None) {
        Err(e) => assert_eq!(e.message(), "View error: View definition is circular"),
        Ok(_) => panic!("the view reads itself"),
    }
}

#[test]
fn values_are_ordered_by_kind_and_then_by_size() {
    let values = vec![
        Value::Null,
        number(-1.5),
        Value::Integer(-1),
        Value::Integer(2),
        number(2.5),
        Value::Integer(i64::MAX),
        Value::Text("A".into()),
        Value::Text("a".into()),
        Value::Blob(vec![0]),
        Value::Blob(vec![0, 1]),
    ];
    for i in 0..values.len() {
        for j in 0..values.len() {
            assert_eq!(values[i].compare(&values[j]), i.cmp(&j));
        }
    }
    assert_eq!(Value::Integer(2).compare(&number(2.0)), Ordering::Equal);
    assert_ne!(Value::Integer(2), number(2.0));
}

#[test]
fn between_in_like_and_null_tests() {
    let mut state = numbers();
    assert_eq!(run(&mut state, "SELECT n FROM t WHERE n BETWEEN 2 AND 3").rows.len(), 3);
    assert_eq!(run(&mut state, "SELECT n FROM t WHERE n IN (1, 2)").rows.len(), 2);
    assert_eq!(run(&mut state, "SELECT n FROM t WHERE n IS NULL").rows.len(), 1);
    assert_eq!(run(&mut state, "SELECT n FROM t WHERE n IS NOT NULL AND g LIKE 'a%'").rows.len(), 3);
    assert_eq!(run(&mut state, "SELECT n FROM t WHERE NOT (g = 'a')").rows.len(), 2);
    assert_eq!(run(&mut state, "SELECT n FROM t WHERE g = 'b' OR n = 2").rows.len(), 3);
}

#[test]
fn an_insert_from_a_query_goes_by_position() {
    let mut state = numbers();
    run(&mut state, "CREATE TABLE u (x INTEGER, y TEXT)");
    let r = run(&mut state, "INSERT INTO u (x, y) SELECT n, g FROM t WHERE g = 'b'");
    assert_eq!(r.affected_rows, Some(2));
    let rows = run(&mut state, "SELECT x, y FROM u ORDER BY x");
    assert_eq!(column(&rows, "x"), vec![Value::Null, whole(1)]);
    assert_eq!(column(&rows, "y"), vec![Value::Text("b".into()), Value::Text("b".into())]);
}

#[test]
fn update_and_delete_touch_exactly_the_chosen_rows() {
    let mut state = numbers();
    let u = run(&mut state, "UPDATE t SET n = 7, f = n WHERE g = 'a' AND n = 3");
    assert_eq!(u.affected_rows, Some(2));
    let r = run(&mut state, "SELECT n, f FROM t ORDER BY _rowid_");
    assert_eq!(column(&r, "n"), vec![whole(7), whole(1), whole(2), Value::Null, whole(7)]);
    assert_eq!(r.rows[0].get("f"), Some(&whole(3)));
    let d = run(&mut state, "DELETE FROM t WHERE n = 7");
    assert_eq!(d.affected_rows, Some(2));
    assert_eq!(run(&mut state, "SELECT n FROM t").rows.len(), 3);
    assert_eq!(run(&mut state, "DELETE FROM t").affected_rows, Some(3));
}

#[test]
fn a_range_of_an_index_comes_in_the_order_of_its_values() {
    let mut state = numbers();
    run(&mut state, "CREATE INDEX i ON t (n)");
    let all = range_lookup(&state, 0, "t", "i", &Bound::Unbounded, &Bound::Unbounded);
    assert_eq!(all, vec![4, 2, 3, 1, 5]);
    let some = range_lookup(&state, 0, "t", "i", &Bound::Excluded(whole(1)), &Bound::Included(whole(3)));
    assert_eq!(some, vec![3, 1, 5]);
    let none = range_lookup(&state, 0, "t", "i", &Bound::Included(whole(8)), &Bound::Unbounded);
    assert_eq!(none, Vec::<u64>::new());
}

#[test]
fn distinct_tells_whole_rows_apart() {
    let mut state = numbers();
    run(&mut state, "CREATE TABLE d (a INTEGER, b TEXT)");
    run(&mut state, "INSERT INTO d (a, b) VALUES (1, 'x'), (1, 'x'), (1, 'y')");
    assert_eq!(run(&mut state, "SELECT DISTINCT * FROM d").rows.len(), 2);
    assert_eq!(run(&mut state, "SELECT * FROM d").rows.len(), 3);
}

#[test]
fn an_aggregate_without_groups_takes_all_rows_together() {
    let mut state = numbers();
    let r = run(&mut state, "SELECT COUNT(*) AS c, SUM(n) AS s, MAX(n) AS hi, MIN(g) AS g, 7 AS k FROM t");
    assert_eq!(r.rows.len(), 1);
    assert_eq!(column(&r, "c"), vec![whole(5)]);
    assert_eq!(column(&r, "s"), vec![whole(9)]);
    assert_eq!(column(&r, "hi"), vec![whole(3)]);
    assert_eq!(column(&r, "g"), vec![Value::Text("a".into())]);
    assert_eq!(column(&r, "k"), vec![whole(7)]);
    let none = run(&mut state, "SELECT COUNT(*) AS c, MAX(n) AS hi, n FROM t WHERE n = 99");
    assert_eq!(none.rows.len(), 1);
    assert_eq!(column(&none, "c"), vec![whole(0)]);
    assert_eq!(column(&none, "hi"), vec![Value::Null]);
    assert_eq!(column(&none, "n"), vec![Value::Null]);
}

#[test]
fn a_group_shows_columns_and_expressions_of_its_first_row() {
    let mut state = numbers();
    let r = SqlEngine::execute(
        &mut state,
        0,
        "SELECT t.g, upper(g) AS u, n + ? AS m, COUNT(*) AS c, ? AS p FROM t GROUP BY g",
        &[whole(10), whole(20)],
        None,
    ).unwrap();
    assert_eq!(r.columns, vec!["g", "u", "m", "c", "p"]);
    assert_eq!(column(&r, "g"), vec![Value::Text("a".into()), Value::Text("b".into())]);
    assert_eq!(column(&r, "u"), vec![Value::Text("A".into()), Value::Text("B".into())]);
    assert_eq!(column(&r, "c"), vec![whole(3), whole(2)]);
    assert_eq!(column(&r, "p"), vec![whole(20), whole(20)]);
    let first = run(&mut state, "SELECT n + 10 AS m FROM t WHERE g = 'a'");
    assert_eq!(r.rows[0].get("m"), first.rows[0].get("m"));
}

#[test]
fn rows_are_ordered_by_one_key_behind_the_other() {
    let mut state = numbers();
    run(&mut state, "CREATE TABLE o (k INTEGER, a INTEGER, b INTEGER)");
    run(
        &mut state,
        "INSERT INTO o (k, a, b) VALUES (1, 2, 1), (2, 1, 1), (3, 1, 2), (4, 2, 1), (5, 1, 2)",
    );
    let r = run(&mut state, "SELECT k FROM o ORDER BY a, b DESC");
    assert_eq!(column(&r, "k"), vec![whole(3), whole(5), whole(2), whole(1), whole(4)]);
}

#[test]
fn expressions_take_aggregates() {
    let mut state = numbers();
    let r = run(&mut state, "SELECT g, SUM(n) / COUNT(*) AS m, round(AVG(f), 1) AS a, -(COUNT(*) + 1) AS c FROM t GROUP BY g");
    assert_eq!(column(&r, "m"), vec![number(8.0 / 3.0), number(0.5)]);
    assert_eq!(column(&r, "a"), vec![number(1.0), number(3.3)]);
    assert_eq!(column(&r, "c"), vec![whole(-4), whole(-3)]);
    let all = run(&mut state, "SELECT MAX(n) - MIN(f) AS d, COUNT(*) > 4 AS many FROM t WHERE f > 0");
    assert_eq!(all.rows.len(), 1);
    assert_eq!(column(&all, "d"), vec![number(2.5)]);
    assert_eq!(column(&all, "many"), vec![whole(0)]);
}
