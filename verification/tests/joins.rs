use skvs::ast::{SetExpr, Statement};
use skvs::config::DatabaseConfig;
use skvs::schema::Value;
use skvs::sql::parser::parse_statements;
use skvs::sql::select::execute_joins;
use skvs::sql::{QueryResult, SqlEngine};
use skvs::state::KvsState;

fn run(state: &mut KvsState, sql: &str) -> QueryResult {
    SqlEngine::execute(state, 0, sql, &[], None).unwrap()
}

fn tables() -> KvsState {
    let mut state = KvsState::new(&[DatabaseConfig { id: 0, name: "default".into() }]);
    run(&mut state, "CREATE TABLE l (k INTEGER, x TEXT)");
    run(&mut state, "CREATE TABLE r (m INTEGER, y TEXT)");
    run(&mut state, "INSERT INTO l (k, x) VALUES (1, 'a'), (2, 'b'), (2, 'c')");
    run(&mut state, "INSERT INTO r (m, y) VALUES (2, 'p'), (3, 'q')");
    state
}

fn pairs(r: &QueryResult) -> Vec<(Value, Value)> {
    r.rows.iter().map(|row| (row.get("x").cloned().unwrap(), row.get("y").cloned().unwrap())).collect()
}

fn text(s: &str) -> Value {
    Value::Text(s.into())
}

#[test]
fn an_inner_join_has_exactly_the_matching_pairs() {
    let mut state = tables();
    let r = run(&mut state, "SELECT x, y FROM l JOIN r ON l.k = r.m ORDER BY x");
    assert_eq!(pairs(&r), vec![(text("b"), text("p")), (text("c"), text("p"))]);
}

#[test]
fn a_left_join_keeps_every_left_row() {
    let mut state = tables();
    let r = run(&mut state, "SELECT x, y FROM l LEFT JOIN r ON l.k = r.m ORDER BY x");
    assert_eq!(
        pairs(&r),
        vec![(text("a"), Value::Null), (text("b"), text("p")), (text("c"), text("p"))]
    );
}

#[test]
fn a_right_join_keeps_every_right_row() {
    let mut state = tables();
    let r = run(&mut state, "SELECT x, y FROM l RIGHT JOIN r ON l.k = r.m ORDER BY y, x");
    assert_eq!(
        pairs(&r),
        vec![(text("b"), text("p")), (text("c"), text("p")), (Value::Null, text("q"))]
    );
}

#[test]
fn a_full_join_keeps_every_row_of_both_sides() {
    let mut state = tables();
    let r = run(&mut state, "SELECT x, y FROM l FULL OUTER JOIN r ON l.k = r.m ORDER BY x, y");
    assert_eq!(
        pairs(&r),
        vec![
            (Value::Null, text("q")),
            (text("a"), Value::Null),
            (text("b"), text("p")),
            (text("c"), text("p")),
        ]
    );
}

#[test]
fn a_cross_join_has_every_pair() {
    let mut state = tables();
    let r = run(&mut state, "SELECT x, y FROM l CROSS JOIN r");
    assert_eq!(r.rows.len(), 6);
}

#[test]
fn a_chain_of_joins_goes_from_left_to_right() {
    let mut state = tables();
    run(&mut state, "CREATE TABLE z (y TEXT, w INTEGER)");
    run(&mut state, "INSERT INTO z (y, w) VALUES ('p', 100)");
    let r = run(&mut state, "SELECT l.x, z.w FROM l JOIN r ON l.k = r.m JOIN z ON r.y = z.y ORDER BY l.x");
    assert_eq!(r.rows.len(), 2);
    assert_eq!(r.rows[0].get("x"), Some(&text("b")));
    assert_eq!(r.rows[0].get("w"), Some(&Value::Integer(100)));
}

#[test]
fn a_join_by_alias() {
    let mut state = tables();
    let r = run(&mut state, "SELECT p.x AS first, q.x AS second FROM l AS p JOIN l AS q ON p.k = q.k WHERE p.x < q.x");
    assert_eq!(r.rows.len(), 1);
    assert_eq!(r.columns, vec!["first".to_string(), "second".to_string()]);
    assert_eq!(r.rows[0].get("first"), Some(&text("b")));
    assert_eq!(r.rows[0].get("second"), Some(&text("c")));
}

#[test]
fn a_join_with_a_missing_table_fails() {
    let mut state = tables();
    match SqlEngine::execute(&mut state, 0, "SELECT * FROM l JOIN nope ON l.k = nope.k", &[], None) {
        Err(e) => assert_eq!(e.message(), "Schema error: Table nope not found"),
        Ok(_) => panic!("there is no such table"),
    }
}

#[test]
fn a_row_without_a_match_keeps_its_own_cells() {
    let mut state = KvsState::new(&[DatabaseConfig { id: 0, name: "default".into() }]);
    run(&mut state, "CREATE TABLE a (id INTEGER, x TEXT)");
    run(&mut state, "CREATE TABLE b (id INTEGER, y TEXT)");
    run(&mut state, "INSERT INTO a (id, x) VALUES (1, 'one'), (2, 'two')");
    run(&mut state, "INSERT INTO b (id, y) VALUES (1, 'uno')");
    let r = run(&mut state, "SELECT id AS i, b.id AS j, x, y FROM a LEFT JOIN b ON a.id = b.id ORDER BY a.id");
    assert_eq!(r.rows.len(), 2);
    assert_eq!(r.rows[0].get("i"), Some(&Value::Integer(1)));
    assert_eq!(r.rows[0].get("j"), Some(&Value::Integer(1)));
    assert_eq!(r.rows[0].get("y"), Some(&text("uno")));
    assert_eq!(r.rows[1].get("i"), Some(&Value::Integer(2)));
    assert_eq!(r.rows[1].get("j"), Some(&Value::Null));
    assert_eq!(r.rows[1].get("x"), Some(&text("two")));
    assert_eq!(r.rows[1].get("y"), Some(&Value::Null));
}

#[test]
fn using_pairs_the_rows_that_agree_on_a_column() {
    let mut state = tables();
    run(&mut state, "CREATE TABLE s (k INTEGER, y TEXT)");
    run(&mut state, "INSERT INTO s (k, y) VALUES (2, 'p'), (3, 'q'), (NULL, 'n')");
    run(&mut state, "INSERT INTO l (k, x) VALUES (NULL, 'd')");
    let r = run(&mut state, "SELECT x, y FROM l JOIN s USING (k) ORDER BY x");
    let expected = vec![(text("b"), text("p")), (text("c"), text("p")), (text("d"), text("n"))];
    assert_eq!(pairs(&r), expected);
    let same = run(&mut state, "SELECT x, y FROM l JOIN s ON l.k = s.k ORDER BY x");
    assert_eq!(pairs(&same), expected);
}

#[test]
fn a_left_join_is_the_inner_join_and_the_rows_left_alone() {
    let mut state = tables();
    let inner = run(&mut state, "SELECT x, y FROM l JOIN r ON l.k = r.m");
    let left = run(&mut state, "SELECT x, y FROM l LEFT JOIN r ON l.k = r.m");
    assert_eq!(left.rows.len(), inner.rows.len() + 1);
    for pair in pairs(&inner) {
        assert!(pairs(&left).contains(&pair));
    }
    assert!(pairs(&left).contains(&(text("a"), Value::Null)));
}

#[test]
fn a_from_list_gives_the_rows_of_its_joins() {
    let state = tables();
    for (sql, rows) in [("SELECT * FROM l JOIN r ON l.k = r.m", 2), ("SELECT * FROM l LEFT JOIN r ON l.k = r.m", 3)] {
        let stmts = parse_statements(sql).unwrap();
        match &stmts[0] {
            Statement::Query(q) => match &q.body {
                SetExpr::Select(s) => {
                    let out = execute_joins(&state, 0, &s.from, &[]).unwrap();
                    assert_eq!(out.len(), rows);
                    assert!(out.iter().all(|row| row.get("l.x").is_some() && row.get("r.y").is_some()));
                }
                _ => panic!("no select"),
            },
            _ => panic!("no query"),
        }
    }
}
